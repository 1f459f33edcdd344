use memtable::log::{CorruptKind, LogReader, LogWriter, Record};
use rand::Rng;

#[test]
fn test_write_size_to_file() {
    let mut writer = LogWriter::new();
    let size = writer.put("foo", "bar");

    assert_eq!(size, 1 + 8 + 8 + 3 + 3);
}

#[test]
fn test_delete_size_to_file() {
    let mut writer = LogWriter::new();
    let size = writer.delete("foo");

    assert_eq!(size, 1 + 8 + 3);
}

#[test]
fn test_write_val_to_file() {
    let mut writer = LogWriter::new();
    writer.put("foo", "bar");

    let buffer = writer.bytes();
    assert_eq!(buffer.len(), 23);

    assert_eq!(buffer[0], 0);

    let mut klen: u64 = 0;
    for i in 1..9 {
        klen = (klen << 8) | (buffer[i] as u64);
    }
    assert_eq!(klen, 3);

    let mut vlen: u64 = 0;
    for i in 9..17 {
        vlen = (vlen << 8) | (buffer[i] as u64);
    }
    assert_eq!(vlen, 3);

    assert_eq!(&buffer[17..20], "foo".as_bytes());
    assert_eq!(&buffer[20..23], "bar".as_bytes());
}

#[test]
fn test_delete_val_to_file() {
    let mut writer = LogWriter::new();
    writer.delete("foo");

    let buffer = writer.bytes();
    assert_eq!(buffer.len(), 12);

    assert_eq!(buffer[0], 1);

    let mut klen: u64 = 0;
    for i in 1..9 {
        klen = (klen << 8) | (buffer[i] as u64);
    }
    assert_eq!(klen, 3);

    assert_eq!(&buffer[9..12], "foo".as_bytes());
}

#[test]
fn test_sequence_write_val_to_file() {
    let sequence = [
        ("229427529247013", "9441423005"),
        ("59731486", "820063222306"),
        ("367312", "951"),
        ("7719318981985", "12075299017853"),
        ("815154270", "094903"),
        ("716584339405127", "1268"),
        ("71327", "8"),
    ];

    let mut writer = LogWriter::new();

    for (key, val) in sequence.iter() {
        writer.put(key, val);
    }

    let buffer = writer.bytes().clone();
    let mut pos: usize = 0;

    for (key, val) in sequence.iter() {
        assert_eq!(buffer[pos], 0);

        let mut klen: u64 = 0;
        for i in pos + 1..pos + 9 {
            klen = (klen << 8) | (buffer[i] as u64);
        }
        assert_eq!(klen as usize, key.len());

        let mut vlen: u64 = 0;
        for i in pos + 9..pos + 17 {
            vlen = (vlen << 8) | (buffer[i] as u64);
        }
        assert_eq!(vlen as usize, val.len());

        assert_eq!(&buffer[pos + 17..pos + 17 + key.len()], key.as_bytes());
        let begin = pos + 17 + key.len();
        assert_eq!(&buffer[begin..begin + val.len()], val.as_bytes());

        pos += 1 + 8 + 8 + key.len() + val.len();
    }
    assert_eq!(pos, buffer.len());
}

#[test]
fn test_sequence_delete_val_to_file() {
    let sequence = [
        "229427529247013",
        "9441423005",
        "59731486",
        "820063222306",
        "367312",
        "951",
        "7719318981985",
        "12075299017853",
        "815154270",
        "094903",
        "716584339405127",
        "1268",
        "71327",
        "8",
    ];

    let mut writer = LogWriter::new();

    for key in sequence.iter() {
        writer.delete(key);
    }

    let buffer = writer.bytes().clone();
    let mut pos: usize = 0;

    for key in sequence.iter() {
        assert_eq!(buffer[pos], 1);

        let mut klen: u64 = 0;
        for i in pos + 1..pos + 9 {
            klen = (klen << 8) | (buffer[i] as u64);
        }
        assert_eq!(klen as usize, key.len());

        assert_eq!(&buffer[pos + 9..pos + 9 + key.len()], key.as_bytes());
        pos += 1 + 8 + key.len();
    }
    assert_eq!(pos, buffer.len());
}

#[test]
fn test_iter_read_file() {
    let sequence = [
        ("229427529247013", "9441423005"),
        ("59731486", "820063222306"),
        ("367312", "951"),
        ("7719318981985", "12075299017853"),
        ("815154270", "094903"),
        ("716584339405127", "1268"),
        ("71327", "8"),
    ];

    let mut writer = LogWriter::new();

    let mut rng = rand::thread_rng();
    let mut op_vec: Vec<bool> = Vec::new();

    for (key, val) in sequence.iter() {
        let op_type: bool = rng.gen();

        if !op_type {
            writer.put(key, val);
            op_vec.push(false);
        } else {
            writer.delete(key);
            op_vec.push(true);
        }
    }

    let mut reader = LogReader::new(writer.bytes().clone());

    for (i, is_delete) in op_vec.iter().enumerate() {
        let rec = reader.next_record().unwrap().unwrap();
        if !is_delete {
            match rec {
                Record::TypeValue(_, key_len, val_len, key, value) => {
                    assert_eq!(key_len, sequence[i].0.len());
                    assert_eq!(val_len, sequence[i].1.len());
                    assert_eq!(key, sequence[i].0);
                    assert_eq!(value, sequence[i].1);
                }
                Record::TypeDelete(_, _, _) => panic!("expected a put record"),
            }
        } else {
            match rec {
                Record::TypeDelete(_, key_len, key) => {
                    assert_eq!(key_len, sequence[i].0.len());
                    assert_eq!(key, sequence[i].0);
                }
                Record::TypeValue(_, _, _, _, _) => panic!("expected a delete record"),
            }
        }
    }
    assert!(matches!(reader.next_record(), Ok(None)));
}

#[test]
fn test_reader_bad_opcode() {
    let bytes: Vec<u8> = vec![7];
    let mut reader = LogReader::new(bytes);
    let err = reader.next_record().unwrap_err();
    assert_eq!(err.kind, CorruptKind::BadOpcode);
    assert_eq!(err.offset, 0);
    assert!(matches!(reader.next_record(), Ok(None)));
}

#[test]
fn test_reader_short_record() {
    let mut writer = LogWriter::new();
    writer.put("foo", "bar");
    let mut bytes = writer.bytes().clone();
    bytes.truncate(20);
    let mut reader = LogReader::new(bytes);
    let err = reader.next_record().unwrap_err();
    assert_eq!(err.kind, CorruptKind::ShortRecord);
    assert_eq!(err.offset, 0);
}

#[test]
fn test_reader_invalid_utf8() {
    // a delete record whose single key byte is not valid UTF-8
    let bytes: Vec<u8> = vec![1, 0, 0, 0, 0, 0, 0, 0, 1, 0xFF];
    let mut reader = LogReader::new(bytes);
    let err = reader.next_record().unwrap_err();
    assert_eq!(err.kind, CorruptKind::InvalidUtf8);
    assert_eq!(err.offset, 0);
}

#[test]
fn test_reader_reports_second_record_offset() {
    let mut writer = LogWriter::new();
    writer.delete("foo");
    let mut bytes = writer.bytes().clone();
    bytes.push(9);
    let mut reader = LogReader::new(bytes);
    assert!(matches!(reader.next_record(), Ok(Some(_))));
    let err = reader.next_record().unwrap_err();
    assert_eq!(err.kind, CorruptKind::BadOpcode);
    assert_eq!(err.offset, 12);
}
