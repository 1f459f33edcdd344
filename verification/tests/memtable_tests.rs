use memtable::memtable::Memtable;

// A put/delete/get sequence behaves exactly like a reference map.
#[test]
fn test_memtable_reference_map_semantics() {
    let mut m = Memtable::new();
    assert_eq!(m.get("alpha"), None);

    m.put("alpha", "1");
    m.put("beta", "2");
    assert_eq!(m.get("alpha").unwrap(), "1");
    assert_eq!(m.get("beta").unwrap(), "2");
    assert_eq!(m.get("gamma"), None);

    m.put("alpha", "3");
    assert_eq!(m.get("alpha").unwrap(), "3");

    m.delete("beta");
    assert_eq!(m.get("beta"), None);
    assert_eq!(m.get("alpha").unwrap(), "3");

    m.delete("gamma");
    assert_eq!(m.get("gamma"), None);
}

// The facade appends one record per mutation, put and delete alike.
#[test]
fn test_memtable_logs_every_mutation() {
    let mut m = Memtable::new();
    m.put("foo", "bar");
    assert_eq!(m.log_stream().len(), 23);
    m.delete("foo");
    assert_eq!(m.log_stream().len(), 23 + 12);
    assert_eq!(m.log_stream()[0], 0);
    assert_eq!(m.log_stream()[23], 1);
    assert_eq!(m.get("foo"), None);
}

// Replaying the facade's log through the reader yields the operations in
// order with the same keys and values.
#[test]
fn test_memtable_log_replays() {
    let mut m = Memtable::new();
    m.put("k1", "v1");
    m.delete("k1");
    m.put("k2", "v2");

    let mut reader = memtable::log::LogReader::new(m.log_stream().clone());
    match reader.next_record().unwrap().unwrap() {
        memtable::log::Record::TypeValue(_, _, _, k, v) => {
            assert_eq!(k, "k1");
            assert_eq!(v, "v1");
        }
        _ => panic!("expected a put record"),
    }
    match reader.next_record().unwrap().unwrap() {
        memtable::log::Record::TypeDelete(_, _, k) => {
            assert_eq!(k, "k1");
        }
        _ => panic!("expected a delete record"),
    }
    match reader.next_record().unwrap().unwrap() {
        memtable::log::Record::TypeValue(_, _, _, k, v) => {
            assert_eq!(k, "k2");
            assert_eq!(v, "v2");
        }
        _ => panic!("expected a put record"),
    }
    assert!(matches!(reader.next_record(), Ok(None)));
}

// The runtime headroom checks agree with a fresh state and gate calls.
#[test]
fn test_has_room_and_headroom() {
    let m = memtable::memtable::Memtable::new();
    assert!(m.has_room());
    let l: memtable::skiplist::SkipList<u8> = memtable::skiplist::SkipList::new();
    assert!(l.has_headroom());
    let t = memtable::rbtree::RBTree::new();
    assert!(t.can_insert());
}
