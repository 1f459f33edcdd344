//! Write-ahead log record format.
//!
//! A log is a headerless concatenation of self-delimiting records:
//! - put:    `0x00 | key_len: u64 BE | val_len: u64 BE | key bytes | val bytes`
//! - delete: `0x01 | key_len: u64 BE | key bytes`
//!
//! Key and value bytes are UTF-8. `LogWriter` appends records to an in-memory
//! byte buffer; `LogReader` replays a byte buffer as typed records, stopping
//! with an error on the first corrupt record.

use vstd::prelude::*;
use vstd::string::{StrSliceExecFns, StringSliceAdditionalSpecFns};
use vstd::utf8::{valid_utf8, decode_utf8, encode_utf8};

verus! {

/// Operation tag of a log record. A put record starts with byte `0x00`,
/// a delete record with byte `0x01`.
#[derive(Clone, Copy, Debug)]
pub enum OpCode {
    Write,
    Delete,
}

/// A decoded log record, carrying the byte lengths that were read from the
/// record header together with the decoded key (and value, for a put).
#[derive(Debug)]
pub enum Record {
    TypeValue(OpCode, usize, usize, String, String),
    TypeDelete(OpCode, usize, String),
}

/// The mathematical content of one log record: a put of a key and value, or
/// a delete of a key, each as character sequences.
pub enum LogOp {
    Put(Seq<char>, Seq<char>),
    Del(Seq<char>),
}

impl View for Record {
    type V = LogOp;

    open spec fn view(&self) -> LogOp {
        match self {
            Record::TypeValue(_, _, _, k, v) => LogOp::Put(k@, v@),
            Record::TypeDelete(_, _, k) => LogOp::Del(k@),
        }
    }
}

/// Why a log byte stream was rejected during replay.
#[derive(Clone, Copy, Debug, PartialEq, Eq, Structural)]
pub enum CorruptKind {
    /// The record's first byte is neither `0x00` nor `0x01`.
    BadOpcode,
    /// The stream ends before the record's declared length.
    ShortRecord,
    /// Key or value bytes are not valid UTF-8.
    InvalidUtf8,
}

/// A corrupt record, reported with the byte offset at which it starts.
#[derive(Clone, Copy, Debug, PartialEq, Eq, Structural)]
pub struct LogError {
    pub kind: CorruptKind,
    pub offset: usize,
}

/// Big-endian bytes of a 64-bit integer, most significant byte first.
pub open spec fn spec_u64_to_be_bytes(x: u64) -> Seq<u8> {
    seq![
        (x >> 56) as u8,
        (x >> 48) as u8,
        (x >> 40) as u8,
        (x >> 32) as u8,
        (x >> 24) as u8,
        (x >> 16) as u8,
        (x >> 8) as u8,
        x as u8,
    ]
}

/// The 64-bit integer denoted by 8 big-endian bytes.
pub open spec fn spec_u64_from_be_bytes(s: Seq<u8>) -> u64
    recommends
        s.len() == 8,
{
    ((s[0] as u64) << 56) | ((s[1] as u64) << 48) | ((s[2] as u64) << 40) | ((s[3] as u64) << 32)
        | ((s[4] as u64) << 24) | ((s[5] as u64) << 16) | ((s[6] as u64) << 8) | (s[7] as u64)
}

/// Big-endian encoding and decoding of a 64-bit integer invert each other.
pub proof fn lemma_u64_be_bytes_roundtrip(x: u64)
    ensures
        spec_u64_to_be_bytes(x).len() == 8,
        spec_u64_from_be_bytes(spec_u64_to_be_bytes(x)) == x,
{
    assert((((x >> 56) as u8) as u64) << 56 | (((x >> 48) as u8) as u64) << 48 | (((x >> 40)
        as u8) as u64) << 40 | (((x >> 32) as u8) as u64) << 32 | (((x >> 24) as u8) as u64) << 24
        | (((x >> 16) as u8) as u64) << 16 | (((x >> 8) as u8) as u64) << 8 | ((x as u8) as u64)
        == x) by (bit_vector);
}

fn u64_to_be_bytes(x: u64) -> (s: Vec<u8>)
    ensures
        s@ == spec_u64_to_be_bytes(x),
        s@.len() == 8,
{
    let mut s: Vec<u8> = Vec::new();
    s.push((x >> 56) as u8);
    s.push((x >> 48) as u8);
    s.push((x >> 40) as u8);
    s.push((x >> 32) as u8);
    s.push((x >> 24) as u8);
    s.push((x >> 16) as u8);
    s.push((x >> 8) as u8);
    s.push(x as u8);
    proof {
        assert(s@ =~= spec_u64_to_be_bytes(x));
    }
    s
}

fn u64_from_be_bytes(b: &Vec<u8>, pos: usize) -> (x: u64)
    requires
        pos + 8 <= b@.len(),
    ensures
        x == spec_u64_from_be_bytes(b@.subrange(pos as int, pos + 8)),
{
    let n: usize = b.len();
    let x: u64 = ((b[pos] as u64) << 56) | ((b[pos + 1] as u64) << 48) | ((b[pos + 2] as u64)
        << 40) | ((b[pos + 3] as u64) << 32) | ((b[pos + 4] as u64) << 24) | ((b[pos + 5] as u64)
        << 16) | ((b[pos + 6] as u64) << 8) | (b[pos + 7] as u64);
    proof {
        let s = b@.subrange(pos as int, pos + 8);
        assert(s[0] == b@[pos as int]);
        assert(s[1] == b@[pos + 1]);
        assert(s[2] == b@[pos + 2]);
        assert(s[3] == b@[pos + 3]);
        assert(s[4] == b@[pos + 4]);
        assert(s[5] == b@[pos + 5]);
        assert(s[6] == b@[pos + 6]);
        assert(s[7] == b@[pos + 7]);
    }
    x
}

/// UTF-8 encoding takes at most four bytes per character, so a caller can
/// bound a record's length from the character counts alone.
pub proof fn lemma_encode_len_bound(s: Seq<char>)
    ensures
        encode_utf8(s).len() <= 4 * s.len(),
    decreases s.len(),
{
    if s.len() > 0 {
        lemma_encode_len_bound(s.drop_first());
        assert(vstd::utf8::encode_scalar(s[0] as u32).len() <= 4);
    }
}

/// Bytes of a put record for the given key and value characters.
pub open spec fn spec_put_record(k: Seq<char>, v: Seq<char>) -> Seq<u8> {
    seq![0u8] + spec_u64_to_be_bytes(encode_utf8(k).len() as u64) + spec_u64_to_be_bytes(
        encode_utf8(v).len() as u64,
    ) + encode_utf8(k) + encode_utf8(v)
}

/// Bytes of a delete record for the given key characters.
pub open spec fn spec_delete_record(k: Seq<char>) -> Seq<u8> {
    seq![1u8] + spec_u64_to_be_bytes(encode_utf8(k).len() as u64) + encode_utf8(k)
}

/// Encodes a put record: opcode `0x00`, the two big-endian lengths, then the
/// key and value bytes. The result is `1 + 8 + 8 + key_len + val_len` bytes.
pub fn encode_put_record(key: &str, val: &str) -> (r: Vec<u8>)
    requires
        17 + key.spec_bytes().len() + val.spec_bytes().len() <= usize::MAX,
    ensures
        r@ == spec_put_record(key@, val@),
        r@.len() == 17 + key.spec_bytes().len() + val.spec_bytes().len(),
{
    let key_bytes: Vec<u8> = key.as_bytes_vec();
    let val_bytes: Vec<u8> = val.as_bytes_vec();
    let mut r: Vec<u8> = Vec::new();
    r.push(0u8);
    let klen: Vec<u8> = u64_to_be_bytes(key_bytes.len() as u64);
    let vlen: Vec<u8> = u64_to_be_bytes(val_bytes.len() as u64);
    append_bytes(&mut r, &klen);
    append_bytes(&mut r, &vlen);
    append_bytes(&mut r, &key_bytes);
    append_bytes(&mut r, &val_bytes);
    proof {
        assert(r@ =~= spec_put_record(key@, val@));
    }
    r
}

/// Encodes a delete record: opcode `0x01`, the big-endian key length, then
/// the key bytes. The result is `1 + 8 + key_len` bytes.
pub fn encode_delete_record(key: &str) -> (r: Vec<u8>)
    requires
        9 + key.spec_bytes().len() <= usize::MAX,
    ensures
        r@ == spec_delete_record(key@),
        r@.len() == 9 + key.spec_bytes().len(),
{
    let key_bytes: Vec<u8> = key.as_bytes_vec();
    let mut r: Vec<u8> = Vec::new();
    r.push(1u8);
    let klen: Vec<u8> = u64_to_be_bytes(key_bytes.len() as u64);
    append_bytes(&mut r, &klen);
    append_bytes(&mut r, &key_bytes);
    proof {
        assert(r@ =~= spec_delete_record(key@));
    }
    r
}

fn append_bytes(dst: &mut Vec<u8>, src: &Vec<u8>)
    requires
        old(dst)@.len() + src@.len() <= usize::MAX,
    ensures
        final(dst)@ == old(dst)@ + src@,
{
    let mut i: usize = 0;
    while i < src.len()
        invariant
            i <= src@.len(),
            old(dst)@.len() + src@.len() <= usize::MAX,
            dst@ == old(dst)@ + src@.subrange(0, i as int),
        decreases src@.len() - i,
    {
        dst.push(src[i]);
        proof {
            assert(dst@ =~= old(dst)@ + src@.subrange(0, i + 1));
        }
        i = i + 1;
    }
    proof {
        assert(dst@ =~= old(dst)@ + src@);
    }
}

/// Single-writer append-only log. The buffer holds the exact byte stream a
/// reader replays; the caller persists it (and would flush per record).
pub struct LogWriter {
    buffer: Vec<u8>,
}

impl LogWriter {
    /// The byte stream written so far.
    pub closed spec fn view(&self) -> Seq<u8> {
        self.buffer@
    }

    /// A fresh, empty log.
    pub fn new() -> (w: LogWriter)
        ensures
            w@ == Seq::<u8>::empty(),
    {
        LogWriter { buffer: Vec::new() }
    }

    /// Appends a put record and returns its length, `1 + 8 + 8 + key_len +
    /// val_len` bytes.
    pub fn put(&mut self, key: &str, val: &str) -> (n: usize)
        requires
            old(self)@.len() + 17 + key.spec_bytes().len() + val.spec_bytes().len() <= usize::MAX,
        ensures
            final(self)@ == old(self)@ + spec_put_record(key@, val@),
            n == 17 + key.spec_bytes().len() + val.spec_bytes().len(),
    {
        let rec: Vec<u8> = encode_put_record(key, val);
        let n: usize = rec.len();
        append_bytes(&mut self.buffer, &rec);
        n
    }

    /// Appends a delete record and returns its length, `1 + 8 + key_len`
    /// bytes.
    pub fn delete(&mut self, key: &str) -> (n: usize)
        requires
            old(self)@.len() + 9 + key.spec_bytes().len() <= usize::MAX,
        ensures
            final(self)@ == old(self)@ + spec_delete_record(key@),
            n == 9 + key.spec_bytes().len(),
    {
        let rec: Vec<u8> = encode_delete_record(key);
        let n: usize = rec.len();
        append_bytes(&mut self.buffer, &rec);
        n
    }

    /// The written bytes, for persisting.
    pub fn bytes(&self) -> (b: &Vec<u8>)
        ensures
            b@ == self@,
    {
        &self.buffer
    }
}

/// Relies on `String::from_utf8`: returns the string viewing exactly the
/// given bytes when they are valid UTF-8, and nothing otherwise.
#[verifier::external_body]
fn bytes_to_string(v: Vec<u8>) -> (r: Option<String>)
    ensures
        r is Some <==> valid_utf8(v@),
        r is Some ==> r.unwrap()@ == decode_utf8(v@),
{
    String::from_utf8(v).ok()
}

fn copy_range(b: &Vec<u8>, from: usize, to: usize) -> (r: Vec<u8>)
    requires
        from <= to <= b@.len(),
    ensures
        r@ == b@.subrange(from as int, to as int),
{
    let mut r: Vec<u8> = Vec::new();
    let mut i: usize = from;
    while i < to
        invariant
            from <= i <= to <= b@.len(),
            r@ == b@.subrange(from as int, i as int),
        decreases to - i,
    {
        r.push(b[i]);
        proof {
            assert(r@ =~= b@.subrange(from as int, i + 1));
        }
        i = i + 1;
    }
    r
}

/// What replay finds at one position of a log byte stream: the end of the
/// stream, one well-formed record together with the position just past it,
/// or a corrupt record.
pub enum ParseStep {
    Complete,
    Parsed(LogOp, int),
    Corrupt(CorruptKind),
}

/// Parses the record starting at `pos`. A record parses iff the stream holds
/// its full declared length and its key (and value) bytes are valid UTF-8.
pub open spec fn spec_parse_at(b: Seq<u8>, pos: int) -> ParseStep
    recommends
        0 <= pos <= b.len(),
{
    if pos == b.len() {
        ParseStep::Complete
    } else if b[pos] == 0u8 {
        if pos + 17 > b.len() {
            ParseStep::Corrupt(CorruptKind::ShortRecord)
        } else {
            let k = spec_u64_from_be_bytes(b.subrange(pos + 1, pos + 9)) as int;
            let v = spec_u64_from_be_bytes(b.subrange(pos + 9, pos + 17)) as int;
            if pos + 17 + k + v > b.len() {
                ParseStep::Corrupt(CorruptKind::ShortRecord)
            } else {
                let kb = b.subrange(pos + 17, pos + 17 + k);
                let vb = b.subrange(pos + 17 + k, pos + 17 + k + v);
                if valid_utf8(kb) && valid_utf8(vb) {
                    ParseStep::Parsed(
                        LogOp::Put(decode_utf8(kb), decode_utf8(vb)),
                        pos + 17 + k + v,
                    )
                } else {
                    ParseStep::Corrupt(CorruptKind::InvalidUtf8)
                }
            }
        }
    } else if b[pos] == 1u8 {
        if pos + 9 > b.len() {
            ParseStep::Corrupt(CorruptKind::ShortRecord)
        } else {
            let k = spec_u64_from_be_bytes(b.subrange(pos + 1, pos + 9)) as int;
            if pos + 9 + k > b.len() {
                ParseStep::Corrupt(CorruptKind::ShortRecord)
            } else {
                let kb = b.subrange(pos + 9, pos + 9 + k);
                if valid_utf8(kb) {
                    ParseStep::Parsed(LogOp::Del(decode_utf8(kb)), pos + 9 + k)
                } else {
                    ParseStep::Corrupt(CorruptKind::InvalidUtf8)
                }
            }
        }
    } else {
        ParseStep::Corrupt(CorruptKind::BadOpcode)
    }
}

/// Bytes of one record.
pub open spec fn spec_encode_op(op: LogOp) -> Seq<u8> {
    match op {
        LogOp::Put(k, v) => spec_put_record(k, v),
        LogOp::Del(k) => spec_delete_record(k),
    }
}

/// Bytes of a whole sequence of records, concatenated in order.
pub open spec fn spec_encode_ops(ops: Seq<LogOp>) -> Seq<u8>
    decreases ops.len(),
{
    if ops.len() == 0 {
        Seq::empty()
    } else {
        spec_encode_op(ops[0]) + spec_encode_ops(ops.drop_first())
    }
}

/// The record's length fields fit in their 64-bit encoding.
pub open spec fn op_fits(op: LogOp) -> bool {
    match op {
        LogOp::Put(k, v) => encode_utf8(k).len() <= u64::MAX && encode_utf8(v).len() <= u64::MAX,
        LogOp::Del(k) => encode_utf8(k).len() <= u64::MAX,
    }
}

/// Replay of a whole byte stream from its start: the sequence of records it
/// holds, or nothing if it ends in a corrupt record.
pub open spec fn spec_replay(b: Seq<u8>) -> Option<Seq<LogOp>>
    decreases b.len(),
{
    match spec_parse_at(b, 0) {
        ParseStep::Complete => Some(Seq::empty()),
        ParseStep::Parsed(op, next) => if 0 < next <= b.len() {
            match spec_replay(b.subrange(next, b.len() as int)) {
                Some(tail) => Some(seq![op] + tail),
                None => None,
            }
        } else {
            None
        },
        ParseStep::Corrupt(_) => None,
    }
}

/// Every record is self-delimiting: a put record is exactly
/// `1 + 8 + 8 + key_len + val_len` bytes and a delete record exactly
/// `1 + 8 + key_len` bytes, where the lengths count UTF-8 bytes.
pub proof fn lemma_record_self_delimiting(op: LogOp)
    ensures
        match op {
            LogOp::Put(k, v) => spec_encode_op(op).len() == 1 + 8 + 8 + encode_utf8(k).len()
                + encode_utf8(v).len(),
            LogOp::Del(k) => spec_encode_op(op).len() == 1 + 8 + encode_utf8(k).len(),
        },
{
}

/// Parsing a stream that starts with one well-formed record finds exactly
/// that record and consumes exactly its bytes, whatever follows it.
pub proof fn lemma_parse_encoded_record(op: LogOp, rest: Seq<u8>)
    requires
        op_fits(op),
    ensures
        spec_parse_at(spec_encode_op(op) + rest, 0) == ParseStep::Parsed(
            op,
            spec_encode_op(op).len() as int,
        ),
{
    let e = spec_encode_op(op);
    let b = e + rest;
    match op {
        LogOp::Put(k, v) => {
            let kb = encode_utf8(k);
            let vb = encode_utf8(v);
            let kl = kb.len() as int;
            let vl = vb.len() as int;
            assert(b[0] == 0u8);
            assert(b.len() == 17 + kl + vl + rest.len());
            assert(b.subrange(1, 9) =~= spec_u64_to_be_bytes(kb.len() as u64));
            assert(b.subrange(9, 17) =~= spec_u64_to_be_bytes(vb.len() as u64));
            lemma_u64_be_bytes_roundtrip(kb.len() as u64);
            lemma_u64_be_bytes_roundtrip(vb.len() as u64);
            assert(b.subrange(17, 17 + kl) =~= kb);
            assert(b.subrange(17 + kl, 17 + kl + vl) =~= vb);
            vstd::utf8::encode_utf8_valid_utf8(k);
            vstd::utf8::encode_utf8_valid_utf8(v);
            vstd::utf8::encode_utf8_decode_utf8(k);
            vstd::utf8::encode_utf8_decode_utf8(v);
        },
        LogOp::Del(k) => {
            let kb = encode_utf8(k);
            let kl = kb.len() as int;
            assert(b[0] == 1u8);
            assert(b.len() == 9 + kl + rest.len());
            assert(b.subrange(1, 9) =~= spec_u64_to_be_bytes(kb.len() as u64));
            lemma_u64_be_bytes_roundtrip(kb.len() as u64);
            assert(b.subrange(9, 9 + kl) =~= kb);
            vstd::utf8::encode_utf8_valid_utf8(k);
            vstd::utf8::encode_utf8_decode_utf8(k);
        },
    }
}

/// Log round trip: replaying the encoding of any finite sequence of put and
/// delete records yields exactly that sequence, with the same opcodes, keys
/// and values.
pub proof fn lemma_log_round_trip(ops: Seq<LogOp>)
    requires
        forall|i: int| 0 <= i < ops.len() ==> op_fits(#[trigger] ops[i]),
    ensures
        spec_replay(spec_encode_ops(ops)) == Some(ops),
    decreases ops.len(),
{
    if ops.len() == 0 {
        assert(spec_encode_ops(ops) =~= Seq::<u8>::empty());
        assert(spec_replay(spec_encode_ops(ops)) == Some(Seq::<LogOp>::empty()));
        assert(ops =~~= Seq::<LogOp>::empty());
    } else {
        let first = ops[0];
        let tail = ops.drop_first();
        let e = spec_encode_op(first);
        let etail = spec_encode_ops(tail);
        let b = spec_encode_ops(ops);
        assert(b == e + etail);
        lemma_parse_encoded_record(first, etail);
        lemma_record_self_delimiting(first);
        assert(spec_parse_at(b, 0) == ParseStep::Parsed(first, e.len() as int));
        assert(0 < e.len() <= b.len());
        assert(b.subrange(e.len() as int, b.len() as int) =~= etail);
        assert(forall|i: int| 0 <= i < tail.len() ==> op_fits(#[trigger] tail[i]));
        lemma_log_round_trip(tail);
        assert(spec_replay(etail) == Some(tail));
        assert(seq![first] + tail =~~= ops);
        assert(spec_replay(b) == Some(seq![first] + tail));
    }
}

/// Forward-only replay of a log byte stream. Each call to `next_record`
/// yields the next typed record; a corrupt record halts the reader for good.
pub struct LogReader {
    bytes: Vec<u8>,
    pos: usize,
}

impl LogReader {
    /// The byte stream being replayed.
    pub closed spec fn stream(&self) -> Seq<u8> {
        self.bytes@
    }

    /// The position of the next record.
    pub closed spec fn position(&self) -> int {
        self.pos as int
    }

    /// The reader's position never runs past the stream.
    pub open spec fn wf(&self) -> bool {
        0 <= self.position() <= self.stream().len()
    }

    /// A reader starting at the beginning of the given byte stream.
    pub fn new(bytes: Vec<u8>) -> (r: LogReader)
        ensures
            r.wf(),
            r.stream() == bytes@,
            r.position() == 0,
    {
        LogReader { bytes, pos: 0 }
    }

    /// Yields the record at the current position, or `Ok(None)` at the end
    /// of the stream. On a corrupt record it reports the offset at which the
    /// record starts and moves to the end of the stream, so that no further
    /// records are yielded.
    pub fn next_record(&mut self) -> (r: Result<Option<Record>, LogError>)
        requires
            old(self).wf(),
        ensures
            final(self).wf(),
            final(self).stream() == old(self).stream(),
            match spec_parse_at(old(self).stream(), old(self).position()) {
                ParseStep::Complete => r == Ok::<Option<Record>, LogError>(None::<Record>)
                    && final(self).position() == old(self).position(),
                ParseStep::Parsed(op, next) => r matches Ok(Some(rec)) && rec@ == op
                    && final(self).position() == next && (op matches LogOp::Put(k, v) ==> (
                rec matches Record::TypeValue(OpCode::Write, kl, vl, _, _) && kl == encode_utf8(
                    k,
                ).len() && vl == encode_utf8(v).len())) && (op matches LogOp::Del(k) ==> (
                rec matches Record::TypeDelete(OpCode::Delete, kl, _) && kl == encode_utf8(
                    k,
                ).len())),
                ParseStep::Corrupt(kind) => r matches Err(e) && e.kind == kind && e.offset
                    == old(self).position() && final(self).position()
                    == old(self).stream().len(),
            },
    {
        let n: usize = self.bytes.len();
        let start: usize = self.pos;
        if start == n {
            return Ok(None);
        }
        let opcode: u8 = self.bytes[start];
        if opcode == 0u8 {
            if n - start < 17 {
                self.pos = n;
                return Err(LogError { kind: CorruptKind::ShortRecord, offset: start });
            }
            let k: u64 = u64_from_be_bytes(&self.bytes, start + 1);
            let v: u64 = u64_from_be_bytes(&self.bytes, start + 9);
            let rest: u64 = (n - start - 17) as u64;
            if k > rest || v > rest - k {
                self.pos = n;
                return Err(LogError { kind: CorruptKind::ShortRecord, offset: start });
            }
            let klen: usize = k as usize;
            let vlen: usize = v as usize;
            let kb: Vec<u8> = copy_range(&self.bytes, start + 17, start + 17 + klen);
            let vb: Vec<u8> = copy_range(&self.bytes, start + 17 + klen, start + 17 + klen + vlen);
            let key: Option<String> = bytes_to_string(kb);
            match key {
                None => {
                    self.pos = n;
                    Err(LogError { kind: CorruptKind::InvalidUtf8, offset: start })
                },
                Some(key) => {
                    let val: Option<String> = bytes_to_string(vb);
                    match val {
                        None => {
                            self.pos = n;
                            Err(LogError { kind: CorruptKind::InvalidUtf8, offset: start })
                        },
                        Some(val) => {
                            self.pos = start + 17 + klen + vlen;
                            proof {
                                let kb = self.bytes@.subrange(start + 17, start + 17 + klen);
                                let vb = self.bytes@.subrange(
                                    start + 17 + klen,
                                    start + 17 + klen + vlen,
                                );
                                vstd::utf8::decode_utf8_encode_utf8(kb);
                                vstd::utf8::decode_utf8_encode_utf8(vb);
                                assert(encode_utf8(key@).len() == klen);
                                assert(encode_utf8(val@).len() == vlen);
                            }
                            Ok(Some(Record::TypeValue(OpCode::Write, klen, vlen, key, val)))
                        },
                    }
                },
            }
        } else if opcode == 1u8 {
            if n - start < 9 {
                self.pos = n;
                return Err(LogError { kind: CorruptKind::ShortRecord, offset: start });
            }
            let k: u64 = u64_from_be_bytes(&self.bytes, start + 1);
            let rest: u64 = (n - start - 9) as u64;
            if k > rest {
                self.pos = n;
                return Err(LogError { kind: CorruptKind::ShortRecord, offset: start });
            }
            let klen: usize = k as usize;
            let kb: Vec<u8> = copy_range(&self.bytes, start + 9, start + 9 + klen);
            let key: Option<String> = bytes_to_string(kb);
            match key {
                None => {
                    self.pos = n;
                    Err(LogError { kind: CorruptKind::InvalidUtf8, offset: start })
                },
                Some(key) => {
                    self.pos = start + 9 + klen;
                    proof {
                        let kb = self.bytes@.subrange(start + 9, start + 9 + klen);
                        vstd::utf8::decode_utf8_encode_utf8(kb);
                        assert(encode_utf8(key@).len() == klen);
                    }
                    Ok(Some(Record::TypeDelete(OpCode::Delete, klen, key)))
                },
            }
        } else {
            self.pos = n;
            Err(LogError { kind: CorruptKind::BadOpcode, offset: start })
        }
    }
}

} // verus!
