use vstd::prelude::*;

verus! {

use crate::StoreResult;
use crate::StoreError;

/// Error raised when a byte payload violates the record or index format.
#[derive(Debug, Clone)]
pub struct LogError(pub String);

/// A value that can be serialized into a byte string.
pub trait ToBytes {
    /// The byte image of the value.
    spec fn bytes_spec(&self) -> Seq<u8>;

    fn to_bytes(&self) -> (r: Vec<u8>)
        ensures
            r@ == self.bytes_spec(),
    ;
}

/// A value that can be reconstructed from a byte string.
pub trait FromBytes: View + Sized {
    /// What decoding yields: `None` when the bytes are rejected.
    spec fn decoded(b: Seq<u8>) -> Option<Self::V>;

    fn from_bytes(bytes: &[u8]) -> (r: StoreResult<Self>)
        ensures
            r is Ok <==> Self::decoded(bytes@) is Some,
            r matches Ok(v) ==> Self::decoded(bytes@) == Some(v@),
    ;
}

/// Big-endian image of a 32-bit value, most significant byte first.
pub open spec fn u32_be_bytes(v: u32) -> Seq<u8> {
    seq![(v >> 24) as u8, (v >> 16) as u8, (v >> 8) as u8, v as u8]
}

/// The 32-bit value that four big-endian bytes denote.
pub open spec fn u32_from_be(s: Seq<u8>) -> u32
    recommends
        s.len() == 4,
{
    ((s[0] as u32) << 24) | ((s[1] as u32) << 16) | ((s[2] as u32) << 8) | (s[3] as u32)
}

/// Big-endian image of a 128-bit value, most significant byte first.
pub open spec fn u128_be_bytes(v: u128) -> Seq<u8> {
    seq![
        (v >> 120) as u8, (v >> 112) as u8, (v >> 104) as u8, (v >> 96) as u8,
        (v >> 88) as u8, (v >> 80) as u8, (v >> 72) as u8, (v >> 64) as u8,
        (v >> 56) as u8, (v >> 48) as u8, (v >> 40) as u8, (v >> 32) as u8,
        (v >> 24) as u8, (v >> 16) as u8, (v >> 8) as u8, v as u8,
    ]
}

/// The 128-bit value that sixteen big-endian bytes denote.
pub open spec fn u128_from_be(s: Seq<u8>) -> u128
    recommends
        s.len() == 16,
{
    ((s[0] as u128) << 120) | ((s[1] as u128) << 112) | ((s[2] as u128) << 104)
        | ((s[3] as u128) << 96) | ((s[4] as u128) << 88) | ((s[5] as u128) << 80)
        | ((s[6] as u128) << 72) | ((s[7] as u128) << 64) | ((s[8] as u128) << 56)
        | ((s[9] as u128) << 48) | ((s[10] as u128) << 40) | ((s[11] as u128) << 32)
        | ((s[12] as u128) << 24) | ((s[13] as u128) << 16) | ((s[14] as u128) << 8)
        | (s[15] as u128)
}

/// Reading back the four big-endian bytes of a 32-bit value restores it.
pub proof fn lemma_u32_be_round(v: u32)
    ensures
        u32_from_be(u32_be_bytes(v)) == v,
{
    assert((((((v >> 24) as u8) as u32) << 24) | ((((v >> 16) as u8) as u32) << 16)
        | ((((v >> 8) as u8) as u32) << 8) | ((v as u8) as u32)) == v) by (bit_vector);
}

/// Re-encoding the 32-bit value that four bytes denote restores the bytes.
pub proof fn lemma_u32_be_bytes_round(b0: u8, b1: u8, b2: u8, b3: u8)
    ensures
        u32_be_bytes(u32_from_be(seq![b0, b1, b2, b3])) == seq![b0, b1, b2, b3],
{
    let v = u32_from_be(seq![b0, b1, b2, b3]);
    assert(v == ((b0 as u32) << 24) | ((b1 as u32) << 16) | ((b2 as u32) << 8) | (b3 as u32));
    assert(((((b0 as u32) << 24) | ((b1 as u32) << 16) | ((b2 as u32) << 8) | (b3 as u32)) >> 24)
        as u8 == b0 && ((((b0 as u32) << 24) | ((b1 as u32) << 16) | ((b2 as u32) << 8)
        | (b3 as u32)) >> 16) as u8 == b1 && ((((b0 as u32) << 24) | ((b1 as u32) << 16)
        | ((b2 as u32) << 8) | (b3 as u32)) >> 8) as u8 == b2 && (((b0 as u32) << 24)
        | ((b1 as u32) << 16) | ((b2 as u32) << 8) | (b3 as u32)) as u8 == b3) by (bit_vector);
    assert(u32_be_bytes(v) =~= seq![b0, b1, b2, b3]);
}

/// Reading back the sixteen big-endian bytes of a 128-bit value restores it.
pub proof fn lemma_u128_be_round(v: u128)
    ensures
        u128_from_be(u128_be_bytes(v)) == v,
{
    assert((((((v >> 120) as u8) as u128) << 120) | ((((v >> 112) as u8) as u128) << 112)
        | ((((v >> 104) as u8) as u128) << 104) | ((((v >> 96) as u8) as u128) << 96)
        | ((((v >> 88) as u8) as u128) << 88) | ((((v >> 80) as u8) as u128) << 80)
        | ((((v >> 72) as u8) as u128) << 72) | ((((v >> 64) as u8) as u128) << 64)
        | ((((v >> 56) as u8) as u128) << 56) | ((((v >> 48) as u8) as u128) << 48)
        | ((((v >> 40) as u8) as u128) << 40) | ((((v >> 32) as u8) as u128) << 32)
        | ((((v >> 24) as u8) as u128) << 24) | ((((v >> 16) as u8) as u128) << 16)
        | ((((v >> 8) as u8) as u128) << 8) | ((v as u8) as u128)) == v) by (bit_vector);
}

/// Appends the big-endian bytes of a 32-bit value.
fn push_u32_be(dst: &mut Vec<u8>, v: u32)
    ensures
        final(dst)@ == old(dst)@ + u32_be_bytes(v),
{
    dst.push(((v >> 24) & 0xff) as u8);
    dst.push(((v >> 16) & 0xff) as u8);
    dst.push(((v >> 8) & 0xff) as u8);
    dst.push((v & 0xff) as u8);
    proof {
        assert(((v >> 24) & 0xff) as u8 == (v >> 24) as u8 && ((v >> 16) & 0xff) as u8 == (v
            >> 16) as u8 && ((v >> 8) & 0xff) as u8 == (v >> 8) as u8 && (v & 0xff) as u8
            == v as u8) by (bit_vector);
        assert(final(dst)@ =~= old(dst)@ + u32_be_bytes(v));
    }
}

/// Appends the big-endian bytes of a 128-bit value.
fn push_u128_be(dst: &mut Vec<u8>, v: u128)
    ensures
        final(dst)@ == old(dst)@ + u128_be_bytes(v),
{
    proof {
        assert(((v >> 120) & 0xff) as u8 == (v >> 120) as u8 && ((v >> 112) & 0xff) as u8 == (v
            >> 112) as u8 && ((v >> 104) & 0xff) as u8 == (v >> 104) as u8 && ((v >> 96)
            & 0xff) as u8 == (v >> 96) as u8 && ((v >> 88) & 0xff) as u8 == (v >> 88) as u8
            && ((v >> 80) & 0xff) as u8 == (v >> 80) as u8 && ((v >> 72) & 0xff) as u8 == (v
            >> 72) as u8 && ((v >> 64) & 0xff) as u8 == (v >> 64) as u8 && ((v >> 56)
            & 0xff) as u8 == (v >> 56) as u8 && ((v >> 48) & 0xff) as u8 == (v >> 48) as u8
            && ((v >> 40) & 0xff) as u8 == (v >> 40) as u8 && ((v >> 32) & 0xff) as u8 == (v
            >> 32) as u8 && ((v >> 24) & 0xff) as u8 == (v >> 24) as u8 && ((v >> 16)
            & 0xff) as u8 == (v >> 16) as u8 && ((v >> 8) & 0xff) as u8 == (v >> 8) as u8 && (v
            & 0xff) as u8 == v as u8) by (bit_vector);
    }
    dst.push(((v >> 120) & 0xff) as u8);
    dst.push(((v >> 112) & 0xff) as u8);
    dst.push(((v >> 104) & 0xff) as u8);
    dst.push(((v >> 96) & 0xff) as u8);
    dst.push(((v >> 88) & 0xff) as u8);
    dst.push(((v >> 80) & 0xff) as u8);
    dst.push(((v >> 72) & 0xff) as u8);
    dst.push(((v >> 64) & 0xff) as u8);
    dst.push(((v >> 56) & 0xff) as u8);
    dst.push(((v >> 48) & 0xff) as u8);
    dst.push(((v >> 40) & 0xff) as u8);
    dst.push(((v >> 32) & 0xff) as u8);
    dst.push(((v >> 24) & 0xff) as u8);
    dst.push(((v >> 16) & 0xff) as u8);
    dst.push(((v >> 8) & 0xff) as u8);
    dst.push((v & 0xff) as u8);
    proof {
        assert(final(dst)@ =~= old(dst)@ + u128_be_bytes(v));
    }
}

/// Reads a big-endian 32-bit value at the given offset.
fn read_u32_be(bytes: &[u8], at: usize) -> (r: u32)
    requires
        at + 4 <= bytes@.len(),
    ensures
        r == u32_from_be(bytes@.subrange(at as int, at as int + 4)),
{
    let blen = bytes.len();
    let r = ((bytes[at] as u32) << 24) | ((bytes[at + 1] as u32) << 16)
        | ((bytes[at + 2] as u32) << 8) | (bytes[at + 3] as u32);
    proof {
        let s = bytes@.subrange(at as int, at as int + 4);
        assert(s[0] == bytes@[at as int] && s[1] == bytes@[at as int + 1] && s[2] == bytes@[at
            as int + 2] && s[3] == bytes@[at as int + 3]);
    }
    r
}

/// Reads a big-endian 128-bit value at the given offset.
fn read_u128_be(bytes: &[u8], at: usize) -> (r: u128)
    requires
        at + 16 <= bytes@.len(),
    ensures
        r == u128_from_be(bytes@.subrange(at as int, at as int + 16)),
{
    let blen = bytes.len();
    let r = ((bytes[at] as u128) << 120) | ((bytes[at + 1] as u128) << 112)
        | ((bytes[at + 2] as u128) << 104) | ((bytes[at + 3] as u128) << 96)
        | ((bytes[at + 4] as u128) << 88) | ((bytes[at + 5] as u128) << 80)
        | ((bytes[at + 6] as u128) << 72) | ((bytes[at + 7] as u128) << 64)
        | ((bytes[at + 8] as u128) << 56) | ((bytes[at + 9] as u128) << 48)
        | ((bytes[at + 10] as u128) << 40) | ((bytes[at + 11] as u128) << 32)
        | ((bytes[at + 12] as u128) << 24) | ((bytes[at + 13] as u128) << 16)
        | ((bytes[at + 14] as u128) << 8) | (bytes[at + 15] as u128);
    proof {
        let s = bytes@.subrange(at as int, at as int + 16);
        assert(forall|i: int| 0 <= i < 16 ==> s[i] == bytes@[at + i]);
    }
    r
}

/// Copies `n` bytes starting at `start` into a fresh vector.
fn copy_range(bytes: &[u8], start: usize, n: usize) -> (r: Vec<u8>)
    requires
        start + n <= bytes@.len(),
    ensures
        r@ == bytes@.subrange(start as int, start as int + n as int),
{
    let blen = bytes.len();
    let mut r: Vec<u8> = Vec::new();
    let mut i: usize = 0;
    while i < n
        invariant
            i <= n,
            blen == bytes@.len(),
            start + n <= bytes@.len(),
            r@ == bytes@.subrange(start as int, start as int + i as int),
        decreases n - i,
    {
        r.push(bytes[start + i]);
        i = i + 1;
        proof {
            assert(r@ =~= bytes@.subrange(start as int, start as int + i as int));
        }
    }
    r
}

/// Big-endian image of a 64-bit value, most significant byte first.
pub open spec fn u64_be_bytes(v: u64) -> Seq<u8> {
    seq![
        (v >> 56) as u8, (v >> 48) as u8, (v >> 40) as u8, (v >> 32) as u8,
        (v >> 24) as u8, (v >> 16) as u8, (v >> 8) as u8, v as u8,
    ]
}

/// Appends the big-endian bytes of a 64-bit value.
fn push_u64_be(dst: &mut Vec<u8>, v: u64)
    ensures
        final(dst)@ == old(dst)@ + u64_be_bytes(v),
{
    proof {
        assert(((v >> 56) & 0xff) as u8 == (v >> 56) as u8 && ((v >> 48) & 0xff) as u8 == (v
            >> 48) as u8 && ((v >> 40) & 0xff) as u8 == (v >> 40) as u8 && ((v >> 32)
            & 0xff) as u8 == (v >> 32) as u8 && ((v >> 24) & 0xff) as u8 == (v >> 24) as u8 && ((
        v >> 16) & 0xff) as u8 == (v >> 16) as u8 && ((v >> 8) & 0xff) as u8 == (v >> 8) as u8
            && (v & 0xff) as u8 == v as u8) by (bit_vector);
    }
    dst.push(((v >> 56) & 0xff) as u8);
    dst.push(((v >> 48) & 0xff) as u8);
    dst.push(((v >> 40) & 0xff) as u8);
    dst.push(((v >> 32) & 0xff) as u8);
    dst.push(((v >> 24) & 0xff) as u8);
    dst.push(((v >> 16) & 0xff) as u8);
    dst.push(((v >> 8) & 0xff) as u8);
    dst.push((v & 0xff) as u8);
    proof {
        assert(final(dst)@ =~= old(dst)@ + u64_be_bytes(v));
    }
}

impl ToBytes for i64 {
    open spec fn bytes_spec(&self) -> Seq<u8> {
        u64_be_bytes(*self as u64)
    }

    fn to_bytes(&self) -> (r: Vec<u8>) {
        let mut bytes: Vec<u8> = Vec::new();
        push_u64_be(&mut bytes, #[verifier::truncate] (*self as u64));
        bytes
    }
}

impl ToBytes for i32 {
    open spec fn bytes_spec(&self) -> Seq<u8> {
        u32_be_bytes(*self as u32)
    }

    fn to_bytes(&self) -> (r: Vec<u8>) {
        let mut bytes: Vec<u8> = Vec::new();
        push_u32_be(&mut bytes, #[verifier::truncate] (*self as u32));
        bytes
    }
}

impl ToBytes for u64 {
    open spec fn bytes_spec(&self) -> Seq<u8> {
        u64_be_bytes(*self)
    }

    fn to_bytes(&self) -> (r: Vec<u8>) {
        let mut bytes: Vec<u8> = Vec::new();
        push_u64_be(&mut bytes, *self);
        bytes
    }
}

/// The kind of mutation a log record captures.
#[derive(Debug, PartialEq, Eq, Structural, Clone, Copy)]
pub enum RecordType {
    Insert,
    Delete,
    Lock,
}

/// The one-byte tag that encodes an operation.
pub open spec fn op_code(t: RecordType) -> u8 {
    match t {
        RecordType::Insert => 1,
        RecordType::Delete => 2,
        RecordType::Lock => 3,
    }
}

/// A single logged mutation: a tagged operation with a timestamp and
/// length-prefixed key and value.
#[derive(Debug)]
pub struct Record {
    pub timestamp: u128,
    pub operation: RecordType,
    pub key_len: u32,
    pub val_len: u32,
    pub key: Vec<u8>,
    pub val: Vec<u8>,
}

/// The mathematical content of a record: the length fields are part of the
/// byte format, not of the model.
pub struct RecordV {
    pub timestamp: u128,
    pub operation: RecordType,
    pub key: Seq<u8>,
    pub val: Seq<u8>,
}

impl View for Record {
    type V = RecordV;

    open spec fn view(&self) -> RecordV {
        RecordV {
            timestamp: self.timestamp,
            operation: self.operation,
            key: self.key@,
            val: self.val@,
        }
    }
}

impl Record {
    /// The length fields agree with the byte strings and the whole record
    /// fits the 32-bit size arithmetic of the format.
    pub open spec fn wf(&self) -> bool {
        &&& self.key_len == self.key@.len()
        &&& self.val_len == self.val@.len()
        &&& self.key@.len() + self.val@.len() + 25 <= u32::MAX
    }
}

/// The byte image of a record: tag, timestamp, key length, value length,
/// key bytes, value bytes.
pub open spec fn record_bytes(r: RecordV) -> Seq<u8> {
    seq![op_code(r.operation)] + u128_be_bytes(r.timestamp) + u32_be_bytes(r.key.len() as u32)
        + u32_be_bytes(r.val.len() as u32) + r.key + r.val
}

/// Whether a byte string is accepted by the record decoder.
pub open spec fn record_decodable(b: Seq<u8>) -> bool {
    &&& b.len() >= 25
    &&& (b[0] == 1 || b[0] == 2 || b[0] == 3)
    &&& 25 + u32_from_be(b.subrange(17, 21)) + u32_from_be(b.subrange(21, 25)) <= b.len()
}

/// The record that an accepted byte string denotes.  Bytes beyond the
/// declared lengths flow into the value, as the append-only reader hands
/// the decoder exactly one record's bytes.
pub open spec fn record_decoded(b: Seq<u8>) -> RecordV
    recommends
        record_decodable(b),
{
    let klen = u32_from_be(b.subrange(17, 21)) as int;
    RecordV {
        timestamp: u128_from_be(b.subrange(1, 17)),
        operation: if b[0] == 1 {
            RecordType::Insert
        } else if b[0] == 2 {
            RecordType::Delete
        } else {
            RecordType::Lock
        },
        key: b.subrange(25, 25 + klen),
        val: b.subrange(25 + klen, b.len() as int),
    }
}

impl ToBytes for Record {
    open spec fn bytes_spec(&self) -> Seq<u8> {
        record_bytes(self@)
    }

    fn to_bytes(&self) -> (r: Vec<u8>) {
        let op: u8 = match self.operation {
            RecordType::Insert => 1,
            RecordType::Delete => 2,
            RecordType::Lock => 3,
        };
        let mut bytes: Vec<u8> = Vec::new();
        bytes.push(op);
        push_u128_be(&mut bytes, self.timestamp);
        push_u32_be(&mut bytes, self.key.len() as u32);
        push_u32_be(&mut bytes, self.val.len() as u32);
        append_bytes(&mut bytes, &self.key);
        append_bytes(&mut bytes, &self.val);
        proof {
            assert(bytes@ =~= record_bytes(self@));
        }
        bytes
    }
}

impl FromBytes for Record {
    open spec fn decoded(b: Seq<u8>) -> Option<RecordV> {
        if record_decodable(b) {
            Some(record_decoded(b))
        } else {
            None
        }
    }

    fn from_bytes(bytes: &[u8]) -> (r: StoreResult<Record>)
        ensures
            r matches Ok(rec) ==> {
                &&& rec.key_len == rec.key@.len()
                &&& rec@.val.len() == bytes@.len() - 25 - rec.key_len
                &&& (bytes@.len() <= u32::MAX && bytes@.len() == 25 + rec.key_len + rec.val_len
                    ==> rec.wf())
            },
    {
        let blen = bytes.len();
        if blen == 0 {
            return Err(StoreError("bytes are empty".to_owned()));
        }
        let op = bytes[0];
        let operation = if op == 1 {
            RecordType::Insert
        } else if op == 2 {
            RecordType::Delete
        } else if op == 3 {
            RecordType::Lock
        } else {
            return Err(StoreError("the operation tag is not 1, 2 or 3".to_owned()));
        };
        if blen < 25 {
            return Err(StoreError("the buffer is shorter than the header".to_owned()));
        }
        let timestamp = read_u128_be(bytes, 1);
        let key_len = read_u32_be(bytes, 17);
        let val_len = read_u32_be(bytes, 21);
        let kl = key_len as usize;
        let vl = val_len as usize;
        if blen - 25 < kl || blen - 25 - kl < vl {
            return Err(StoreError("the buffer is shorter than its declared lengths".to_owned()));
        }
        let key = copy_range(bytes, 25, kl);
        let val = copy_range(bytes, 25 + kl, blen - 25 - kl);
        Ok(Record { timestamp, operation, key_len, val_len, key, val })
    }
}

impl Record {
    /// The size of the record's encoding: key and value lengths plus a
    /// 25-byte header (1 tag, 16 timestamp, 4 + 4 lengths).
    pub fn size_in_bytes(&self) -> (r: u32)
        requires
            self.wf(),
        ensures
            r == self@.key.len() + self@.val.len() + 25,
            r == self.bytes_spec().len(),
    {
        proof {
            assert(self.bytes_spec().len() == self.key@.len() + self.val@.len() + 25);
        }
        self.val_len + self.key_len + 16 + 4 + 4 + 1
    }

    /// A record tagged as an insertion, stamped with the current time.
    pub fn insert_record(key: Vec<u8>, val: Vec<u8>) -> (r: Record)
        requires
            key@.len() + val@.len() + 25 <= u32::MAX,
        ensures
            r.wf(),
            r@.operation == RecordType::Insert,
            r@.key == key@,
            r@.val == val@,
    {
        Record::op_from(RecordType::Insert, key, val)
    }

    /// A record tagged as a deletion, stamped with the current time.
    pub fn delete_record(key: Vec<u8>, val: Vec<u8>) -> (r: Record)
        requires
            key@.len() + val@.len() + 25 <= u32::MAX,
        ensures
            r.wf(),
            r@.operation == RecordType::Delete,
            r@.key == key@,
            r@.val == val@,
    {
        Record::op_from(RecordType::Delete, key, val)
    }

    /// A record tagged as a lock, stamped with the current time.
    pub fn lock_record(key: Vec<u8>, val: Vec<u8>) -> (r: Record)
        requires
            key@.len() + val@.len() + 25 <= u32::MAX,
        ensures
            r.wf(),
            r@.operation == RecordType::Lock,
            r@.key == key@,
            r@.val == val@,
    {
        Record::op_from(RecordType::Lock, key, val)
    }

    fn op_from(operation: RecordType, key: Vec<u8>, val: Vec<u8>) -> (r: Record)
        requires
            key@.len() + val@.len() + 25 <= u32::MAX,
        ensures
            r.wf(),
            r@.operation == operation,
            r@.key == key@,
            r@.val == val@,
    {
        Record {
            timestamp: time_now_millis(),
            operation,
            key_len: key.len() as u32,
            val_len: val.len() as u32,
            key,
            val,
        }
    }
}

impl PartialEq for Record {
    fn eq(&self, other: &Record) -> (r: bool) {
        self.timestamp == other.timestamp && self.operation == other.operation && self.key_len
            == other.key_len && self.val_len == other.val_len && vec_u8_eq(&self.key, &other.key)
            && vec_u8_eq(&self.val, &other.val)
    }
}

impl vstd::std_specs::cmp::PartialEqSpecImpl for Record {
    open spec fn obeys_eq_spec() -> bool {
        true
    }

    open spec fn eq_spec(&self, other: &Record) -> bool {
        &&& self.timestamp == other.timestamp
        &&& self.operation == other.operation
        &&& self.key_len == other.key_len
        &&& self.val_len == other.val_len
        &&& self.key@ == other.key@
        &&& self.val@ == other.val@
    }
}

/// Compares two byte vectors element by element.
fn vec_u8_eq(a: &Vec<u8>, b: &Vec<u8>) -> (r: bool)
    ensures
        r == (a@ == b@),
{
    if a.len() != b.len() {
        proof {
            assert(a@ != b@);
        }
        return false;
    }
    let mut i: usize = 0;
    while i < a.len()
        invariant
            a@.len() == b@.len(),
            i <= a@.len(),
            forall|j: int| 0 <= j < i ==> a@[j] == b@[j],
        decreases a@.len() - i,
    {
        if a[i] != b[i] {
            proof {
                assert(a@[i as int] != b@[i as int]);
            }
            return false;
        }
        i = i + 1;
    }
    proof {
        assert(a@ =~= b@);
    }
    true
}

/// Relies on std's SystemTime: the milliseconds elapsed since the Unix
/// epoch, or 0 under a clock that reads earlier than the epoch.  Nothing is
/// promised of the value; timestamps are observational metadata.
#[verifier::external_body]
fn time_now_millis() -> u128 {
    std::time::SystemTime::now()
        .duration_since(std::time::UNIX_EPOCH)
        .map(|d| d.as_millis())
        .unwrap_or(0)
}

/// Decoding an encoding restores the record model, for every model whose
/// sizes fit the 32-bit length fields.
pub proof fn lemma_record_bytes_round(r: RecordV)
    requires
        r.key.len() + r.val.len() + 25 <= u32::MAX,
    ensures
        record_decodable(record_bytes(r)),
        record_decoded(record_bytes(r)) == r,
        record_bytes(r).len() == r.key.len() + r.val.len() + 25,
{
    let b = record_bytes(r);
    let kl = r.key.len() as u32;
    let vl = r.val.len() as u32;
    lemma_u128_be_round(r.timestamp);
    lemma_u32_be_round(kl);
    lemma_u32_be_round(vl);
    assert(b.subrange(1, 17) =~= u128_be_bytes(r.timestamp));
    assert(b.subrange(17, 21) =~= u32_be_bytes(kl));
    assert(b.subrange(21, 25) =~= u32_be_bytes(vl));
    assert(record_decodable(b));
    assert(b.subrange(25, 25 + r.key.len() as int) =~= r.key);
    assert(b.subrange(25 + r.key.len() as int, b.len() as int) =~= r.val);
}

/// Law: decoding an encoding restores the record, for every record with a
/// valid tag (part of well-formedness), and the encoding's length is the
/// record's size: key length plus value length plus 25.
pub proof fn lemma_record_round_trip(r: Record)
    requires
        r.wf(),
    ensures
        Record::decoded(r.bytes_spec()) == Some(r@),
        r.bytes_spec().len() == r@.key.len() + r@.val.len() + 25,
{
    lemma_record_bytes_round(r@);
}

/// A fixed-width index entry: the length, in bytes, of the record at the
/// same position in the data file.
#[derive(Debug, PartialEq, Eq, Structural, Clone, Copy)]
pub struct Index {
    pub val: u32,
}

impl View for Index {
    type V = u32;

    open spec fn view(&self) -> u32 {
        self.val
    }
}

impl ToBytes for Index {
    open spec fn bytes_spec(&self) -> Seq<u8> {
        u32_be_bytes(self.val)
    }

    fn to_bytes(&self) -> (r: Vec<u8>) {
        let mut bytes: Vec<u8> = Vec::new();
        push_u32_be(&mut bytes, self.val);
        bytes
    }
}

impl FromBytes for Index {
    open spec fn decoded(b: Seq<u8>) -> Option<u32> {
        if b.len() == 4 {
            Some(u32_from_be(b))
        } else {
            None
        }
    }

    fn from_bytes(bytes: &[u8]) -> (r: StoreResult<Index>) {
        if bytes.len() != 4 {
            return Err(StoreError("an index entry takes exactly 4 bytes".to_owned()));
        }
        let val = read_u32_be(bytes, 0);
        proof {
            assert(bytes@.subrange(0, 4) =~= bytes@);
        }
        Ok(Index { val })
    }
}

impl Index {
    /// Wraps a record length as an index entry.
    pub fn create(val: u32) -> (r: Index)
        ensures
            r@ == val,
    {
        Index { val }
    }

    /// The record length the entry holds.
    pub fn get_value(&self) -> (r: u32)
        ensures
            r == self@,
    {
        self.val
    }

    /// Concatenates the encodings of a sequence of items.
    pub fn array_to_bytes<T: ToBytes>(idx_array: &Vec<T>) -> (r: Vec<u8>)
        ensures
            r@ == flat_bytes(idx_array@),
    {
        let mut r: Vec<u8> = Vec::new();
        let mut i: usize = 0;
        while i < idx_array.len()
            invariant
                i <= idx_array@.len(),
                r@ == flat_bytes(idx_array@.take(i as int)),
            decreases idx_array@.len() - i,
        {
            let bs = idx_array[i].to_bytes();
            append_bytes(&mut r, &bs);
            i = i + 1;
            proof {
                assert(idx_array@.take(i as int).drop_last() =~= idx_array@.take(i as int - 1));
                assert(idx_array@.take(i as int).last() == idx_array@[i - 1]);
            }
        }
        proof {
            assert(idx_array@.take(idx_array@.len() as int) =~= idx_array@);
        }
        r
    }

    /// Splits a byte string into 4-byte chunks and decodes each one,
    /// dropping a trailing fragment.
    pub fn from_bytes_array(bytes: &[u8]) -> (r: StoreResult<Vec<Index>>)
        ensures
            r is Ok,
            r matches Ok(v) ==> {
                &&& v@.len() == bytes@.len() / 4
                &&& forall|i: int|
                    0 <= i < v@.len() ==> v@[i]@ == u32_from_be(
                        bytes@.subrange(4 * i, 4 * i + 4),
                    )
            },
    {
        let blen = bytes.len();
        let mut r: Vec<Index> = Vec::new();
        let mut i: usize = 0;
        while blen >= 4 && i <= blen - 4
            invariant
                blen == bytes@.len(),
                i % 4 == 0,
                i <= blen,
                r@.len() == i / 4,
                forall|j: int|
                    0 <= j < r@.len() ==> r@[j]@ == u32_from_be(bytes@.subrange(4 * j, 4 * j + 4)),
            decreases blen - i,
        {
            let val = read_u32_be(bytes, i);
            r.push(Index { val });
            i = i + 4;
        }
        Ok(r)
    }
}

/// The concatenation of the byte images of a sequence of items.
pub open spec fn flat_bytes<T: ToBytes>(items: Seq<T>) -> Seq<u8>
    decreases items.len(),
{
    if items.len() == 0 {
        Seq::empty()
    } else {
        flat_bytes(items.drop_last()) + items.last().bytes_spec()
    }
}

/// Law: a 32-bit value survives the index round trip, and its encoding is
/// always 4 bytes long.
pub proof fn lemma_index_round_trip(idx: Index)
    ensures
        Index::decoded(idx.bytes_spec()) == Some(idx@),
        idx.bytes_spec().len() == 4,
{
    lemma_u32_be_round(idx.val);
}

/// Law: decoding a byte string whose length is a multiple of 4 as an index
/// array yields one entry per chunk, and each entry re-encodes to its chunk.
pub proof fn lemma_index_array_round_trip(b: Seq<u8>, entries: Seq<u32>)
    requires
        b.len() % 4 == 0,
        entries.len() == b.len() / 4,
        forall|i: int| 0 <= i < entries.len() ==> entries[i] == u32_from_be(
            b.subrange(4 * i, 4 * i + 4),
        ),
    ensures
        forall|i: int|
            0 <= i < entries.len() ==> u32_be_bytes(#[trigger] entries[i]) == b.subrange(
                4 * i,
                4 * i + 4,
            ),
{
    assert forall|i: int| 0 <= i < entries.len() implies u32_be_bytes(#[trigger] entries[i])
        == b.subrange(4 * i, 4 * i + 4) by {
        let c = b.subrange(4 * i, 4 * i + 4);
        lemma_u32_be_bytes_round(c[0], c[1], c[2], c[3]);
        assert(c =~= seq![c[0], c[1], c[2], c[3]]);
    }
}

/// Appends the contents of one byte vector to another.
fn append_bytes(dst: &mut Vec<u8>, src: &Vec<u8>)
    ensures
        final(dst)@ == old(dst)@ + src@,
{
    let mut i: usize = 0;
    while i < src.len()
        invariant
            i <= src@.len(),
            dst@ == old(dst)@ + src@.take(i as int),
        decreases src@.len() - i,
    {
        dst.push(src[i]);
        i = i + 1;
        proof {
            assert(dst@ =~= old(dst)@ + src@.take(i as int));
        }
    }
    proof {
        assert(old(dst)@ + src@.take(src@.len() as int) =~= old(dst)@ + src@);
    }
}

} // verus!
