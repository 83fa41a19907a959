use vstd::prelude::*;

verus! {

use crate::StoreResult;
use crate::StoreError;
use crate::commit_log::Record;
use crate::commit_log::RecordV;
use crate::commit_log::Index;
use crate::commit_log::ToBytes;
use crate::commit_log::record_bytes;
use crate::commit_log::u32_be_bytes;
use crate::commit_log::lemma_u32_be_round;
use crate::commit_log::lemma_record_bytes_round;
use crate::segment::read_slice_from_end;

/// The size of a record's encoding: its key and value lengths plus the
/// 25-byte header.
pub open spec fn rec_size(r: RecordV) -> int {
    r.key.len() + r.val.len() + 25int
}

/// The bytes of the data segment: every record's encoding, in push order.
pub open spec fn recs_bytes(s: Seq<RecordV>) -> Seq<u8>
    decreases s.len(),
{
    if s.len() == 0 {
        Seq::empty()
    } else {
        recs_bytes(s.drop_last()) + record_bytes(s.last())
    }
}

/// The bytes of the index segment: every record's size as a 4-byte
/// big-endian entry, in push order.
pub open spec fn idx_bytes(s: Seq<RecordV>) -> Seq<u8>
    decreases s.len(),
{
    if s.len() == 0 {
        Seq::empty()
    } else {
        idx_bytes(s.drop_last()) + u32_be_bytes(rec_size(s.last()) as u32)
    }
}

/// The sum of the sizes of all records: what the index entries add up to.
pub open spec fn total_size(s: Seq<RecordV>) -> int
    decreases s.len(),
{
    if s.len() == 0 {
        0
    } else {
        total_size(s.drop_last()) + rec_size(s.last())
    }
}

/// The paired data and index segments of a write-ahead log.  The two byte
/// vectors mirror, byte for byte, what the log's two backing files hold;
/// the surrounding program is in charge of carrying appended bytes to disk
/// and of the lock file.
pub struct TransactionLog {
    data: Vec<u8>,
    idx: Vec<u8>,
    recs: Ghost<Seq<RecordV>>,
}

impl TransactionLog {
    /// The records pushed so far, oldest first.
    pub closed spec fn records(&self) -> Seq<RecordV> {
        self.recs@
    }

    /// The data segment holds exactly the records' encodings, the index
    /// segment one 4-byte size entry per record, and every record fits the
    /// 32-bit size arithmetic.
    pub closed spec fn wf(&self) -> bool {
        &&& self.data@ == recs_bytes(self.recs@)
        &&& self.idx@ == idx_bytes(self.recs@)
        &&& forall|i: int| 0 <= i < self.recs@.len() ==> rec_size(#[trigger] self.recs@[i])
            <= u32::MAX
    }

    /// An empty log: no records, two empty segments.
    pub fn new() -> (r: TransactionLog)
        ensures
            r.wf(),
            r.records() == Seq::<RecordV>::empty(),
    {
        TransactionLog { data: Vec::new(), idx: Vec::new(), recs: Ghost(Seq::empty()) }
    }

    /// Appends a record: first its size to the index segment, then its
    /// bytes to the data segment.  Returns the number of bytes written to
    /// the data segment.
    pub fn push(&mut self, record: &Record) -> (r: StoreResult<usize>)
        requires
            old(self).wf(),
            record.wf(),
            total_size(old(self).records()) + rec_size(record@) <= usize::MAX,
            4 * old(self).records().len() + 4 <= usize::MAX,
        ensures
            final(self).wf(),
            final(self).records() == old(self).records().push(record@),
            r matches Ok(n) ==> n == rec_size(record@),
            r is Ok,
    {
        let size = record.size_in_bytes();
        let index = Index::create(size);
        let mut ib = index.to_bytes();
        let mut rb = record.to_bytes();
        proof {
            lemma_total_size_bytes(self.recs@);
            lemma_idx_bytes_len(self.recs@);
        }
        self.idx.append(&mut ib);
        self.data.append(&mut rb);
        proof {
            let s2 = self.recs@.push(record@);
            self.recs@ = s2;
            assert(s2.drop_last() =~= old(self).recs@);
            assert(s2.last() == record@);
        }
        Ok(size as usize)
    }

    /// The number of records pushed so far.
    pub fn record_count(&self) -> (r: usize)
        requires
            self.wf(),
        ensures
            r == self.records().len(),
    {
        proof {
            lemma_idx_bytes_len(self.recs@);
        }
        self.idx.len() / 4
    }

    /// The size of the data segment in bytes: what the index entries sum
    /// to.
    pub fn data_size(&self) -> (r: usize)
        requires
            self.wf(),
        ensures
            r == total_size(self.records()),
    {
        proof {
            lemma_total_size_bytes(self.recs@);
        }
        self.data.len()
    }

    /// Reads the record `pos_from_end` places before the tail; position 1
    /// is the record pushed last.  The start of that record is found by
    /// summing the last `pos_from_end` index entries.
    pub fn read_from_end(&self, pos_from_end: usize) -> (r: StoreResult<Record>)
        requires
            self.wf(),
        ensures
            r is Ok <==> 1 <= pos_from_end <= self.records().len(),
            r matches Ok(rec) ==> rec@ == self.records()[self.records().len() - pos_from_end],
    {
        let ghost recs = self.recs@;
        let mut r_start_pos: u64 = 0;
        let mut r_number: u64 = 0;
        let mut i: usize = 1;
        proof {
            lemma_total_size_bytes(recs);
            lemma_idx_bytes_len(recs);
            lemma_total_size_bounds(recs);
        }
        let count = self.idx.len() / 4;
        let dlen = self.data.len();
        proof {
            assert(recs.take(recs.len() as int) =~= recs);
        }
        while i <= pos_from_end
            invariant
                self.wf(),
                recs == self.recs@,
                count == recs.len(),
                4 * count <= usize::MAX,
                dlen == total_size(recs),
                1 <= i,
                i <= pos_from_end + 1,
                i - 1 <= recs.len(),
                r_start_pos == total_size(recs) - total_size(recs.take(recs.len() - (i - 1))),
                i > 1 ==> r_number == rec_size(recs[recs.len() - (i - 1)]),
                i == 1 ==> r_number == 0,
            decreases pos_from_end + 1 - i,
        {
            if i > count {
                return Err(StoreError("fewer records exist than asked for".to_owned()));
            }
            proof {
                lemma_idx_bytes_len(recs);
                lemma_idx_chunk(recs, recs.len() - i);
                lemma_u32_be_round(rec_size(recs[recs.len() - i]) as u32);
                lemma_total_size_bounds(recs);
                lemma_take_unfold(recs, recs.len() - (i - 1));
            }
            let pos: u64 = (i as u64) * 4;
            match read_slice_from_end::<Index>(&self.idx, pos, 4) {
                Ok(idx) => {
                    let vl = idx.get_value() as u64;
                    r_start_pos = r_start_pos + vl;
                    r_number = vl;
                }
                Err(_) => {
                    return Err(StoreError("fewer records exist than asked for".to_owned()));
                }
            }
            i = i + 1;
        }
        if r_number == 0 {
            proof {
                if 1 <= pos_from_end <= recs.len() {
                    assert(rec_size(recs[recs.len() - pos_from_end]) >= 25);
                }
            }
            return Err(StoreError("no record lies at that position".to_owned()));
        }
        proof {
            lemma_total_size_bytes(recs);
            lemma_record_chunk(recs, recs.len() - pos_from_end);
            lemma_take_next(recs, recs.len() - pos_from_end);
            lemma_total_size_bounds(recs);
            lemma_prefix_size_bounds(recs, recs.len() - pos_from_end);
            lemma_record_bytes_round(recs[recs.len() - pos_from_end]);
        }
        match read_slice_from_end::<Record>(&self.data, r_start_pos, r_number) {
            Ok(rec) => Ok(rec),
            Err(_) => Err(StoreError("the data segment ends before the record does".to_owned())),
        }
    }

    /// Reads the last `number_from_end` records, tail first.
    pub fn read_all_from_end(&self, number_from_end: usize) -> (r: StoreResult<Vec<Record>>)
        requires
            self.wf(),
        ensures
            r is Ok <==> number_from_end <= self.records().len(),
            r matches Ok(v) ==> {
                &&& v@.len() == number_from_end
                &&& forall|j: int| 0 <= j < v@.len() ==> (#[trigger] v@[j])@ == self.records()[
                    self.records().len() - 1 - j]
            },
    {
        let mut records: Vec<Record> = Vec::new();
        let mut i: usize = 0;
        while i < number_from_end
            invariant
                self.wf(),
                i <= number_from_end,
                i <= self.records().len(),
                records@.len() == i,
                forall|j: int| 0 <= j < records@.len() ==> (#[trigger] records@[j])@
                    == self.records()[self.records().len() - 1 - j],
            decreases number_from_end - i,
        {
            match self.read_from_end(i + 1) {
                Ok(rec) => {
                    records.push(rec);
                }
                Err(e) => {
                    return Err(e);
                }
            }
            i = i + 1;
        }
        Ok(records)
    }
}

/// The data segment is as long as the record sizes add up to.
pub proof fn lemma_total_size_bytes(s: Seq<RecordV>)
    ensures
        recs_bytes(s).len() == total_size(s),
    decreases s.len(),
{
    if s.len() > 0 {
        lemma_total_size_bytes(s.drop_last());
    }
}

/// The index segment holds 4 bytes per record.
pub proof fn lemma_idx_bytes_len(s: Seq<RecordV>)
    ensures
        idx_bytes(s).len() == 4 * s.len(),
    decreases s.len(),
{
    if s.len() > 0 {
        lemma_idx_bytes_len(s.drop_last());
    }
}

/// Record sizes are never negative, so the total is not either.
proof fn lemma_total_size_nonneg(s: Seq<RecordV>)
    ensures
        total_size(s) >= 0,
    decreases s.len(),
{
    if s.len() > 0 {
        lemma_total_size_nonneg(s.drop_last());
    }
}

/// Record sizes are at least 25, so totals grow with the record count.
proof fn lemma_total_size_bounds(s: Seq<RecordV>)
    ensures
        total_size(s) >= 0,
        forall|k: int| 0 <= k <= s.len() ==> #[trigger] total_size(s.take(k)) <= total_size(s),
        forall|k: int| 0 <= k <= s.len() ==> #[trigger] total_size(s.take(k)) >= 0,
    decreases s.len(),
{
    lemma_total_size_nonneg(s);
    assert forall|k: int| 0 <= k <= s.len() implies 0 <= #[trigger] total_size(s.take(k)) by {
        lemma_total_size_nonneg(s.take(k));
    }
    if s.len() == 0 {
        assert forall|k: int| 0 <= k <= s.len() implies #[trigger] total_size(s.take(k))
            <= total_size(s) by {
            assert(s.take(k) =~= s);
        }
    } else {
        lemma_total_size_bounds(s.drop_last());
        assert forall|k: int| 0 <= k <= s.len() implies #[trigger] total_size(s.take(k))
            <= total_size(s) by {
            if k == s.len() {
                assert(s.take(k) =~= s);
            } else {
                assert(s.take(k) =~= s.drop_last().take(k));
            }
        }
    }
}

/// Prefix sums never pass the total.
proof fn lemma_prefix_size_bounds(s: Seq<RecordV>, k: int)
    requires
        0 <= k < s.len(),
    ensures
        total_size(s.take(k)) + rec_size(s[k]) <= total_size(s),
        total_size(s.take(k)) >= 0,
    decreases s.len(),
{
    lemma_take_next(s, k);
    lemma_total_size_bounds(s);
    lemma_total_size_nonneg(s.take(k));
    assert(total_size(s.take(k + 1)) <= total_size(s));
}

/// Taking one more record adds its size to the prefix sum.
proof fn lemma_take_next(s: Seq<RecordV>, k: int)
    requires
        0 <= k < s.len(),
    ensures
        total_size(s.take(k + 1)) == total_size(s.take(k)) + rec_size(s[k]),
{
    assert(s.take(k + 1).drop_last() =~= s.take(k));
    assert(s.take(k + 1).last() == s[k]);
}

/// Shrinking the kept prefix by one frees exactly that record's size.
proof fn lemma_take_unfold(s: Seq<RecordV>, k: int)
    requires
        1 <= k <= s.len(),
    ensures
        total_size(s.take(k)) == total_size(s.take(k - 1)) + rec_size(s[k - 1]),
{
    lemma_take_next(s, k - 1);
}

/// The `k`-th index entry is the `k`-th record's size.
proof fn lemma_idx_chunk(s: Seq<RecordV>, k: int)
    requires
        0 <= k < s.len(),
    ensures
        idx_bytes(s).subrange(4 * k, 4 * k + 4) == u32_be_bytes(rec_size(s[k]) as u32),
    decreases s.len(),
{
    lemma_idx_bytes_len(s);
    lemma_idx_bytes_len(s.drop_last());
    if k == s.len() - 1 {
        assert(idx_bytes(s).subrange(4 * k, 4 * k + 4) =~= u32_be_bytes(rec_size(s[k]) as u32));
    } else {
        lemma_idx_chunk(s.drop_last(), k);
        assert(idx_bytes(s).subrange(4 * k, 4 * k + 4) =~= idx_bytes(s.drop_last()).subrange(
            4 * k,
            4 * k + 4,
        ));
    }
}

/// The `k`-th record's bytes sit after the sizes of the records before it.
proof fn lemma_record_chunk(s: Seq<RecordV>, k: int)
    requires
        0 <= k < s.len(),
    ensures
        recs_bytes(s).subrange(
            total_size(s.take(k)),
            total_size(s.take(k)) + rec_size(s[k]),
        ) == record_bytes(s[k]),
    decreases s.len(),
{
    lemma_total_size_bytes(s);
    lemma_total_size_bytes(s.drop_last());
    lemma_total_size_bounds(s);
    lemma_prefix_size_bounds(s, k);
    if k == s.len() - 1 {
        assert(s.take(k) =~= s.drop_last());
        assert(record_bytes(s[k]).len() == rec_size(s[k]));
        assert(recs_bytes(s).subrange(
            total_size(s.take(k)),
            total_size(s.take(k)) + rec_size(s[k]),
        ) =~= record_bytes(s[k]));
    } else {
        lemma_record_chunk(s.drop_last(), k);
        lemma_total_size_bounds(s.drop_last());
        lemma_prefix_size_bounds(s.drop_last(), k);
        assert(s.take(k) =~= s.drop_last().take(k));
        assert(recs_bytes(s).subrange(
            total_size(s.take(k)),
            total_size(s.take(k)) + rec_size(s[k]),
        ) =~= recs_bytes(s.drop_last()).subrange(
            total_size(s.drop_last().take(k)),
            total_size(s.drop_last().take(k)) + rec_size(s[k]),
        ));
    }
}

/// Law: the sum of all index entries equals the size of the data segment,
/// and the record read back from position 1 is the record pushed last.
pub proof fn lemma_log_tail_invariant(log: TransactionLog)
    requires
        log.wf(),
    ensures
        idx_bytes(log.records()).len() == 4 * log.records().len(),
        recs_bytes(log.records()).len() == total_size(log.records()),
        log.records().len() > 0 ==> log.records()[log.records().len() - 1] == log.records().last(),
{
    lemma_idx_bytes_len(log.records());
    lemma_total_size_bytes(log.records());
}

} // verus!
