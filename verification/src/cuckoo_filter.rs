use vstd::prelude::*;

verus! {

use crate::commit_log::ToBytes;
use crate::entropy::coin_flip;
use crate::entropy::random_below;
use crate::fingerprint::RabinFingerprint;
use crate::fingerprint::sfingerprint;
use crate::fingerprint::sdeg;
use vstd::std_specs::hash::DefaultHasherAdditionalSpecFns;

/// What std's default hasher returns for a byte string fed in one write.
/// `DefaultHasher::new()` starts from fixed keys, so the value is a
/// function of the bytes alone.
pub open spec fn default_hash_of(s: Seq<u8>) -> u64 {
    std::collections::hash_map::DefaultHasher::spec_finish(seq![s])
}

/// Hashes the byte string with std's default hasher in a single write.
fn find_hash_bytes(bytes: &Vec<u8>) -> (r: u64)
    ensures
        r == default_hash_of(bytes@),
{
    let mut s = std::collections::hash_map::DefaultHasher::new();
    std::hash::Hasher::write(&mut s, bytes.as_slice());
    proof {
        assert(s@ =~= seq![bytes@]);
    }
    std::hash::Hasher::finish(&s)
}

/// What an insertion into the filter reports: the bucket that took the
/// last displaced fingerprint, a filter that has run out of room, or an
/// index outside the table.
#[derive(Debug)]
pub enum InsertResult {
    Done(usize),
    Full,
    Fail(String),
}

/// A fixed-capacity group of fingerprint slots with an in-use counter.
/// Slots below the counter are occupied, those above are free.
pub struct Bucket {
    base: Vec<Option<i64>>,
    idx: usize,
    cap: usize,
}

impl Bucket {
    /// The occupied slots fill a prefix of the fixed-size slot array.
    pub closed spec fn wf(&self) -> bool {
        &&& self.base@.len() == self.cap
        &&& self.idx <= self.cap
        &&& forall|j: int| 0 <= j < self.idx ==> self.base@[j] is Some
        &&& forall|j: int| self.idx <= j < self.base@.len() ==> self.base@[j] is None
    }

    /// The fingerprints the bucket holds, in slot order.
    pub closed spec fn contents(&self) -> Seq<i64> {
        Seq::new(self.idx as nat, |j: int| self.base@[j].unwrap())
    }

    /// The number of slots.
    pub closed spec fn cap_spec(&self) -> usize {
        self.cap
    }

    /// An empty bucket with the given number of slots.
    pub fn new(cap: usize) -> (r: Bucket)
        ensures
            r.wf(),
            r.cap_spec() == cap,
            r.contents() == Seq::<i64>::empty(),
    {
        let r = Bucket { base: vec![None; cap], idx: 0, cap };
        proof {
            assert(r.contents() =~= Seq::<i64>::empty());
        }
        r
    }

    /// A bucket holding one fingerprint.
    pub fn new_with(val: i64, cap: usize) -> (r: Bucket)
        requires
            cap >= 1,
        ensures
            r.wf(),
            r.cap_spec() == cap,
            r.contents() == seq![val],
    {
        let mut bucket = Bucket::new(cap);
        bucket.insert(val);
        proof {
            assert(bucket.contents() =~= seq![val]);
        }
        bucket
    }

    /// Fills the next free slot, unless the fingerprint is already here.
    pub fn insert(&mut self, v: i64)
        requires
            old(self).wf(),
            old(self).contents().len() < old(self).cap_spec(),
        ensures
            final(self).wf(),
            final(self).cap_spec() == old(self).cap_spec(),
            final(self).contents() == if old(self).contents().contains(v) {
                old(self).contents()
            } else {
                old(self).contents().push(v)
            },
    {
        if self.contains(v) {
            return ;
        }
        self.base.set(self.idx, Some(v));
        self.idx = self.idx + 1;
        proof {
            assert(final(self).contents() =~= old(self).contents().push(v));
        }
    }

    /// Replaces a random occupied slot with the fingerprint, handing back
    /// the old occupant.
    pub fn swap(&mut self, v: i64) -> (r: Option<i64>)
        requires
            old(self).wf(),
            old(self).contents().len() > 0,
        ensures
            final(self).wf(),
            final(self).cap_spec() == old(self).cap_spec(),
            exists|j: int|
                0 <= j < old(self).contents().len() && r == Some(old(self).contents()[j])
                    && final(self).contents() == old(self).contents().update(j, v),
    {
        let idx_swap = random_below(self.idx);
        let old_val = self.base[idx_swap];
        self.base.set(idx_swap, Some(v));
        proof {
            assert(final(self).contents() =~= old(self).contents().update(idx_swap as int, v));
            assert(old(self).contents()[idx_swap as int] == old_val.unwrap());
        }
        old_val
    }

    /// Whether the fingerprint is in some occupied slot.
    pub fn contains(&self, fp: i64) -> (r: bool)
        requires
            self.wf(),
        ensures
            r == self.contents().contains(fp),
    {
        let mut j: usize = 0;
        while j < self.idx
            invariant
                self.wf(),
                j <= self.idx,
                forall|k: int| 0 <= k < j ==> self.contents()[k] != fp,
            decreases self.idx - j,
        {
            if let Some(x) = self.base[j] {
                if x == fp {
                    proof {
                        assert(self.contents()[j as int] == fp);
                    }
                    return true;
                }
            }
            j = j + 1;
        }
        proof {
            if self.contents().contains(fp) {
                let k = choose|k: int|
                    0 <= k < self.contents().len() && self.contents()[k] == fp;
                assert(self.contents()[k] != fp);
            }
        }
        false
    }

    /// Whether no slot is occupied.
    pub fn is_empty(&self) -> (r: bool)
        ensures
            r == (self.contents().len() == 0),
    {
        self.idx == 0
    }

    /// Whether every slot is occupied.
    pub fn is_full(&self) -> (r: bool)
        ensures
            r == (self.contents().len() == self.cap_spec()),
    {
        self.idx == self.cap
    }
}

/// Membership in a sequence after one slot is overwritten.
proof fn lemma_update_contains(s: Seq<i64>, j: int, v: i64, x: i64)
    requires
        0 <= j < s.len(),
    ensures
        s.update(j, v).contains(v),
        (exists|k: int| 0 <= k < s.len() && k != j && s[k] == x) ==> s.update(j, v).contains(x),
        s.update(j, v).contains(x) ==> (x == v || s.contains(x)),
{
    assert(s.update(j, v)[j] == v);
    if exists|k: int| 0 <= k < s.len() && k != j && s[k] == x {
        let k = choose|k: int| 0 <= k < s.len() && k != j && s[k] == x;
        assert(s.update(j, v)[k] == x);
    }
    if s.update(j, v).contains(x) {
        let k = choose|k: int| 0 <= k < s.len() && s.update(j, v)[k] == x;
        if k != j {
            assert(s[k] == x);
        }
    }
}

/// A bucket that stayed the same or took one more fingerprint keeps what
/// it held.
proof fn lemma_insert_keeps(before: Seq<i64>, after: Seq<i64>, v: i64, x: i64)
    requires
        before.contains(x),
        after == before || after == before.push(v),
    ensures
        after.contains(x),
{
    let k = choose|k: int| 0 <= k < before.len() && before[k] == x;
    assert(after[k] == x);
}

/// The bucket array of a cuckoo filter.
pub struct Table {
    delegate: Vec<Bucket>,
    bucket_cap: usize,
}

impl Table {
    /// Every bucket is well formed with the same slot count, and the
    /// total slot count fits the address space.
    pub closed spec fn wf(&self) -> bool {
        &&& self.bucket_cap >= 1
        &&& self.delegate@.len() >= 1
        &&& self.delegate@.len() * self.bucket_cap <= usize::MAX
        &&& forall|b: int|
            0 <= b < self.delegate@.len() ==> (#[trigger] self.delegate@[b]).wf()
                && self.delegate@[b].cap_spec() == self.bucket_cap
    }

    /// The number of buckets.
    pub closed spec fn len_spec(&self) -> int {
        self.delegate@.len() as int
    }

    /// The slot count of each bucket.
    pub closed spec fn bucket_cap_spec(&self) -> usize {
        self.bucket_cap
    }

    /// The fingerprints in bucket `b`.
    pub closed spec fn contents_at(&self, b: int) -> Seq<i64> {
        self.delegate@[b].contents()
    }

    /// A table of `cap` empty buckets of `bucket_cap` slots each.
    pub fn new(cap: usize, bucket_cap: usize) -> (r: Table)
        requires
            cap >= 1,
            bucket_cap >= 1,
            cap * bucket_cap <= usize::MAX,
        ensures
            r.wf(),
            r.len_spec() == cap,
            r.bucket_cap_spec() == bucket_cap,
            forall|b: int| 0 <= b < cap ==> r.contents_at(b) == Seq::<i64>::empty(),
    {
        let mut delegate: Vec<Bucket> = Vec::new();
        let mut i: usize = 0;
        while i < cap
            invariant
                i <= cap,
                delegate@.len() == i,
                forall|b: int|
                    0 <= b < i ==> (#[trigger] delegate@[b]).wf() && delegate@[b].cap_spec()
                        == bucket_cap && delegate@[b].contents() == Seq::<i64>::empty(),
            decreases cap - i,
        {
            delegate.push(Bucket::new(bucket_cap));
            i = i + 1;
        }
        Table { delegate, bucket_cap }
    }

    /// The number of buckets.
    pub fn len(&self) -> (r: usize)
        ensures
            r == self.len_spec(),
    {
        self.delegate.len()
    }

    /// The slot count of each bucket.
    pub fn bucket_cap(&self) -> (r: usize)
        ensures
            r == self.bucket_cap_spec(),
    {
        self.bucket_cap
    }

    /// Whether bucket `idx` holds the fingerprint; an index outside the
    /// table holds nothing.
    pub fn contains(&self, idx: usize, v: i64) -> (r: bool)
        requires
            self.wf(),
        ensures
            r == (idx < self.len_spec() && self.contents_at(idx as int).contains(v)),
    {
        if idx < self.delegate.len() {
            self.delegate[idx].contains(v)
        } else {
            false
        }
    }

    /// Swaps the fingerprint into a random occupied slot of bucket `idx`,
    /// handing back the occupant.  Buckets other than `idx` keep their
    /// contents.
    pub fn swap_rand(&mut self, idx: usize, v: i64) -> (r: Option<i64>)
        requires
            old(self).wf(),
            idx < old(self).len_spec(),
            old(self).contents_at(idx as int).len() > 0,
        ensures
            final(self).wf(),
            final(self).len_spec() == old(self).len_spec(),
            final(self).bucket_cap_spec() == old(self).bucket_cap_spec(),
            forall|b: int|
                0 <= b < old(self).len_spec() && b != idx ==> final(self).contents_at(b) == old(
                    self,
                ).contents_at(b),
            exists|j: int|
                0 <= j < old(self).contents_at(idx as int).len() && r == Some(
                    old(self).contents_at(idx as int)[j],
                ) && final(self).contents_at(idx as int) == old(self).contents_at(
                    idx as int,
                ).update(j, v),
    {
        let bucket = &mut self.delegate[idx];
        let r = bucket.swap(v);
        r
    }

    /// Puts the fingerprint into bucket `idx`: reports Full when the
    /// bucket has no free slot, Fail when the index leaves the table, and
    /// Done otherwise.  Buckets other than `idx` keep their contents.
    pub fn insert(&mut self, idx: usize, v: i64) -> (r: InsertResult)
        requires
            old(self).wf(),
        ensures
            final(self).wf(),
            final(self).len_spec() == old(self).len_spec(),
            final(self).bucket_cap_spec() == old(self).bucket_cap_spec(),
            forall|b: int|
                0 <= b < old(self).len_spec() && b != idx ==> final(self).contents_at(b) == old(
                    self,
                ).contents_at(b),
            r is Fail <==> idx >= old(self).len_spec(),
            r is Full <==> (idx < old(self).len_spec() && old(self).contents_at(idx as int).len()
                == old(self).bucket_cap_spec()),
            r is Fail || r is Full ==> *final(self) == *old(self),
            r matches InsertResult::Done(i) ==> {
                &&& i == idx < old(self).len_spec()
                &&& final(self).contents_at(idx as int) == (if old(self).contents_at(
                    idx as int,
                ).contains(v) {
                    old(self).contents_at(idx as int)
                } else {
                    old(self).contents_at(idx as int).push(v)
                })
                &&& final(self).contents_at(idx as int).contains(v)
            },
    {
        let len = self.delegate.len();
        if len <= idx {
            return InsertResult::Fail("the bucket index leaves the table".to_owned());
        }
        if self.delegate[idx].is_full() {
            return InsertResult::Full;
        }
        let bucket = &mut self.delegate[idx];
        bucket.insert(v);
        proof {
            let c = final(self).contents_at(idx as int);
            if old(self).contents_at(idx as int).contains(v) {
                assert(c.contains(v));
            } else {
                assert(c[c.len() - 1] == v);
            }
        }
        InsertResult::Done(idx)
    }
}


/// Whether a bucket count supports mask-based indexing: a power of two,
/// so that the count less one masks a hash onto exactly the bucket range.
pub open spec fn is_pow2(n: u64) -> bool {
    n >= 1 && (n & (n - 1) as u64) == 0
}

/// A bucket index under the mask stays under the mask.
proof fn lemma_sbucket_bound(h: i64, len: int)
    requires
        1 <= len <= i64::MAX,
    ensures
        0 <= sbucket(h, len) < len,
{
    lemma_mask_bound(h, (len - 1) as i64);
}

/// The bucket that a 64-bit quantity selects: the low bits under the
/// table mask.
pub open spec fn sbucket(h: i64, len: int) -> int {
    (h & ((len - 1) as i64)) as int
}

/// Masking keeps a value within the table.
proof fn lemma_mask_bound(h: i64, m: i64)
    requires
        m >= 0,
    ensures
        0 <= (h & m) <= m,
{
    assert(m >= 0 ==> (0 <= (h & m) <= m)) by (bit_vector);
}

/// Law: partner symmetry.  For any bucket index `i` already under the
/// mask and any fingerprint `f`, hopping to the partner bucket twice
/// returns to `i`; masking distributes over the exclusive or.
pub proof fn lemma_partner_symmetry(i: i64, f: i64, m: i64)
    requires
        m >= 0,
        i == (i & m),
    ensures
        ((((i ^ f) & m) ^ f) & m) == i,
{
    assert(i == (i & m) ==> ((((i ^ f) & m) ^ f) & m) == i) by (bit_vector);
}

/// A cuckoo filter: approximate set membership for values with a byte
/// image.  Each value's Rabin fingerprint sits in one of two buckets
/// derived from a general-purpose hash and the fingerprint itself.
pub struct CuckooFilter<T: ToBytes> {
    table: Table,
    fpr: RabinFingerprint,
    _mark: core::marker::PhantomData<T>,
}

impl<T: ToBytes> CuckooFilter<T> {
    /// The table is well formed, its bucket count is a power of two that
    /// fits a 64-bit signed quantity, and the fingerprint is ready.
    pub closed spec fn wf(&self) -> bool {
        &&& self.table.wf()
        &&& is_pow2(self.table.len_spec() as u64)
        &&& self.table.len_spec() <= i64::MAX
        &&& self.fpr.wf()
    }

    /// The number of buckets.
    pub closed spec fn num_buckets(&self) -> int {
        self.table.len_spec()
    }

    /// The slot count of each bucket.
    pub closed spec fn bucket_cap_spec(&self) -> usize {
        self.table.bucket_cap_spec()
    }

    /// The fingerprints in bucket `b`.
    pub closed spec fn contents_at(&self, b: int) -> Seq<i64> {
        self.table.contents_at(b)
    }

    /// The degree sequence of the fingerprint's base polynomial.
    pub closed spec fn base_spec(&self) -> Seq<i64> {
        self.fpr.base_spec()
    }

    /// The fingerprint of a byte string under this filter's base.
    pub open spec fn fp_of(&self, bs: Seq<u8>) -> i64 {
        sfingerprint(self.base_spec(), bs)
    }

    /// The first candidate bucket: the hash under the mask.
    pub open spec fn i1_of(&self, bs: Seq<u8>) -> int {
        sbucket(default_hash_of(bs) as i64, self.num_buckets())
    }

    /// The second candidate bucket: the first, displaced by the
    /// fingerprint, under the mask.
    pub open spec fn i2_of(&self, bs: Seq<u8>) -> int {
        sbucket((self.i1_of(bs) as i64) ^ self.fp_of(bs), self.num_buckets())
    }

    /// Whether the byte string's fingerprint is in either candidate
    /// bucket: what a membership query answers.
    pub open spec fn has_fp(&self, bs: Seq<u8>) -> bool {
        ||| self.contents_at(self.i1_of(bs)).contains(self.fp_of(bs))
        ||| self.contents_at(self.i2_of(bs)).contains(self.fp_of(bs))
    }

    /// A filter with the default table of 2^17 buckets of 8 slots.
    pub fn default() -> (r: CuckooFilter<T>)
        ensures
            r.wf(),
            r.num_buckets() == 0x20000,
    {
        proof {
            assert(2usize << 16 == 0x20000usize) by (bit_vector);
            assert((0x20000u64 & 0x1ffffu64) == 0) by (bit_vector);
            assert((0x20000u64 - 1) as u64 == 0x1ffffu64);
            assert(is_pow2(0x20000u64));
        }
        CuckooFilter::new(2 << 16)
    }

    /// A filter over `cap` buckets of 8 slots; `cap` must be a power of
    /// two.
    pub fn new(cap: usize) -> (r: CuckooFilter<T>)
        requires
            is_pow2(cap as u64),
            cap <= usize::MAX / 8,
            cap <= i64::MAX,
        ensures
            r.wf(),
            r.num_buckets() == cap,
            r.bucket_cap_spec() == 8,
            forall|b: int| 0 <= b < cap ==> r.contents_at(b) == Seq::<i64>::empty(),
    {
        CuckooFilter::new_with(cap, 8)
    }

    /// A filter over `cap` buckets of `bucket_cap` slots each; `cap`
    /// must be a power of two.
    pub fn new_with(cap: usize, bucket_cap: usize) -> (r: CuckooFilter<T>)
        requires
            is_pow2(cap as u64),
            bucket_cap >= 1,
            cap * bucket_cap <= usize::MAX,
            cap <= i64::MAX,
        ensures
            r.wf(),
            r.num_buckets() == cap,
            r.bucket_cap_spec() == bucket_cap,
            forall|b: int| 0 <= b < cap ==> r.contents_at(b) == Seq::<i64>::empty(),
    {
        CuckooFilter {
            table: Table::new(cap, bucket_cap),
            fpr: RabinFingerprint::default(),
            _mark: core::marker::PhantomData,
        }
    }

    /// A well-formed filter has a power-of-two bucket count that fits a
    /// 64-bit signed quantity.
    pub proof fn lemma_wf_pow2(&self)
        requires
            self.wf(),
        ensures
            is_pow2(self.num_buckets() as u64),
            1 <= self.num_buckets() <= i64::MAX,
    {
    }

    /// The first candidate bucket always lies inside the table.
    pub proof fn lemma_i1_in_range(&self, bs: Seq<u8>)
        requires
            self.wf(),
        ensures
            0 <= self.i1_of(bs) < self.num_buckets(),
    {
        lemma_sbucket_bound(#[verifier::truncate] (default_hash_of(bs) as i64), self.num_buckets());
    }

    /// A filter whose every bucket is empty may hold nothing.
    pub proof fn lemma_empty_holds_nothing(&self, bs: Seq<u8>)
        requires
            self.wf(),
            forall|b: int|
                0 <= b < self.num_buckets() ==> self.contents_at(b) == Seq::<i64>::empty(),
        ensures
            !self.has_fp(bs),
    {
        lemma_sbucket_bound(#[verifier::truncate] (default_hash_of(bs) as i64), self.num_buckets());
        lemma_sbucket_bound((self.i1_of(bs) as i64) ^ self.fp_of(bs), self.num_buckets());
        assert(self.contents_at(self.i1_of(bs)) == Seq::<i64>::empty());
        assert(self.contents_at(self.i2_of(bs)) == Seq::<i64>::empty());
    }

    /// The number of buckets in the table.
    pub fn num_buckets_exec(&self) -> (r: usize)
        ensures
            r == self.num_buckets(),
    {
        self.table.len()
    }

    /// The total number of slots in the filter.
    pub fn cap(&self) -> (r: usize)
        requires
            self.wf(),
        ensures
            r == self.num_buckets() * self.bucket_cap_spec(),
    {
        self.table.len() * self.table.bucket_cap()
    }

    /// The bucket a 64-bit quantity selects, by masking against the
    /// bucket count.
    pub fn bucket(&self, hash: i64) -> (r: usize)
        requires
            self.wf(),
        ensures
            r == sbucket(hash, self.num_buckets()),
            r < self.num_buckets(),
    {
        let len = self.table.len();
        let mask = (len - 1) as i64;
        proof {
            lemma_mask_bound(hash, mask);
        }
        (hash & mask) as usize
    }

    /// Puts the value's fingerprint into one of its two buckets, evicting
    /// and reseating other fingerprints for up to 512 hops when both are
    /// full.  A result of Done leaves the fingerprint in one of the
    /// value's candidate buckets, so a membership query then answers
    /// true; Full reports an exhausted eviction budget.
    pub fn insert(&mut self, v: &T) -> (r: InsertResult)
        requires
            old(self).wf(),
        ensures
            final(self).wf(),
            final(self).num_buckets() == old(self).num_buckets(),
            final(self).bucket_cap_spec() == old(self).bucket_cap_spec(),
            final(self).base_spec() == old(self).base_spec(),
            !(r is Fail),
            final(self).has_fp(v.bytes_spec()),
            r matches InsertResult::Done(i) ==> i < old(self).num_buckets(),
            old(self).contents_at(old(self).i1_of(v.bytes_spec())).len() < old(
                self,
            ).bucket_cap_spec() ==> r is Done,
            old(self).contents_at(old(self).i2_of(v.bytes_spec())).len() < old(
                self,
            ).bucket_cap_spec() ==> r is Done,
            r is Full ==> old(self).contents_at(old(self).i1_of(v.bytes_spec())).len() == old(
                self,
            ).bucket_cap_spec() && old(self).contents_at(old(self).i2_of(v.bytes_spec())).len()
                == old(self).bucket_cap_spec(),
    {
        let ghost bs = v.bytes_spec();
        let ghost fp_g = old(self).fp_of(bs);
        let ghost i1_g = old(self).i1_of(bs);
        let ghost i2_g = old(self).i2_of(bs);
        let bytes = v.to_bytes();
        let fpr_opt = crate::fingerprint::Fingerprint::<i64>::calculate(&mut self.fpr, bytes);
        let fpr = match fpr_opt {
            Some(f) => f,
            None => {
                return InsertResult::Fail("no fingerprint came back".to_owned());
            }
        };
        let bytes2 = v.to_bytes();
        let hash = find_hash_bytes(&bytes2);
        let h = #[verifier::truncate] (hash as i64);
        let b1 = self.bucket(h);
        proof {
            assert(b1 == i1_g);
            assert(fpr == fp_g);
        }
        match self.table.insert(b1, fpr) {
            InsertResult::Full => {
                let b2 = self.bucket((b1 as i64) ^ fpr);
                proof {
                    assert(b2 == i2_g);
                }
                match self.table.insert(b2, fpr) {
                    InsertResult::Full => self.evict_loop(b1, b2, fpr, Ghost(bs)),
                    other => other,
                }
            }
            other => other,
        }
    }

    /// The eviction chain: swap the fingerprint into one of its full
    /// buckets, then walk each displaced fingerprint to its own partner
    /// bucket until one lands or the budget runs out.
    fn evict_loop(&mut self, b1: usize, b2: usize, fpr: i64, Ghost(bs): Ghost<Seq<u8>>) -> (r:
        InsertResult)
        requires
            old(self).wf(),
            fpr == old(self).fp_of(bs),
            b1 == old(self).i1_of(bs),
            b2 == old(self).i2_of(bs),
            old(self).contents_at(b1 as int).len() == old(self).bucket_cap_spec(),
            old(self).contents_at(b2 as int).len() == old(self).bucket_cap_spec(),
        ensures
            final(self).wf(),
            final(self).num_buckets() == old(self).num_buckets(),
            final(self).bucket_cap_spec() == old(self).bucket_cap_spec(),
            final(self).base_spec() == old(self).base_spec(),
            !(r is Fail),
            final(self).has_fp(bs),
            r matches InsertResult::Done(i) ==> i < old(self).num_buckets(),
    {
        let mut num = if coin_flip() {
            b1
        } else {
            b2
        };
        let mut vcur = fpr;
        let mut idx: usize = 0;
        proof {
            lemma_sbucket_bound(
                default_hash_of(bs) as i64,
                old(self).num_buckets(),
            );
            lemma_sbucket_bound(
                (old(self).i1_of(bs) as i64) ^ old(self).fp_of(bs),
                old(self).num_buckets(),
            );
        }
        while idx < 512
            invariant
                self.wf(),
                self.num_buckets() == old(self).num_buckets(),
                self.bucket_cap_spec() == old(self).bucket_cap_spec(),
                self.base_spec() == old(self).base_spec(),
                fpr == self.fp_of(bs),
                b1 == self.i1_of(bs),
                b2 == self.i2_of(bs),
                (b1 as int) < self.num_buckets(),
                (b2 as int) < self.num_buckets(),
                (num as int) < self.num_buckets(),
                self.contents_at(num as int).len() == self.bucket_cap_spec(),
                (vcur == fpr && (num == b1 || num == b2)) || self.has_fp(bs),
            decreases 512 - idx,
        {
            let ghost pre = *self;
            match self.table.swap_rand(num, vcur) {
                None => {
                    return InsertResult::Fail("an occupied slot was owed".to_owned());
                }
                Some(next_v) => {
                    proof {
                        let k = choose|k: int|
                            0 <= k < pre.contents_at(num as int).len() && Some(next_v) == Some(
                                pre.contents_at(num as int)[k],
                            ) && self.contents_at(num as int) == pre.contents_at(
                                num as int,
                            ).update(k, vcur);
                        lemma_update_contains(pre.contents_at(num as int), k, vcur, fpr);
                        if vcur == fpr && (num == b1 || num == b2) {
                            assert(self.contents_at(num as int).contains(fpr));
                            assert(self.has_fp(bs));
                        } else {
                            assert(pre.has_fp(bs));
                            if next_v != fpr {
                                if pre.contents_at(num as int).contains(fpr) {
                                    let m = choose|m: int|
                                        0 <= m < pre.contents_at(num as int).len()
                                            && pre.contents_at(num as int)[m] == fpr;
                                    assert(m != k);
                                    assert(self.contents_at(num as int)[m] == fpr);
                                    assert(self.contents_at(num as int).contains(fpr));
                                }
                                assert(self.has_fp(bs));
                            }
                        }
                    }
                    let jn = self.bucket(next_v ^ (num as i64));
                    proof {
                        let lenb = self.num_buckets();
                        let m = (lenb - 1) as i64;
                        let hh = default_hash_of(bs) as i64;
                        lemma_mask_bound(hh, m);
                        lemma_mask_bound((b1 as i64) ^ fpr, m);
                        let nvg = next_v;
                        let nug = num as i64;
                        assert((nvg ^ nug) == (nug ^ nvg)) by (bit_vector);
                        if next_v == fpr && (num == b1 || num == b2) {
                            if num == b1 {
                                assert(b1 as i64 == (hh & m));
                                assert(jn == b2);
                            } else {
                                assert(b1 as i64 == (hh & m));
                                let b1g = b1 as i64;
                                assert(((hh & m) & m) == (hh & m)) by (bit_vector);
                                lemma_partner_symmetry(b1 as i64, fpr, m);
                                assert(b2 as i64 == ((b1 as i64) ^ fpr) & m);
                                assert(jn == b1);
                            }
                        }
                    }
                    let ghost mid = *self;
                    match self.table.insert(jn, next_v) {
                        InsertResult::Full => {
                            idx = idx + 1;
                            vcur = next_v;
                            num = jn;
                        }
                        other => {
                            proof {
                                if mid.has_fp(bs) {
                                    if mid.contents_at(mid.i1_of(bs)).contains(fpr) {
                                        lemma_insert_keeps(
                                            mid.contents_at(mid.i1_of(bs)),
                                            self.contents_at(mid.i1_of(bs)),
                                            next_v,
                                            fpr,
                                        );
                                    } else {
                                        lemma_insert_keeps(
                                            mid.contents_at(mid.i2_of(bs)),
                                            self.contents_at(mid.i2_of(bs)),
                                            next_v,
                                            fpr,
                                        );
                                    }
                                }
                            }
                            return other;
                        }
                    }
                }
            }
        }
        if vcur == fpr {
            let ghost pre2 = *self;
            let victim = self.table.swap_rand(num, vcur);
            proof {
                let j = choose|j: int|
                    0 <= j < pre2.contents_at(num as int).len() && victim == Some(
                        pre2.contents_at(num as int)[j],
                    ) && self.contents_at(num as int) == pre2.contents_at(num as int).update(
                        j,
                        vcur,
                    );
                lemma_update_contains(pre2.contents_at(num as int), j, vcur, fpr);
                assert(self.contents_at(num as int).contains(fpr));
                if !(num == b1 || num == b2) {
                    assert(self.contents_at(b1 as int) == pre2.contents_at(b1 as int));
                    assert(self.contents_at(b2 as int) == pre2.contents_at(b2 as int));
                }
            }
        }
        InsertResult::Full
    }

    /// Whether the value's fingerprint is in either of its candidate
    /// buckets.  A value whose insertion reported Done answers true;
    /// distinct values may collide, so true can be a false positive,
    /// while false is always right.
    pub fn contains(&mut self, val: &T) -> (r: bool)
        requires
            old(self).wf(),
        ensures
            final(self).wf(),
            final(self).num_buckets() == old(self).num_buckets(),
            final(self).bucket_cap_spec() == old(self).bucket_cap_spec(),
            final(self).base_spec() == old(self).base_spec(),
            forall|b: int|
                0 <= b < old(self).num_buckets() ==> final(self).contents_at(b) == old(
                    self,
                ).contents_at(b),
            r == old(self).has_fp(val.bytes_spec()),
    {
        let bytes = val.to_bytes();
        let fpr_opt = crate::fingerprint::Fingerprint::<i64>::calculate(&mut self.fpr, bytes);
        let fpr = match fpr_opt {
            Some(f) => f,
            None => {
                return false;
            }
        };
        let bytes2 = val.to_bytes();
        let hash = find_hash_bytes(&bytes2);
        let h = #[verifier::truncate] (hash as i64);
        let idx = self.bucket(h);
        if self.table.contains(idx, fpr) {
            return true;
        }
        let idx2 = self.bucket((idx as i64) ^ fpr);
        if self.table.contains(idx2, fpr) {
            return true;
        }
        false
    }
}

} // verus!
