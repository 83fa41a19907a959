use vstd::prelude::*;

verus! {

use crate::commit_log::ToBytes;
use crate::cuckoo_filter::CuckooFilter;
use crate::cuckoo_filter::InsertResult;
use crate::cuckoo_filter::is_pow2;

/// One filter under a fixed handler index.
struct Filter<T: ToBytes> {
    delegate: CuckooFilter<T>,
    index: usize,
}

impl<T: ToBytes> Filter<T> {
    /// The underlying filter is well formed and grows in powers of two:
    /// eight slots per bucket, a power-of-two bucket count.
    spec fn wf(&self) -> bool {
        &&& self.delegate.wf()
        &&& self.delegate.bucket_cap_spec() == 8
    }

    /// A filter over `cap` buckets of eight slots.
    fn new(index: usize, cap: usize) -> (r: Filter<T>)
        requires
            is_pow2(cap as u64),
            cap <= usize::MAX / 8,
            cap <= i64::MAX,
        ensures
            r.wf(),
            r.delegate.num_buckets() == cap,
            forall|b: int| 0 <= b < cap ==> r.delegate.contents_at(b) == Seq::<i64>::empty(),
    {
        Filter { index, delegate: CuckooFilter::new(cap) }
    }

    /// Puts the key's fingerprint into the filter.
    fn put(&mut self, k: &T) -> (r: InsertResult)
        requires
            old(self).wf(),
        ensures
            final(self).wf(),
            final(self).delegate.num_buckets() == old(self).delegate.num_buckets(),
            !(r is Fail),
            final(self).delegate.has_fp(k.bytes_spec()),
            old(self).delegate.contents_at(old(self).delegate.i1_of(k.bytes_spec())).len() < 8
                ==> r is Done,
    {
        self.delegate.insert(k)
    }

    /// Reports the handler index when the filter may hold the key.
    fn contains(&mut self, k: &T) -> (r: Option<usize>)
        requires
            old(self).wf(),
        ensures
            final(self).wf(),
            r == (if old(self).delegate.has_fp(k.bytes_spec()) {
                Some(old(self).index)
            } else {
                None::<usize>
            }),
    {
        if self.delegate.contains(k) {
            Some(self.index)
        } else {
            None
        }
    }
}

/// A row of cuckoo filters.  When one runs out of room a fresh filter of
/// twice the slot count is stacked in front of it at the same index; the
/// crowded filter stays behind it and keeps answering for its own
/// fingerprints.
pub struct FilterHandler<T: ToBytes> {
    filters: Vec<Filter<T>>,
}

impl<T: ToBytes> FilterHandler<T> {
    /// Every held filter is well formed.
    pub closed spec fn wf(&self) -> bool {
        forall|i: int| 0 <= i < self.filters@.len() ==> (#[trigger] self.filters@[i]).wf()
    }

    /// The number of filters.
    pub closed spec fn count(&self) -> int {
        self.filters@.len() as int
    }

    /// Whether the filter at an index may hold the byte string.
    pub closed spec fn filter_has(&self, index: int, bs: Seq<u8>) -> bool {
        self.filters@[index].delegate.has_fp(bs)
    }

    /// The bucket count of the filter at an index.
    pub closed spec fn filter_buckets_at(&self, index: int) -> int {
        self.filters@[index].delegate.num_buckets()
    }

    /// An empty handler.
    pub fn new() -> (r: FilterHandler<T>)
        ensures
            r.wf(),
            r.count() == 0,
    {
        FilterHandler { filters: Vec::new() }
    }

    /// Puts a fresh filter of `cap` buckets at the index, shifting later
    /// filters up; the fresh filter holds nothing yet.
    pub fn init_filter(&mut self, index: usize, cap: usize)
        requires
            old(self).wf(),
            index <= old(self).count(),
            is_pow2(cap as u64),
            cap <= usize::MAX / 8,
            cap <= i64::MAX,
        ensures
            final(self).wf(),
            final(self).count() == old(self).count() + 1,
            final(self).filter_buckets_at(index as int) == cap,
            forall|bs: Seq<u8>| !final(self).filter_has(index as int, bs),
            forall|i: int, bs: Seq<u8>|
                0 <= i < index ==> #[trigger] final(self).filter_has(i, bs) == old(
                    self,
                ).filter_has(i, bs),
            forall|i: int, bs: Seq<u8>|
                index < i < final(self).count() ==> #[trigger] final(self).filter_has(i, bs)
                    == old(self).filter_has(i - 1, bs),
    {
        let f = Filter::new(index, cap);
        let ghost fg = f;
        self.filters.insert(index, f);
        proof {
            assert forall|i: int| 0 <= i < self.filters@.len() implies (
            #[trigger] self.filters@[i]).wf() by {
                if i < index {
                    assert(self.filters@[i] == old(self).filters@[i]);
                } else if i > index {
                    assert(self.filters@[i] == old(self).filters@[i - 1]);
                }
            }
            assert forall|bs: Seq<u8>| !self.filter_has(index as int, bs) by {
                assert(self.filters@[index as int] == fg);
                fg.delegate.lemma_empty_holds_nothing(bs);
            }
            assert forall|i: int, bs: Seq<u8>|
                0 <= i < index implies #[trigger] self.filter_has(i, bs) == old(self).filter_has(
                i,
                bs,
            ) by {
                assert(self.filters@[i] == old(self).filters@[i]);
            }
            assert forall|i: int, bs: Seq<u8>|
                index < i < self.filters@.len() implies #[trigger] self.filter_has(i, bs) == old(
                self,
            ).filter_has(i - 1, bs) by {
                assert(self.filters@[i] == old(self).filters@[i - 1]);
            }
        }
    }

    /// Puts a key into the filter at the index.  A filter that reports
    /// Full is left in place and a fresh one of twice its slot count
    /// takes over the index; the key then lands in the fresh filter.
    /// Fail comes only for an index without a filter, or when doubling
    /// would pass the address space; for a growable filter the put is
    /// owed to succeed.
    pub fn add_to_filter(&mut self, index: usize, key: &T) -> (r: InsertResult)
        requires
            old(self).wf(),
        ensures
            final(self).wf(),
            index >= old(self).count() ==> r is Fail,
            r matches InsertResult::Done(i) ==> index < final(self).count()
                && final(self).filter_has(index as int, key.bytes_spec()),
            !(r is Full),
            index < old(self).count() && old(self).filter_buckets_at(index as int)
                <= usize::MAX / 16 ==> r is Done,
            r is Fail ==> (index >= old(self).count() || old(self).filter_buckets_at(
                index as int,
            ) > usize::MAX / 16),
    {
        if index >= self.filters.len() {
            return InsertResult::Fail("the filter with that index does not exist".to_owned());
        }
        let f = &mut self.filters[index];
        let first = f.put(key);
        proof {
            assert forall|i: int| 0 <= i < self.filters@.len() implies (
            #[trigger] self.filters@[i]).wf() by {
                if i != index {
                    assert(self.filters@[i] == old(self).filters@[i]);
                }
            }
        }
        match first {
            InsertResult::Full => {
                let old_buckets = self.filters[index].delegate.num_buckets_exec();
                if old_buckets > usize::MAX / 16 {
                    return InsertResult::Fail(
                        "the filter cannot grow past the address space".to_owned(),
                    );
                }
                let new_cap = old_buckets * 2;
                proof {
                    assert(self.filters@[index as int].wf());
                    let ob = old_buckets as u64;
                    let nb = self.filters@[index as int].delegate.num_buckets();
                    self.filters@[index as int].delegate.lemma_wf_pow2();
                    assert(is_pow2(nb as u64));
                    assert(old_buckets as int == nb);
                    assert((old_buckets as u64) as int == old_buckets as int);
                    assert((nb as u64) as int == nb);
                    assert(ob as int == (nb as u64) as int);
                    assert(ob == nb as u64);
                    assert(ob >= 1 && (ob & (ob - 1) as u64) == 0);
                    assert(is_pow2((2 * ob) as u64) && 2 * ob == (2 * ob) as u64) by (bit_vector)
                        requires
                            ob >= 1 && (ob & (ob - 1) as u64) == 0 && ob
                                <= 0x0fff_ffff_ffff_ffff,
                    ;
                    assert(new_cap as u64 == 2 * ob);
                    assert(is_pow2(new_cap as u64));
                }
                let ghost mid = *self;
                let nf = Filter::new(index, new_cap);
                self.filters.insert(index, nf);
                proof {
                    assert forall|i: int| 0 <= i < self.filters@.len() implies (
                    #[trigger] self.filters@[i]).wf() by {
                        if i < index {
                            assert(self.filters@[i] == mid.filters@[i]);
                        } else if i > index {
                            assert(self.filters@[i] == mid.filters@[i - 1]);
                        }
                    }
                }
                proof {
                    self.filters@[index as int].delegate.lemma_i1_in_range(key.bytes_spec());
                }
                let f2 = &mut self.filters[index];
                let second = f2.put(key);
                proof {
                    assert(second is Done);
                    assert forall|i: int| 0 <= i < self.filters@.len() implies (
                    #[trigger] self.filters@[i]).wf() by {}
                }
                second
            }
            other => other,
        }
    }
}

} // verus!
