use vstd::prelude::*;

verus! {

use crate::commit_log::ToBytes;
use crate::cuckoo_filter::CuckooFilter;
use crate::cuckoo_filter::InsertResult;
use crate::skip_list::SkipList;

/// What putting an entry into the memtable reports: taken, or refused
/// because a limit was reached and the caller must drain first.
#[derive(Debug, PartialEq, Eq, Structural, Clone, Copy)]
pub enum AddResult {
    Done,
    Full,
}

/// The in-memory write path: an ordered map guarded by a cuckoo filter,
/// bounded by an entry count and a byte budget.  A lookup asks the filter
/// first and touches the map only on a possible hit; a put that would
/// pass a limit is refused without being applied.
pub struct MemTable {
    data: SkipList,
    filter: CuckooFilter<u64>,
    items_limit: usize,
    bytes_limit: usize,
    bytes: usize,
}

/// The bytes one entry accounts for: the byte images of its key and its
/// value.
pub open spec fn entry_cost() -> int {
    16
}

impl MemTable {
    /// The parts are well formed and the byte account stays within its
    /// budget.
    pub closed spec fn wf(&self) -> bool {
        &&& self.data.wf()
        &&& self.filter.wf()
        &&& self.bytes == entry_cost() * self.data.size_spec()
        &&& self.bytes <= self.bytes_limit
        &&& self.data.size_spec() <= self.items_limit
    }

    /// The map of the entries held.
    pub closed spec fn view_map(&self) -> Map<u64, u64> {
        self.data.view_map()
    }

    /// The number of entries held.
    pub closed spec fn count(&self) -> int {
        self.data.size_spec()
    }

    /// Whether the filter may hold a key.
    pub closed spec fn filter_may_hold(&self, k: u64) -> bool {
        self.filter.has_fp(k.bytes_spec())
    }

    /// The entry limit.
    pub closed spec fn items_limit_spec(&self) -> int {
        self.items_limit as int
    }

    /// The byte budget.
    pub closed spec fn bytes_limit_spec(&self) -> int {
        self.bytes_limit as int
    }

    /// The bytes accounted so far.
    pub closed spec fn bytes_used(&self) -> int {
        self.bytes as int
    }

    /// A fresh entry for this key would pass neither the entry limit nor
    /// the byte budget.
    pub open spec fn room_for(&self, k: u64) -> bool {
        ||| self.view_map().contains_key(k)
        ||| (self.count() < self.items_limit_spec() && self.bytes_limit_spec()
            - self.bytes_used() >= entry_cost())
    }

    /// The key's first candidate bucket in the filter has a free slot.
    pub closed spec fn filter_front_room(&self, k: u64) -> bool {
        self.filter.contents_at(self.filter.i1_of(k.bytes_spec())).len()
            < self.filter.bucket_cap_spec()
    }

    /// A memtable with default table sizes: limits of 4096 entries and
    /// their byte budget.
    pub fn default() -> (r: MemTable)
        ensures
            r.wf(),
            r.view_map() == Map::<u64, u64>::empty(),
            r.count() == 0,
    {
        MemTable::new(4096, 65536)
    }

    /// An empty memtable under the given limits.
    pub fn new(items_limit: usize, bytes_limit: usize) -> (r: MemTable)
        ensures
            r.wf(),
            r.view_map() == Map::<u64, u64>::empty(),
            r.count() == 0,
    {
        proof {
            assert(2usize << 9 == 0x400usize) by (bit_vector);
            assert((0x400u64 & 0x3ffu64) == 0) by (bit_vector);
            assert((0x400u64 - 1) as u64 == 0x3ffu64);
        }
        MemTable {
            data: SkipList::new(),
            filter: CuckooFilter::new(2 << 9),
            items_limit,
            bytes_limit,
            bytes: 0,
        }
    }

    /// Puts an entry in: its fingerprint goes to the filter and the pair
    /// to the ordered map.  A put that would pass the entry or byte limit
    /// is refused without being applied; within the limits, a put is owed
    /// to succeed whenever the filter has a free slot in the key's first
    /// candidate bucket, and can be refused only when it has not.
    pub fn add(&mut self, key: u64, val: u64) -> (r: AddResult)
        requires
            old(self).wf(),
        ensures
            final(self).wf(),
            r == AddResult::Done ==> {
                &&& final(self).view_map() == old(self).view_map().insert(key, val)
                &&& final(self).filter_may_hold(key)
                &&& final(self).count() == old(self).count() + (if old(
                    self,
                ).view_map().contains_key(key) {
                    0int
                } else {
                    1int
                })
            },
            r == AddResult::Full ==> final(self).view_map() == old(self).view_map()
                && final(self).count() == old(self).count() && final(self).bytes_used() == old(
                self,
            ).bytes_used(),
            !old(self).room_for(key) ==> r == AddResult::Full,
            old(self).room_for(key) && old(self).filter_front_room(key) ==> r
                == AddResult::Done,
            r == AddResult::Full ==> (!old(self).room_for(key) || !old(self).filter_front_room(
                key,
            )),
    {
        let is_new = match self.data.search(&key) {
            Some(_) => false,
            None => true,
        };
        if is_new {
            if self.data.size() >= self.items_limit {
                return AddResult::Full;
            }
            if self.bytes_limit - self.bytes < 16 {
                return AddResult::Full;
            }
        }
        match self.filter.insert(&key) {
            InsertResult::Done(_) => {}
            _ => {
                return AddResult::Full;
            }
        }
        let _prev = self.data.insert(key, val);
        if is_new {
            self.bytes = self.bytes + 16;
        }
        AddResult::Done
    }

    /// Looks a key up: a filter miss answers at once, a possible hit
    /// consults the ordered map.
    pub fn find(&mut self, key: &u64) -> (r: Option<u64>)
        requires
            old(self).wf(),
        ensures
            final(self).wf(),
            final(self).view_map() == old(self).view_map(),
            r == (if old(self).filter_may_hold(*key) && old(self).view_map().contains_key(
                *key,
            ) {
                Some(old(self).view_map()[*key])
            } else {
                None::<u64>
            }),
    {
        if !self.filter.contains(key) {
            return None;
        }
        self.data.search(key)
    }

    /// Takes a key out of the ordered map; the filter keeps its
    /// fingerprint and may answer a false positive for it afterwards.
    pub fn remove(&mut self, key: &u64) -> (r: Option<u64>)
        requires
            old(self).wf(),
        ensures
            final(self).wf(),
            final(self).view_map() == old(self).view_map().remove(*key),
            r == (if old(self).view_map().contains_key(*key) {
                Some(old(self).view_map()[*key])
            } else {
                None::<u64>
            }),
    {
        proof {
            if old(self).view_map().contains_key(*key) {
                old(self).data.lemma_contains_key_size(*key);
            }
        }
        let r = self.data.delete(key);
        if r.is_some() {
            self.bytes = self.bytes - 16;
        }
        r
    }
}

} // verus!
