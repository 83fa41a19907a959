use vstd::prelude::*;

verus! {

use crate::entropy::coin_flip;
use vstd::pervasive::VecAdditionalExecFns;

/// One node of the skip list.  Nodes live in an arena and point at each
/// other by index: `prev` and `next` run along one level, `under` descends
/// one level inside the same key's tower.
#[derive(Clone, Copy)]
pub struct Node {
    pub key: u64,
    pub val: u64,
    pub level: usize,
    pub next: Option<usize>,
    pub prev: Option<usize>,
    pub under: Option<usize>,
}

impl Node {
    /// A fresh unlinked node.
    pub fn new(key: u64, val: u64, level: usize) -> (r: Node)
        ensures
            r.key == key,
            r.val == val,
            r.level == level,
            r.next is None,
            r.prev is None,
            r.under is None,
    {
        Node { key, val, level, next: None, prev: None, under: None }
    }
}

/// The head of the list: the arena slot of the top node of the smallest
/// key's tower, which reaches the highest level.
pub struct Head {
    pub next: Option<usize>,
}

impl Head {
    /// A head aimed at the given slot.
    pub fn new(next: Option<usize>) -> (r: Head)
        ensures
            r.next == next,
    {
        Head { next }
    }

    /// A head of an empty list.
    pub fn empty() -> (r: Head)
        ensures
            r.next is None,
    {
        Head { next: None }
    }
}

/// Draws tower heights from a geometric distribution with parameter one
/// half: each extra level takes one more won coin flip.
pub struct LevelGenerator {
    p_half: bool,
}

impl LevelGenerator {
    /// A fresh generator.
    pub fn new() -> LevelGenerator {
        LevelGenerator { p_half: true }
    }

    /// A height in `[0, total)`, geometrically distributed; 0 when no
    /// levels are available.
    pub fn random(&self, total: usize) -> (r: usize)
        ensures
            total >= 1 ==> r < total,
            total == 0 ==> r == 0,
    {
        let mut height: usize = 0;
        while height + 1 < total
            invariant
                total >= 1 ==> height < total,
                total == 0 ==> height == 0,
            decreases total - height,
        {
            if !coin_flip() {
                break ;
            }
            height = height + 1;
        }
        height
    }
}

/// The number of times the capacity can be halved before reaching one:
/// the floor of its base-2 logarithm.
pub open spec fn flog2(n: int) -> int
    decreases n,
{
    if n < 2 {
        0
    } else {
        1 + flog2(n / 2)
    }
}

/// The logarithm is non-negative and grows slower than its argument.
proof fn lemma_flog2_bounds(n: int)
    requires
        n >= 1,
    ensures
        0 <= flog2(n),
        n >= 2 ==> flog2(n) < n,
    decreases n,
{
    if n >= 2 {
        lemma_flog2_bounds(n / 2);
    }
}

/// An ordered map from keys to values: a multi-level skip list over an
/// arena of nodes.  Level 1 holds every key in ascending order; each
/// higher level is a sparser index over the one below.  The smallest
/// key's tower always reaches the top level and the head points at its
/// top node.
pub struct SkipList {
    nodes: Vec<Node>,
    head: Head,
    levels: usize,
    size: usize,
    generator: LevelGenerator,
    chains: Ghost<Seq<Seq<int>>>,
}

impl SkipList {
    /// The node at an arena slot.
    pub closed spec fn nd(&self, i: int) -> Node {
        self.nodes@[i]
    }

    /// The slots of the nodes at level `l + 1`, left to right.
    pub closed spec fn chain(&self, l: int) -> Seq<int> {
        self.chains@[l]
    }

    /// The number of levels.
    pub closed spec fn levels_spec(&self) -> int {
        self.levels as int
    }

    /// The number of keys.
    pub closed spec fn size_spec(&self) -> int {
        self.size as int
    }

    /// One level's chain is well formed: slots valid, levels right,
    /// neighbours mutually linked, keys strictly ascending, and only the
    /// ground level without a tower link below.
    pub closed spec fn chain_wf(&self, l: int) -> bool {
        let c = self.chains@[l];
        &&& forall|t: int| 0 <= t < c.len() ==> 0 <= #[trigger] c[t] < self.nodes@.len()
        &&& forall|t: int| 0 <= t < c.len() ==> (#[trigger] self.nd(c[t])).level == l + 1
        &&& forall|t: int|
            0 <= t < c.len() ==> (#[trigger] self.nd(c[t])).next == (if t + 1 < c.len() {
                Some(c[t + 1] as usize)
            } else {
                None::<usize>
            })
        &&& forall|t: int|
            0 <= t < c.len() ==> (#[trigger] self.nd(c[t])).prev == (if t > 0 {
                Some(c[t - 1] as usize)
            } else {
                None::<usize>
            })
        &&& forall|t1: int, t2: int|
            0 <= t1 < t2 < c.len() ==> self.nd(c[t1]).key < self.nd(c[t2]).key
        &&& l == 0 ==> forall|t: int| 0 <= t < c.len() ==> (#[trigger] self.nd(c[t])).under
            is None
    }

    /// Above the ground, every node's tower link descends to a node of
    /// the same key and value in the chain below.
    pub closed spec fn under_wf(&self, l: int) -> bool {
        let c = self.chains@[l];
        forall|t: int|
            0 <= t < c.len() ==> {
                let u = (#[trigger] self.nd(c[t])).under;
                &&& u is Some
                &&& self.chains@[l - 1].contains(u.unwrap() as int)
                &&& self.nd(u.unwrap() as int).key == self.nd(c[t]).key
                &&& self.nd(u.unwrap() as int).val == self.nd(c[t]).val
            }
    }

    /// A chain is non-empty and led by the smallest key, which owns a
    /// full-height tower.
    pub closed spec fn min_lead(&self, l: int) -> bool {
        &&& self.chains@[l].len() >= 1
        &&& self.nd(self.chains@[l][0]).key == self.nd(self.chains@[0][0]).key
    }

    /// The whole structure is well formed.
    pub closed spec fn wf(&self) -> bool {
        &&& 1 <= self.levels
        &&& self.chains@.len() == self.levels
        &&& forall|l: int| 0 <= l < self.levels ==> self.chain_wf(l)
        &&& forall|l: int| 1 <= l < self.levels ==> self.under_wf(l)
        &&& self.size == self.chains@[0].len()
        &&& self.size <= self.nodes@.len()
        &&& if self.chains@[0].len() == 0 {
            &&& self.head.next is None
            &&& forall|l: int| 0 <= l < self.levels ==> self.chains@[l].len() == 0
        } else {
            &&& self.head.next == Some(self.chains@[self.levels - 1][0] as usize)
            &&& forall|l: int| 0 <= l < self.levels ==> self.min_lead(l)
        }
    }

    /// Whether the map holds a key: it stands in the ground chain.
    pub closed spec fn has_key(&self, k: u64) -> bool {
        exists|t: int| 0 <= t < self.chains@[0].len() && self.nd(self.chains@[0][t]).key == k
    }

    /// The position of a key in the ground chain.
    pub closed spec fn key_pos(&self, k: u64) -> int {
        choose|t: int| 0 <= t < self.chains@[0].len() && self.nd(self.chains@[0][t]).key == k
    }

    /// The value stored under a key.
    pub closed spec fn val_of(&self, k: u64) -> u64 {
        self.nd(self.chains@[0][self.key_pos(k)]).val
    }

    /// The map the list denotes.
    pub open spec fn view_map(&self) -> Map<u64, u64> {
        Map::new(|k: u64| self.has_key(k), |k: u64| self.val_of(k))
    }

    /// A list sized for the default expected capacity.
    pub fn new() -> (r: SkipList)
        ensures
            r.wf(),
            r.view_map() == Map::<u64, u64>::empty(),
            r.size_spec() == 0,
    {
        proof {
            assert(2usize << 16 == 0x20000usize) by (bit_vector);
        }
        SkipList::with_capacity(2 << 16)
    }

    /// A list whose level count is the base-2 logarithm of the expected
    /// capacity.
    pub fn with_capacity(exp_cap: usize) -> (r: SkipList)
        requires
            exp_cap >= 2,
        ensures
            r.wf(),
            r.view_map() == Map::<u64, u64>::empty(),
            r.size_spec() == 0,
            r.levels_spec() == flog2(exp_cap as int),
    {
        proof {
            lemma_flog2_bounds(exp_cap as int);
        }
        let mut levels: usize = 0;
        let mut c: usize = exp_cap;
        while c > 1
            invariant
                exp_cap >= 2,
                levels + flog2(c as int) == flog2(exp_cap as int),
                c >= 1,
                0 <= levels <= flog2(exp_cap as int),
                flog2(exp_cap as int) < exp_cap,
            decreases c,
        {
            proof {
                lemma_flog2_bounds(c as int);
            }
            c = c / 2;
            levels = levels + 1;
            proof {
                lemma_flog2_bounds(c as int);
            }
        }
        let ghost ch = Seq::new(levels as nat, |l: int| Seq::<int>::empty());
        let r = SkipList {
            nodes: Vec::new(),
            head: Head::empty(),
            levels,
            size: 0,
            generator: LevelGenerator::new(),
            chains: Ghost(ch),
        };
        proof {
            lemma_flog2_bounds(exp_cap as int / 2);
            assert(flog2(exp_cap as int) == 1 + flog2(exp_cap as int / 2));
            assert(levels >= 1);
            assert(r.chains@ == ch);
            assert forall|l: int| 0 <= l < levels implies r.chains@[l].len() == 0 by {
                assert(ch[l] == Seq::<int>::empty());
            }
            assert(r.chains@[0].len() == 0);
            assert forall|k: u64| !r.has_key(k) by {
                assert(r.chains@[0].len() == 0);
            }
            assert(r.view_map() =~= Map::<u64, u64>::empty());
        }
        r
    }

    /// The number of levels.
    pub fn levels(&self) -> (r: usize)
        ensures
            r == self.levels_spec(),
    {
        self.levels
    }

    /// A held key means at least one entry.
    pub proof fn lemma_contains_key_size(&self, k: u64)
        requires
            self.wf(),
            self.view_map().contains_key(k),
        ensures
            self.size_spec() >= 1,
    {
    }

    /// The number of keys.
    pub fn size(&self) -> (r: usize)
        ensures
            r == self.size_spec(),
    {
        self.size
    }

    /// Empties the list.
    pub fn clear(&mut self)
        requires
            old(self).wf(),
        ensures
            final(self).wf(),
            final(self).view_map() == Map::<u64, u64>::empty(),
            final(self).size_spec() == 0,
            final(self).levels_spec() == old(self).levels_spec(),
    {
        self.head = Head::empty();
        self.nodes = Vec::new();
        self.size = 0;
        proof {
            let ch = Seq::new(self.levels as nat, |l: int| Seq::<int>::empty());
            self.chains@ = ch;
            assert forall|l: int| 0 <= l < self.levels implies self.chains@[l].len() == 0 by {
                assert(ch[l] == Seq::<int>::empty());
            }
            assert forall|k: u64| !self.has_key(k) by {
                assert(self.chains@[0].len() == 0);
            }
            assert(self.view_map() =~= Map::<u64, u64>::empty());
        }
    }
}


/// How the search arrived at the current node: from the head at the
/// start, from the left or right neighbour, or from the level above.
pub enum PrevSearchStep {
    FromAbove,
    FromLeft,
    FromRight,
    FromHead,
}

/// One step of the search: move along the level, drop a level, back up,
/// or finish.
pub enum SearchResult {
    Forward(usize),
    Backward(usize),
    Down(usize),
    Found(u64),
    NotFound,
}

impl SkipList {
    /// Whether a level's chain holds a key.
    pub closed spec fn chain_has_key(&self, l: int, k: u64) -> bool {
        exists|t: int| 0 <= t < self.chains@[l].len() && self.nd(self.chains@[l][t]).key == k
    }

    /// A node's value agrees with the ground value of its key: tower
    /// links copy values downward.
    proof fn lemma_val_coherent(&self, l: int, t: int)
        requires
            self.wf(),
            0 <= l < self.levels_spec(),
            0 <= t < self.chains@[l].len(),
        ensures
            self.has_key(self.nd(self.chains@[l][t]).key),
            self.val_of(self.nd(self.chains@[l][t]).key) == self.nd(self.chains@[l][t]).val,
        decreases l,
    {
        let c = self.chains@[l];
        let k = self.nd(c[t]).key;
        assert(self.chain_wf(l));
        if l == 0 {
            assert(0 <= t < self.chains@[0].len() && self.nd(self.chains@[0][t]).key == k);
            assert(self.has_key(k));
            let t2 = self.key_pos(k);
            assert(0 <= t2 < self.chains@[0].len() && self.nd(self.chains@[0][t2]).key == k);
            if t2 < t {
                assert(self.nd(c[t2]).key < self.nd(c[t]).key);
            }
            if t2 > t {
                assert(self.nd(c[t]).key < self.nd(c[t2]).key);
            }
        } else {
            assert(self.under_wf(l));
            let u = self.nd(c[t]).under.unwrap() as int;
            let c2 = self.chains@[l - 1];
            assert(c2.contains(u));
            let tu = choose|tu: int| #![auto] 0 <= tu < c2.len() && c2[tu] == u;
            self.lemma_val_coherent(l - 1, tu);
            assert(self.nd(u).key == k);
            assert(self.nd(u).val == self.nd(c[t]).val);
        }
    }

    /// One comparison step of the skip-list descent, against the node at
    /// `cur`.
    fn compare(&self, cur: usize, key: u64, prev_step: &PrevSearchStep) -> (r: SearchResult)
        requires
            self.wf(),
            cur < self.nodes@.len(),
            self.nd(cur as int).prev matches Some(p) ==> p < self.nodes@.len(),
        ensures
            (match r {
                SearchResult::Found(v) => self.nd(cur as int).key == key && v == self.nd(
                    cur as int,
                ).val,
                SearchResult::Forward(nx) => self.nd(cur as int).key < key && self.nd(
                    cur as int,
                ).next == Some(nx),
                SearchResult::Backward(p) => self.nd(cur as int).key > key && self.nd(
                    cur as int,
                ).prev == Some(p) && (prev_step is FromAbove || prev_step is FromRight),
                SearchResult::Down(u) => {
                    ||| (self.nd(cur as int).key < key && self.nd(cur as int).next is None
                        && self.nd(cur as int).under == Some(u))
                    ||| (self.nd(cur as int).key > key && (match self.nd(cur as int).prev {
                        Some(p) => prev_step is FromLeft && self.nd(p as int).under == Some(u),
                        None => self.nd(cur as int).under == Some(u),
                    }))
                },
                SearchResult::NotFound => {
                    ||| (self.nd(cur as int).key < key && self.nd(cur as int).next is None
                        && self.nd(cur as int).under is None)
                    ||| (self.nd(cur as int).key > key && (match self.nd(cur as int).prev {
                        Some(p) => (prev_step is FromLeft && self.nd(p as int).under is None)
                            || prev_step is FromHead,
                        None => self.nd(cur as int).under is None,
                    }))
                },
            }),
    {
        let n_key = self.nodes[cur].key;
        let n_val = self.nodes[cur].val;
        if n_key == key {
            return SearchResult::Found(n_val);
        }
        if n_key < key {
            match (self.nodes[cur].next, self.nodes[cur].under) {
                (Some(nx), _) => SearchResult::Forward(nx),
                (None, Some(u)) => SearchResult::Down(u),
                (None, None) => SearchResult::NotFound,
            }
        } else {
            match self.nodes[cur].prev {
                Some(p) => match (self.nodes[p].under, prev_step) {
                    (Some(pu), PrevSearchStep::FromLeft) => SearchResult::Down(pu),
                    (_, PrevSearchStep::FromAbove) => SearchResult::Backward(p),
                    (_, PrevSearchStep::FromRight) => SearchResult::Backward(p),
                    (_, _) => SearchResult::NotFound,
                },
                None => match self.nodes[cur].under {
                    Some(u) => SearchResult::Down(u),
                    None => SearchResult::NotFound,
                },
            }
        }
    }

    /// Looks a key up, starting from the head's node and following the
    /// descent rules.
    pub fn search(&self, key: &u64) -> (r: Option<u64>)
        requires
            self.wf(),
        ensures
            r == (if self.view_map().contains_key(*key) {
                Some(self.view_map()[*key])
            } else {
                None::<u64>
            }),
    {
        match self.head.next {
            Some(n) => self.search_in(n, *key),
            None => {
                proof {
                    assert(!self.has_key(*key));
                }
                None
            }
        }
    }

    /// The descent itself, from the top node of the smallest key's tower.
    fn search_in(&self, node: usize, key: u64) -> (r: Option<u64>)
        requires
            self.wf(),
            self.chains@[0].len() > 0,
            self.head.next == Some(node),
        ensures
            r == (if self.view_map().contains_key(key) {
                Some(self.view_map()[key])
            } else {
                None::<u64>
            }),
    {
        // Reading the length pins the arena below the address bound.
        let nlen = self.nodes.len();
        let mut curr_node = node;
        let mut prev_step = PrevSearchStep::FromHead;
        let ghost mut lvl: int = self.levels_spec() - 1;
        let ghost mut pos: int = 0;
        proof {
            assert(self.nodes@.len() <= usize::MAX);
            assert(self.min_lead(self.levels_spec() - 1));
            assert(self.chain_wf(self.levels_spec() - 1));
            assert(node == self.chains@[self.levels_spec() - 1][0]);
        }
        loop
            invariant
                self.wf(),
                self.nodes@.len() <= usize::MAX,
                self.chains@[0].len() > 0,
                0 <= lvl < self.levels_spec(),
                0 <= pos < self.chains@[lvl].len(),
                curr_node == self.chains@[lvl][pos],
                !(prev_step is FromRight),
                prev_step is FromHead ==> pos == 0,
                prev_step is FromLeft ==> pos > 0 && self.nd(self.chains@[lvl][pos - 1]).key
                    < key,
                prev_step is FromAbove ==> (self.nd(curr_node as int).key < key || pos == 0),
            decreases lvl, self.chains@[lvl].len() - pos,
        {
            proof {
                assert(self.chain_wf(lvl));
                assert(0 <= self.chains@[lvl][pos] < self.nodes@.len());
                if pos > 0 {
                    assert(self.nd(curr_node as int).prev == Some(
                        self.chains@[lvl][pos - 1] as usize,
                    ));
                    assert(0 <= self.chains@[lvl][pos - 1] < self.nodes@.len());
                }
            }
            match self.compare(curr_node, key, &prev_step) {
                SearchResult::NotFound => {
                    proof {
                        self.lemma_not_found(lvl, pos, key, &prev_step, curr_node);
                    }
                    return None;
                }
                SearchResult::Found(v) => {
                    proof {
                        self.lemma_val_coherent(lvl, pos);
                    }
                    return Some(v);
                }
                SearchResult::Backward(p) => {
                    proof {
                        if prev_step is FromAbove {
                            assert(pos == 0);
                            assert(self.nd(curr_node as int).prev is None);
                        }
                        assert(false);
                    }
                    curr_node = p;
                    prev_step = PrevSearchStep::FromRight;
                }
                SearchResult::Forward(n) => {
                    proof {
                        assert(pos + 1 < self.chains@[lvl].len() && n == self.chains@[lvl][pos
                            + 1]) by {
                            assert(self.nd(self.chains@[lvl][pos] as int).next == (if pos + 1
                                < self.chains@[lvl].len() {
                                Some(self.chains@[lvl][pos + 1] as usize)
                            } else {
                                None::<usize>
                            }));
                        }
                        pos = pos + 1;
                    }
                    curr_node = n;
                    prev_step = PrevSearchStep::FromLeft;
                }
                SearchResult::Down(n) => {
                    proof {
                        self.lemma_down_step(lvl, pos, key, &prev_step, curr_node, n);
                        lvl = lvl - 1;
                        let c2 = self.chains@[lvl];
                        if self.nd(n as int).key < key {
                            pos = choose|t: int| #![auto] 0 <= t < c2.len() && c2[t] == n;
                        } else {
                            pos = 0;
                        }
                    }
                    curr_node = n;
                    prev_step = PrevSearchStep::FromAbove;
                }
            }
        }
    }

    /// A failed comparison really means the key is absent: each of the
    /// three stopping cases pins the key between ground neighbours or
    /// outside the ground range.
    #[verifier::rlimit(50)]
    proof fn lemma_not_found(
        &self,
        lvl: int,
        pos: int,
        key: u64,
        prev_step: &PrevSearchStep,
        cur: usize,
    )
        requires
            self.wf(),
            self.nodes@.len() <= usize::MAX,
            0 <= lvl < self.levels_spec(),
            0 <= pos < self.chains@[lvl].len(),
            cur == self.chains@[lvl][pos],
            !(prev_step is FromRight),
            prev_step is FromHead ==> pos == 0,
            prev_step is FromLeft ==> pos > 0 && self.nd(self.chains@[lvl][pos - 1]).key < key,
            ({
                ||| (self.nd(cur as int).key < key && self.nd(cur as int).next is None
                    && self.nd(cur as int).under is None)
                ||| (self.nd(cur as int).key > key && (match self.nd(cur as int).prev {
                    Some(p) => (prev_step is FromLeft && self.nd(p as int).under is None)
                        || prev_step is FromHead,
                    None => self.nd(cur as int).under is None,
                }))
            }),
        ensures
            !self.has_key(key),
            lvl == 0,
            self.window_at(0, pos, key),
    {
        let c = self.chains@[lvl];
        let n = self.nd(cur as int);
        assert(self.chain_wf(lvl));
        assert(self.chain_wf(0));
        if n.key < key && n.next is None && n.under is None {
            if lvl != 0 {
                assert(self.under_wf(lvl));
                assert(self.nd(c[pos]).under is Some);
                assert(false);
            }
            assert(lvl == 0);
            assert(pos == c.len() - 1);
            if self.has_key(key) {
                let t = choose|t: int| #![auto]
                    0 <= t < self.chains@[0].len() && self.nd(self.chains@[0][t]).key == key;
                if t < pos {
                    assert(self.nd(c[t]).key < self.nd(c[pos]).key);
                }
            }
        } else {
            assert(n.key > key);
            match n.prev {
                Some(p) => {
                    if prev_step is FromHead {
                        assert(pos == 0);
                        assert(n.prev is None);
                        assert(false);
                    }
                    assert(prev_step is FromLeft && self.nd(p as int).under is None);
                    assert(pos > 0);
                    assert(p == c[pos - 1] as usize);
                    if lvl != 0 {
                        assert(self.under_wf(lvl));
                        assert(self.nd(c[pos - 1]).under is Some);
                        assert(false);
                    }
                    assert(lvl == 0);
                    assert(self.nd(c[pos - 1]).key < key);
                    if self.has_key(key) {
                        let t = choose|t: int| #![auto]
                            0 <= t < self.chains@[0].len() && self.nd(self.chains@[0][t]).key
                                == key;
                        if t <= pos - 1 {
                            if t < pos - 1 {
                                assert(self.nd(c[t]).key < self.nd(c[pos - 1]).key);
                            }
                        } else {
                            if t > pos {
                                assert(self.nd(c[pos]).key < self.nd(c[t]).key);
                            }
                        }
                    }
                }
                None => {
                    assert(n.under is None);
                    if lvl != 0 {
                        assert(self.under_wf(lvl));
                        assert(self.nd(c[pos]).under is Some);
                        assert(false);
                    }
                    assert(lvl == 0);
                    assert(pos == 0);
                    if self.has_key(key) {
                        let t = choose|t: int| #![auto]
                            0 <= t < self.chains@[0].len() && self.nd(self.chains@[0][t]).key
                                == key;
                        if t > 0 {
                            assert(self.nd(c[0]).key < self.nd(c[t]).key);
                        }
                    }
                }
            }
        }
    }

    /// A downward step lands in the chain one level below, on a node
    /// whose key is still below the target or that leads the chain.
    #[verifier::rlimit(100)]
    #[verifier::spinoff_prover]
    proof fn lemma_down_step(
        &self,
        lvl: int,
        pos: int,
        key: u64,
        prev_step: &PrevSearchStep,
        cur: usize,
        u: usize,
    )
        requires
            self.wf(),
            self.nodes@.len() <= usize::MAX,
            0 <= lvl < self.levels_spec(),
            0 <= pos < self.chains@[lvl].len(),
            cur == self.chains@[lvl][pos],
            prev_step is FromLeft ==> pos > 0 && self.nd(self.chains@[lvl][pos - 1]).key < key,
            ({
                ||| (self.nd(cur as int).key < key && self.nd(cur as int).next is None
                    && self.nd(cur as int).under == Some(u))
                ||| (self.nd(cur as int).key > key && (match self.nd(cur as int).prev {
                    Some(p) => prev_step is FromLeft && self.nd(p as int).under == Some(u),
                    None => self.nd(cur as int).under == Some(u),
                }))
            }),
        ensures
            lvl >= 1,
            self.chains@[lvl - 1].contains(u as int),
            self.nd(u as int).key < key || (self.chains@[lvl - 1].len() > 0 && self.chains@[lvl
                - 1][0] == u),
            !self.chain_has_key(lvl, key),
    {
        let c = self.chains@[lvl];
        let n = self.nd(cur as int);
        assert(self.chain_wf(lvl));
        if lvl >= 1 {
            assert(self.chain_wf(lvl - 1));
        }
        if n.key < key && n.next is None && n.under == Some(u) {
            if lvl == 0 {
                assert(self.nd(c[pos]).under is None);
                assert(false);
            }
            assert(lvl >= 1);
            assert(self.under_wf(lvl));
            assert(self.nd(c[pos]).under == Some(u));
            let c2 = self.chains@[lvl - 1];
            assert(c2.contains(u as int));
            assert(self.nd(u as int).key == n.key < key);
            assert(pos == c.len() - 1);
            if self.chain_has_key(lvl, key) {
                let tk = choose|tk: int| #![auto] 0 <= tk < c.len() && self.nd(c[tk]).key == key;
                if tk < pos {
                    assert(self.nd(c[tk]).key < self.nd(c[pos]).key);
                }
            }
        } else {
            assert(n.key > key);
            match n.prev {
                Some(p) => {
                    assert(pos > 0);
                    assert(p == c[pos - 1] as usize);
                    if lvl == 0 {
                        assert(self.nd(c[pos - 1]).under is None);
                        assert(false);
                    }
                    assert(lvl >= 1);
                    assert(self.under_wf(lvl));
                    assert(self.nd(c[pos - 1]).under == Some(u));
                    let c2 = self.chains@[lvl - 1];
                    assert(c2.contains(u as int));
                    assert(self.nd(u as int).key == self.nd(c[pos - 1]).key < key);
                    if self.chain_has_key(lvl, key) {
                        let tk = choose|tk: int| #![auto]
                            0 <= tk < c.len() && self.nd(c[tk]).key == key;
                        if tk < pos - 1 {
                            assert(self.nd(c[tk]).key < self.nd(c[pos - 1]).key);
                        }
                        if tk > pos {
                            assert(self.nd(c[pos]).key < self.nd(c[tk]).key);
                        }
                    }
                }
                None => {
                    assert(pos == 0);
                    if lvl == 0 {
                        assert(self.nd(c[pos]).under is None);
                        assert(false);
                    }
                    assert(lvl >= 1);
                    assert(self.under_wf(lvl));
                    assert(self.nd(c[pos]).under == Some(u));
                    let c2 = self.chains@[lvl - 1];
                    assert(c2.contains(u as int));
                    let t = choose|t: int| #![auto] 0 <= t < c2.len() && c2[t] == u as int;
                    assert(self.nd(u as int).key == n.key);
                    if self.chain_has_key(lvl, key) {
                        let tk = choose|tk: int| #![auto]
                            0 <= tk < c.len() && self.nd(c[tk]).key == key;
                        if tk > 0 {
                            assert(self.nd(c[0]).key < self.nd(c[tk]).key);
                        }
                    }
                    assert(self.min_lead(lvl));
                    assert(self.min_lead(lvl - 1));
                    assert(n.key == self.nd(self.chains@[0][0]).key);
                    assert(self.nd(self.chains@[lvl - 1][0]).key == self.nd(
                        self.chains@[0][0],
                    ).key);
                    if t != 0 {
                        assert(self.nd(self.chains@[lvl - 1][0]).key < self.nd(
                            self.chains@[lvl - 1][t],
                        ).key);
                    }
                }
            }
        }
    }
}


impl SkipList {
    /// A node can anchor the key at `(l, t)`: the key belongs directly
    /// after it when the node's key is smaller (then it is the last), or
    /// directly before it when larger (then its left neighbour, if any,
    /// is smaller).
    pub closed spec fn window_at(&self, l: int, t: int, k: u64) -> bool {
        let c = self.chains@[l];
        &&& 0 <= t < c.len()
        &&& ((self.nd(c[t]).key < k && t == c.len() - 1) || (self.nd(c[t]).key > k && (t == 0
            || self.nd(c[t - 1]).key < k)))
    }

    /// A node of the chain at level `l` that anchors the key there.
    pub closed spec fn anchor_ok(&self, l: int, e: usize, k: u64) -> bool {
        exists|t: int| #![auto] self.chains@[l][t] == e && self.window_at(l, t, k)
    }

    /// Every remembered descent node anchors the key at its level.
    pub closed spec fn path_ok(&self, path: Seq<usize>, k: u64) -> bool {
        forall|j: int|
            #![trigger path[j]]
            0 <= j < path.len() ==> self.anchor_ok(self.levels_spec() - 1 - j, path[j], k)
    }

    /// Overwrites the value of every node in a key's tower, whose top
    /// node is given; hands back the value replaced.
    #[verifier::rlimit(80)]
    fn overwrite_tower(
        &mut self,
        top: usize,
        val: u64,
        Ghost(lvl): Ghost<int>,
        Ghost(pos): Ghost<int>,
    ) -> (r: u64)
        requires
            old(self).wf(),
            old(self).nodes@.len() <= usize::MAX,
            0 <= lvl < old(self).levels_spec(),
            0 <= pos < old(self).chains@[lvl].len(),
            top == old(self).chains@[lvl][pos],
            forall|l: int|
                lvl < l < old(self).levels_spec() ==> !old(self).chain_has_key(
                    l,
                    old(self).nd(top as int).key,
                ),
        ensures
            final(self).wf(),
            final(self).view_map() == old(self).view_map().insert(
                old(self).nd(top as int).key,
                val,
            ),
            r == old(self).val_of(old(self).nd(top as int).key),
            final(self).size_spec() == old(self).size_spec(),
            final(self).levels_spec() == old(self).levels_spec(),
    {
        let ghost k = old(self).nd(top as int).key;
        proof {
            assert(old(self).chain_wf(lvl));
            old(self).lemma_val_coherent(lvl, pos);
        }
        let old_val = self.nodes[top].val;
        let mut cur = top;
        let ghost mut cl = lvl;
        let ghost mut cpos = pos;
        proof {
            assert forall|l: int, t: int|
                0 <= l < old(self).levels_spec() && lvl < l && 0 <= t < old(
                    self,
                ).chains@[l].len() implies old(self).nd(#[trigger] old(self).chains@[l][t]).key
                != k by {
                if old(self).nd(old(self).chains@[l][t]).key == k {
                    assert(old(self).chain_has_key(l, k));
                }
            }
        }
        loop
            invariant_except_break
                0 <= cl <= lvl,
                0 <= cpos < self.chains@[cl].len(),
                cur == self.chains@[cl][cpos],
                old(self).nd(cur as int).key == k,
                forall|l: int, t: int|
                    0 <= l < old(self).levels_spec() && 0 <= t < self.chains@[l].len() && old(
                        self,
                    ).nd(#[trigger] self.chains@[l][t]).key == k && l > cl ==> self.nd(
                        self.chains@[l][t],
                    ).val == val,
                forall|l: int, t: int|
                    0 <= l < old(self).levels_spec() && 0 <= t < self.chains@[l].len() && old(
                        self,
                    ).nd(#[trigger] self.chains@[l][t]).key == k && l <= cl ==> self.nd(
                        self.chains@[l][t],
                    ).val == old(self).nd(self.chains@[l][t]).val,
            invariant
                old(self).wf(),
                old(self).nodes@.len() <= usize::MAX,
                self.levels == old(self).levels,
                self.size == old(self).size,
                self.head == old(self).head,
                self.chains@ == old(self).chains@,
                self.nodes@.len() == old(self).nodes@.len(),
                0 <= lvl < old(self).levels_spec(),
                forall|l: int, t: int|
                    0 <= l < old(self).levels_spec() && lvl < l && 0 <= t < old(
                        self,
                    ).chains@[l].len() ==> old(self).nd(#[trigger] old(self).chains@[l][t]).key
                        != k,
                forall|i: int|
                    0 <= i < self.nodes@.len() ==> {
                        let a = #[trigger] self.nd(i);
                        let b = old(self).nd(i);
                        a.key == b.key && a.level == b.level && a.next == b.next && a.prev
                            == b.prev && a.under == b.under && (a.val == b.val || (b.key == k
                            && a.val == val))
                    },
            ensures
                self.levels == old(self).levels,
                self.size == old(self).size,
                self.head == old(self).head,
                self.chains@ == old(self).chains@,
                self.nodes@.len() == old(self).nodes@.len(),
                forall|i: int|
                    0 <= i < self.nodes@.len() ==> {
                        let a = #[trigger] self.nd(i);
                        let b = old(self).nd(i);
                        a.key == b.key && a.level == b.level && a.next == b.next && a.prev
                            == b.prev && a.under == b.under && (a.val == b.val || (b.key == k
                            && a.val == val))
                    },
                forall|l: int, t: int|
                    0 <= l < old(self).levels_spec() && 0 <= t < self.chains@[l].len() && old(
                        self,
                    ).nd(#[trigger] self.chains@[l][t]).key == k ==> self.nd(
                        self.chains@[l][t],
                    ).val == val,
            decreases cl,
        {
            let ghost snap = *self;
            proof {
                assert(old(self).chain_wf(cl));
            }
            let n = self.nodes[cur];
            self.nodes.set(
                cur,
                Node {
                    key: n.key,
                    val,
                    level: n.level,
                    next: n.next,
                    prev: n.prev,
                    under: n.under,
                },
            );
            proof {
                assert forall|l: int, t: int|
                    0 <= l < old(self).levels_spec() && 0 <= t < self.chains@[l].len() && old(
                        self,
                    ).nd(#[trigger] self.chains@[l][t]).key == k && l > cl - 1 implies self.nd(
                        self.chains@[l][t],
                    ).val == val by {
                    let i = self.chains@[l][t];
                    assert(old(self).chain_wf(l));
                    assert(old(self).chain_wf(cl));
                    if i == cur && l != cl {
                        assert(old(self).nd(i).level == l + 1);
                        assert(old(self).nd(cur as int).level == cl + 1);
                    } else if l == cl {
                        if t < cpos {
                            assert(old(self).nd(self.chains@[cl][t]).key < old(self).nd(
                                self.chains@[cl][cpos],
                            ).key);
                        }
                        if t > cpos {
                            assert(old(self).nd(self.chains@[cl][cpos]).key < old(self).nd(
                                self.chains@[cl][t],
                            ).key);
                        }
                        assert(t == cpos);
                        assert(i == cur);
                        assert(self.nd(i).val == val);
                    } else {
                        assert(i != cur);
                        assert(self.nd(i) == snap.nd(i));
                        assert(snap.nd(i).val == val);
                    }
                }
                assert forall|l: int, t: int|
                    0 <= l < old(self).levels_spec() && 0 <= t < self.chains@[l].len() && old(
                        self,
                    ).nd(#[trigger] self.chains@[l][t]).key == k && l <= cl - 1 implies self.nd(
                        self.chains@[l][t],
                    ).val == old(self).nd(self.chains@[l][t]).val by {
                    let i = self.chains@[l][t];
                    assert(old(self).chain_wf(l));
                    assert(old(self).chain_wf(cl));
                    if i == cur {
                        assert(old(self).nd(i).level == l + 1);
                        assert(old(self).nd(cur as int).level == cl + 1);
                        assert(false);
                    }
                    assert(self.nd(i) == snap.nd(i));
                }
            }
            proof {
                assert forall|i: int|
                    0 <= i < self.nodes@.len() implies {
                        let a = #[trigger] self.nd(i);
                        let b = old(self).nd(i);
                        a.key == b.key && a.level == b.level && a.next == b.next && a.prev
                            == b.prev && a.under == b.under && (a.val == b.val || (b.key == k
                            && a.val == val))
                    } by {
                    if i != cur {
                        assert(self.nd(i) == snap.nd(i));
                    } else {
                        assert(self.nd(i).val == val);
                        assert(old(self).nd(i).key == k);
                    }
                }
            }
            match n.under {
                Some(u) => {
                    proof {
                        if cl == 0 {
                            assert(old(self).chain_wf(0));
                            assert(old(self).nd(self.chains@[0][cpos]).under is None);
                            assert(false);
                        }
                        assert(old(self).under_wf(cl));
                        assert(old(self).nd(self.chains@[cl][cpos]).under == Some(u));
                        let c2 = self.chains@[cl - 1];
                        assert(c2.contains(u as int));
                        let tu = choose|tu: int| #![auto] 0 <= tu < c2.len() && c2[tu] == u;
                        cl = cl - 1;
                        cpos = tu;
                    }
                    cur = u;
                }
                None => {
                    proof {
                        if cl != 0 {
                            assert(old(self).under_wf(cl));
                            assert(old(self).nd(self.chains@[cl][cpos]).under is Some);
                            assert(false);
                        }
                    }
                    break ;
                }
            }
        }
        proof {
            let pre = old(self);
            assert forall|l: int| 0 <= l < self.levels implies self.chain_wf(l) by {
                assert(pre.chain_wf(l));
            }
            assert forall|l: int| 1 <= l < self.levels implies self.under_wf(l) by {
                assert(pre.under_wf(l));
                let c = self.chains@[l];
                assert forall|t: int| 0 <= t < c.len() implies {
                    let u = (#[trigger] self.nd(c[t])).under;
                    &&& u is Some
                    &&& self.chains@[l - 1].contains(u.unwrap() as int)
                    &&& self.nd(u.unwrap() as int).key == self.nd(c[t]).key
                    &&& self.nd(u.unwrap() as int).val == self.nd(c[t]).val
                } by {
                    assert(pre.chain_wf(l));
                    assert(pre.chain_wf(l - 1));
                    let u = pre.nd(c[t]).under.unwrap() as int;
                    assert(self.chains@[l - 1].contains(u));
                    let c2 = self.chains@[l - 1];
                    let tu = choose|tu: int| #![auto] 0 <= tu < c2.len() && c2[tu] == u;
                    if pre.nd(c[t]).key == k {
                        assert(self.nd(c[t]).val == val);
                        assert(self.nd(c2[tu]).val == val);
                    }
                }
            }
            if pre.chains@[0].len() > 0 {
                assert forall|l: int| 0 <= l < self.levels implies self.min_lead(l) by {
                    assert(pre.min_lead(l));
                    assert(pre.chain_wf(l));
                    assert(pre.chain_wf(0));
                    assert(self.nd(self.chains@[l][0]).key == pre.nd(self.chains@[l][0]).key);
                    assert(self.nd(self.chains@[0][0]).key == pre.nd(self.chains@[0][0]).key);
                }
            }
            assert(self.wf());
            assert forall|k2: u64| self.has_key(k2) == pre.has_key(k2) by {
                assert(pre.chain_wf(0));
                if pre.has_key(k2) {
                    let t = choose|t: int|
                        #![auto]
                        0 <= t < pre.chains@[0].len() && pre.nd(pre.chains@[0][t]).key == k2;
                    assert(self.nd(self.chains@[0][t]).key == k2);
                    assert(self.has_key(k2));
                }
                if self.has_key(k2) {
                    let t = choose|t: int|
                        #![auto]
                        0 <= t < self.chains@[0].len() && self.nd(self.chains@[0][t]).key == k2;
                    assert(pre.nd(pre.chains@[0][t]).key == k2);
                    assert(pre.has_key(k2));
                }
            }
            assert forall|k2: u64| #[trigger] self.has_key(k2) implies self.val_of(k2) == (if k2
                == k {
                val
            } else {
                pre.val_of(k2)
            }) by {
                let t2 = self.key_pos(k2);
                assert(0 <= t2 < self.chains@[0].len() && self.nd(self.chains@[0][t2]).key
                    == k2);
                self.lemma_val_coherent(0, t2);
                assert(pre.chain_wf(0));
                let t3 = pre.key_pos(k2);
                assert(0 <= t3 < pre.chains@[0].len() && pre.nd(pre.chains@[0][t3]).key == k2);
                if t3 < t2 {
                    assert(pre.nd(pre.chains@[0][t3]).key < pre.nd(pre.chains@[0][t2]).key);
                }
                if t3 > t2 {
                    assert(pre.nd(pre.chains@[0][t2]).key < pre.nd(pre.chains@[0][t3]).key);
                }
            }
            assert(self.view_map() =~= pre.view_map().insert(k, val));
        }
        old_val
    }
}


impl SkipList {
    /// The first key gets a tower through every level, so that the head
    /// always sits on the smallest key at the top.
    fn insert_first(&mut self, key: u64, val: u64)
        requires
            old(self).wf(),
            old(self).size_spec() == 0,
        ensures
            final(self).wf(),
            final(self).view_map() == old(self).view_map().insert(key, val),
            final(self).size_spec() == 1,
            final(self).levels_spec() == old(self).levels_spec(),
    {
        let nlen0 = self.nodes.len();
        let mut below: Option<usize> = None;
        let mut l: usize = 0;
        while l < self.levels
            invariant
                old(self).wf(),
                old(self).size_spec() == 0,
                self.levels == old(self).levels,
                self.size == old(self).size,
                self.head == old(self).head,
                self.generator == old(self).generator,
                self.chains@.len() == self.levels,
                nlen0 == old(self).nodes@.len(),
                0 <= l <= self.levels,
                self.nodes@.len() == nlen0 + l,
                forall|i: int| 0 <= i < nlen0 ==> self.nd(i) == old(self).nd(i),
                forall|l2: int|
                    0 <= l2 < l ==> self.chains@[l2] =~= seq![nlen0 + l2],
                forall|l2: int|
                    l <= l2 < self.levels ==> self.chains@[l2] == old(self).chains@[l2],
                forall|i: int|
                    nlen0 <= i < nlen0 + l ==> #[trigger] self.nd(i) == (Node {
                        key,
                        val,
                        level: (i - nlen0 + 1) as usize,
                        next: None,
                        prev: None,
                        under: if i == nlen0 {
                            None
                        } else {
                            Some((i - 1) as usize)
                        },
                    }),
                below == (if l == 0 {
                    None
                } else {
                    Some((nlen0 + l - 1) as usize)
                }),
            decreases self.levels - l,
        {
            let ghost snap = *self;
            let ni = self.nodes.len();
            self.nodes.push(Node { key, val, level: l + 1, next: None, prev: None, under: below });
            proof {
                self.chains@ = self.chains@.update(l as int, seq![ni as int]);
                assert(self.chains@[l as int] =~= seq![nlen0 + l]);
                assert forall|i: int| nlen0 <= i < nlen0 + l + 1 implies #[trigger] self.nd(i)
                    == (Node {
                    key,
                    val,
                    level: (i - nlen0 + 1) as usize,
                    next: None,
                    prev: None,
                    under: if i == nlen0 {
                        None
                    } else {
                        Some((i - 1) as usize)
                    },
                }) by {
                    if i < nlen0 + l {
                        assert(self.nd(i) == snap.nd(i));
                    } else {
                        assert(self.nd(i) == Node {
                            key,
                            val,
                            level: (l + 1) as usize,
                            next: None,
                            prev: None,
                            under: below,
                        });
                    }
                }
                assert forall|i: int| 0 <= i < nlen0 implies self.nd(i) == old(self).nd(i) by {
                    assert(self.nd(i) == snap.nd(i));
                }
            }
            below = Some(ni);
            l = l + 1;
        }
        let ghost built = *self;
        self.head = Head::new(below);
        self.size = 1;
        // Reading the length pins the arena below the address bound.
        let nn = self.nodes.len();
        proof {
            let pre = old(self);
            assert(nn == nlen0 + self.levels && nn <= usize::MAX);
            assert(self.nodes@ == built.nodes@);
            assert(self.chains@ == built.chains@);
            assert forall|i: int|
                nlen0 <= i < nlen0 + self.levels implies #[trigger] self.nd(i) == (Node {
                key,
                val,
                level: (i - nlen0 + 1) as usize,
                next: None,
                prev: None,
                under: if i == nlen0 {
                    None
                } else {
                    Some((i - 1) as usize)
                },
            }) by {
                assert(self.nd(i) == built.nd(i));
            }
            assert(self.nodes@.len() == nlen0 + self.levels);
            assert forall|l2: int| 0 <= l2 < self.levels implies self.chain_wf(l2) by {
                assert(self.chains@[l2] =~= seq![nlen0 + l2]);
                assert(self.nodes@.len() == nlen0 + self.levels);
                assert(self.nd(nlen0 + l2).level == l2 + 1);
                assert(self.nd(nlen0 + l2).next is None);
                assert(self.nd(nlen0 + l2).prev is None);
            }
            assert forall|l2: int| 1 <= l2 < self.levels implies self.under_wf(l2) by {
                assert(self.chains@[l2] =~= seq![nlen0 + l2]);
                assert(self.chains@[l2 - 1] =~= seq![nlen0 + l2 - 1]);
                assert(self.chains@[l2 - 1][0] == nlen0 + l2 - 1);
                assert(self.chains@[l2 - 1].contains(nlen0 + l2 - 1));
                assert(self.nd(nlen0 + l2).under == Some((nlen0 + l2 - 1) as usize));
                assert(self.nd(nlen0 + l2 - 1).key == key && self.nd(nlen0 + l2 - 1).val == val);
            }
            assert forall|l2: int| 0 <= l2 < self.levels implies self.min_lead(l2) by {
                assert(self.chains@[l2] =~= seq![nlen0 + l2]);
                assert(self.chains@[0] =~= seq![nlen0 as int]);
            }
            assert(self.chains@[0] =~= seq![nlen0 as int]);
            assert(self.chains@[self.levels - 1] =~= seq![nlen0 + self.levels - 1]);
            assert(self.wf());
            assert(pre.chains@[0].len() == 0);
            assert forall|k2: u64| self.has_key(k2) == (k2 == key) by {
                if self.has_key(k2) {
                    let t = choose|t: int|
                        #![auto]
                        0 <= t < self.chains@[0].len() && self.nd(self.chains@[0][t]).key == k2;
                    assert(self.chains@[0][t] == nlen0);
                }
                if k2 == key {
                    assert(self.nd(self.chains@[0][0]).key == k2);
                }
            }
            assert forall|k2: u64| !pre.has_key(k2) by {}
            assert(self.val_of(key) == val) by {
                let t = self.key_pos(key);
                assert(self.chains@[0][t] == nlen0);
            }
            assert(self.view_map() =~= pre.view_map().insert(key, val));
        }
    }
}


impl SkipList {
    /// Puts a key in or overwrites it: the existing tower's values are
    /// replaced, or a fresh tower of geometric height is linked in level
    /// by level.  A key smaller than every present key gets a full-height
    /// tower, so the head keeps sitting on the smallest key's top.
    /// Returns the value replaced, if one was.
    #[verifier::rlimit(100)]
    #[verifier::spinoff_prover]
    pub fn insert(&mut self, key: u64, val: u64) -> (r: Option<u64>)
        requires
            old(self).wf(),
        ensures
            final(self).wf(),
            final(self).view_map() == old(self).view_map().insert(key, val),
            final(self).levels_spec() == old(self).levels_spec(),
            r == (if old(self).view_map().contains_key(key) {
                Some(old(self).view_map()[key])
            } else {
                None::<u64>
            }),
            final(self).size_spec() == old(self).size_spec() + (if old(
                self,
            ).view_map().contains_key(key) {
                0int
            } else {
                1int
            }),
    {
        let first_opt = self.head.next;
        let first = match first_opt {
            None => {
                proof {
                    assert(old(self).chains@[0].len() == 0);
                    assert(!old(self).has_key(key));
                }
                self.insert_first(key, val);
                return None;
            }
            Some(f) => f,
        };
        let nlen_pre = self.nodes.len();
        let mut curr = first;
        let mut prev_step = PrevSearchStep::FromHead;
        let mut path: Vec<usize> = Vec::new();
        let ghost mut lvl: int = self.levels_spec() - 1;
        let ghost mut pos: int = 0;
        proof {
            assert(self.min_lead(self.levels_spec() - 1));
            assert(self.chain_wf(self.levels_spec() - 1));
        }
        loop
            invariant
                self.wf(),
                *self == *old(self),
                self.nodes@.len() <= usize::MAX,
                nlen_pre == self.nodes@.len(),
                self.chains@[0].len() > 0,
                0 <= lvl < self.levels_spec(),
                0 <= pos < self.chains@[lvl].len(),
                curr == self.chains@[lvl][pos],
                !(prev_step is FromRight),
                prev_step is FromHead ==> pos == 0,
                prev_step is FromLeft ==> pos > 0 && self.nd(self.chains@[lvl][pos - 1]).key
                    < key,
                prev_step is FromAbove ==> (self.nd(curr as int).key < key || pos == 0),
                forall|l: int|
                    lvl < l < self.levels_spec() ==> !self.chain_has_key(l, key),
                path@.len() == (self.levels_spec() - 1) - lvl,
                self.path_ok(path@, key),
            ensures
                *self == *old(self),
                self.nodes@.len() <= usize::MAX,
                self.chains@[0].len() > 0,
                lvl == 0,
                0 <= pos < self.chains@[0].len(),
                curr == self.chains@[0][pos],
                self.window_at(0, pos, key),
                !self.has_key(key),
                path@.len() == self.levels_spec() - 1,
                self.path_ok(path@, key),
            decreases lvl, self.chains@[lvl].len() - pos,
        {
            proof {
                assert(self.chain_wf(lvl));
                assert(0 <= self.chains@[lvl][pos] < self.nodes@.len());
                if pos > 0 {
                    assert(self.nd(curr as int).prev == Some(
                        self.chains@[lvl][pos - 1] as usize,
                    ));
                    assert(0 <= self.chains@[lvl][pos - 1] < self.nodes@.len());
                }
            }
            match self.compare(curr, key, &prev_step) {
                SearchResult::NotFound => {
                    proof {
                        self.lemma_not_found(lvl, pos, key, &prev_step, curr);
                    }
                    break ;
                }
                SearchResult::Found(_) => {
                    proof {
                        assert(self.nd(curr as int).key == key);
                        old(self).lemma_val_coherent(lvl, pos);
                    }
                    let old_val = self.overwrite_tower(curr, val, Ghost(lvl), Ghost(pos));
                    proof {
                        assert(old(self).has_key(key));
                        assert(old(self).view_map().contains_key(key));
                        assert(old(self).view_map()[key] == old(self).val_of(key));
                    }
                    return Some(old_val);
                }
                SearchResult::Backward(p) => {
                    proof {
                        if prev_step is FromAbove {
                            assert(pos == 0);
                            assert(self.nd(curr as int).prev is None);
                        }
                        assert(false);
                    }
                    curr = p;
                    prev_step = PrevSearchStep::FromRight;
                }
                SearchResult::Forward(n) => {
                    proof {
                        assert(pos + 1 < self.chains@[lvl].len() && n == self.chains@[lvl][pos
                            + 1]) by {
                            assert(self.nd(self.chains@[lvl][pos] as int).next == (if pos + 1
                                < self.chains@[lvl].len() {
                                Some(self.chains@[lvl][pos + 1] as usize)
                            } else {
                                None::<usize>
                            }));
                        }
                        pos = pos + 1;
                    }
                    curr = n;
                    prev_step = PrevSearchStep::FromLeft;
                }
                SearchResult::Down(n) => {
                    proof {
                        let oldlvl = lvl;
                        let oldpos = pos;
                        let oldpath = path@;
                        assert(self.window_at(oldlvl, oldpos, key)) by {
                            if self.nd(curr as int).key < key {
                                assert(self.nd(self.chains@[oldlvl][oldpos]).next is None);
                                assert(oldpos == self.chains@[oldlvl].len() - 1);
                            }
                        }
                        assert(self.anchor_ok(oldlvl, curr, key));
                        self.lemma_down_step(lvl, pos, key, &prev_step, curr, n);
                        lvl = lvl - 1;
                        let c2 = self.chains@[lvl];
                        if self.nd(n as int).key < key {
                            pos = choose|t: int| #![auto] 0 <= t < c2.len() && c2[t] == n;
                        } else {
                            pos = 0;
                        }
                        assert forall|j: int|
                            0 <= j < oldpath.push(curr).len() implies self.anchor_ok(
                            self.levels_spec() - 1 - j,
                            oldpath.push(curr)[j],
                            key,
                        ) by {
                            if j < oldpath.len() {
                                assert(oldpath.push(curr)[j] == oldpath[j]);
                            } else {
                                assert(oldpath.push(curr)[j] == curr);
                                assert(self.levels_spec() - 1 - j == oldlvl);
                            }
                        }
                    }
                    path.push(curr);
                    curr = n;
                    prev_step = PrevSearchStep::FromAbove;
                }
            }
        }
        proof {
            assert(lvl == 0);
            assert(!old(self).has_key(key));
            assert(!old(self).view_map().contains_key(key));
            assert(path@.len() == self.levels_spec() - 1);
        }
        proof {
            assert(self.chain_wf(0));
            if self.nd(curr as int).key > key && self.nd(curr as int).prev is None {
                assert(pos == 0);
            }
        }
        let sampled = self.generator.random(self.levels);
        let is_min = self.nodes[curr].key > key && match self.nodes[curr].prev {
            None => true,
            Some(_) => false,
        };
        let ht: usize = if is_min {
            self.levels
        } else {
            sampled + 1
        };
        proof {
            if is_min {
                assert(self.nd(self.chains@[0][0]).key > key);
            } else {
                assert(self.nd(self.chains@[0][0]).key < key) by {
                    if self.nd(curr as int).key < key {
                        if pos > 0 {
                            assert(self.nd(self.chains@[0][0]).key < self.nd(
                                self.chains@[0][pos],
                            ).key);
                        }
                    } else {
                        assert(pos > 0);
                        assert(self.nd(self.chains@[0][pos - 1]).key < key);
                        if pos - 1 > 0 {
                            assert(self.nd(self.chains@[0][0]).key < self.nd(
                                self.chains@[0][pos - 1],
                            ).key);
                        }
                    }
                }
            }
        }
        let ghost pre = *old(self);
        let mut under_opt: Option<usize> = None;
        let mut lt: usize = 0;
        let ghost mut ti0: int = 0;
        let ghost mut n0: int = 0;
        proof {
            assert forall|l: int| 0 <= l < self.levels implies self.chain_wf(l) by {
                assert(old(self).chain_wf(l));
            }
            assert forall|l: int| 1 <= l < self.levels implies self.under_wf(l) by {
                assert(old(self).under_wf(l));
            }
            assert forall|l: int| 0 <= l < self.levels implies self.chains@[l].len() >= 1 by {
                assert(old(self).min_lead(l));
            }
        }
        while lt < ht
            invariant
                pre == *old(self),
                pre.wf(),
                pre.chains@[0].len() > 0,
                !pre.has_key(key),
                1 <= ht <= self.levels,
                is_min ==> ht == self.levels,
                is_min == (pre.nd(pre.chains@[0][0]).key > key),
                0 <= lt <= ht,
                self.levels == pre.levels,
                self.chains@.len() == self.levels,
                self.size == pre.size,
                self.head == pre.head,
                self.nodes@.len() == pre.nodes@.len() + lt,
                self.nodes@.len() <= usize::MAX,
                forall|i: int|
                    0 <= i < pre.nodes@.len() ==> {
                        let a = #[trigger] self.nd(i);
                        let b = pre.nd(i);
                        a.key == b.key && a.val == b.val && a.level == b.level && a.under
                            == b.under
                    },
                forall|l: int|
                    lt <= l < self.levels ==> self.chains@[l] == pre.chains@[l],
                forall|l: int, t: int|
                    lt <= l < self.levels && 0 <= t < self.chains@[l].len() ==> self.nd(
                        #[trigger] self.chains@[l][t],
                    ) == pre.nd(self.chains@[l][t]),
                forall|l: int| 0 <= l < self.levels ==> self.chain_wf(l),
                forall|l: int| 1 <= l < self.levels ==> self.under_wf(l),
                forall|l: int| 0 <= l < self.levels ==> self.chains@[l].len() >= 1,
                !is_min ==> forall|l: int|
                    0 <= l < self.levels ==> #[trigger] self.chains@[l][0] == pre.chains@[l][0],
                is_min ==> forall|l: int|
                    0 <= l < lt ==> self.nd(#[trigger] self.chains@[l][0]).key == key,
                is_min ==> forall|l: int|
                    lt <= l < self.levels ==> #[trigger] self.chains@[l][0]
                        == pre.chains@[l][0],
                (match under_opt {
                    None => lt == 0,
                    Some(u) => {
                        &&& lt >= 1
                        &&& (u as int) < self.nodes@.len()
                        &&& self.chains@[lt - 1].contains(u as int)
                        &&& self.nd(u as int).key == key
                        &&& self.nd(u as int).val == val
                        &&& self.nd(u as int).level == lt
                    },
                }),
                path@.len() == (if lt == 0 {
                    self.levels_spec() - 1
                } else {
                    self.levels_spec() - lt
                }),
                self.path_ok(path@, key),
                lt == 0 ==> 0 <= pos < self.chains@[0].len() && curr == self.chains@[0][pos]
                    && self.window_at(0, pos, key),
                lt >= 1 ==> self.chains@[0] == pre.chains@[0].take(ti0) + seq![n0]
                    + pre.chains@[0].skip(ti0),
                lt >= 1 ==> 0 <= ti0 <= pre.chains@[0].len() && n0 == pre.nodes@.len(),
                lt >= 1 ==> 0 <= n0 < self.nodes@.len() && self.nd(n0).key == key && self.nd(
                    n0,
                ).val == val,
            decreases ht - lt,
        {
            let e: usize;
            let ghost mut te: int = 0;
            if lt == 0 {
                e = curr;
                proof {
                    te = pos;
                }
            } else {
                match path.pop() {
                    Some(x) => {
                        e = x;
                        proof {
                            let j = path@.len() as int;
                            assert(self.anchor_ok(self.levels_spec() - 1 - j, x, key));
                            assert(self.levels_spec() - 1 - j == lt);
                            te = choose|t: int|
                                #![auto]
                                self.chains@[lt as int][t] == x && self.window_at(
                                    lt as int,
                                    t,
                                    key,
                                );
                        }
                    }
                    None => {
                        proof {
                            assert(false);
                        }
                        e = 0;
                    }
                }
            }
            proof {
                if !is_min {
                    assert(self.chains@[lt as int][0] == pre.chains@[lt as int][0]);
                    assert(self.chains@[0][0] == pre.chains@[0][0] || lt == 0);
                    assert(pre.min_lead(lt as int));
                    assert(pre.min_lead(0));
                    assert(pre.chain_wf(lt as int));
                    assert(pre.chain_wf(0));
                    assert(self.nd(pre.chains@[lt as int][0]).key == pre.nd(
                        pre.chains@[lt as int][0],
                    ).key);
                    assert(pre.nd(pre.chains@[0][0]).key < key) by {
                        if pre.nd(pre.chains@[0][0]).key == key {
                            assert(pre.has_key(key));
                        }
                        if pre.nd(pre.chains@[0][0]).key > key {
                            assert(is_min);
                        }
                    }
                    assert(self.nd(self.chains@[lt as int][0]).key < key);
                } else {
                    assert(self.chains@[lt as int][0] == pre.chains@[lt as int][0]);
                    assert(pre.min_lead(lt as int));
                    assert(pre.min_lead(0));
                    assert(pre.chain_wf(lt as int));
                    assert(self.nd(pre.chains@[lt as int][0]).key == pre.nd(
                        pre.chains@[lt as int][0],
                    ).key);
                    assert(self.nd(self.chains@[lt as int][0]).key > key);
                }
            }
            let ghost snap = *self;
            let (ni, ti_g) = self.link_level(
                e,
                key,
                val,
                lt,
                under_opt,
                Ghost(te),
                Ghost(if is_min {
                    true
                } else {
                    false
                }),
            );
            let ghost ti: int = ti_g@;
            proof {
                if lt == 0 {
                    ti0 = ti;
                    n0 = ni as int;
                }
                assert forall|j: int|
                    0 <= j < path@.len() implies self.anchor_ok(
                    self.levels_spec() - 1 - j,
                    path@[j],
                    key,
                ) by {
                    assert(snap.anchor_ok(snap.levels_spec() - 1 - j, path@[j], key));
                    let l2 = snap.levels_spec() - 1 - j;
                    assert(l2 > lt) by {
                        if lt == 0 {
                            assert(j < self.levels_spec() - 1);
                        }
                    }
                    let t2 = choose|t2: int|
                        #![auto]
                        snap.chains@[l2][t2] == path@[j] && snap.window_at(l2, t2, key);
                    assert(self.chains@[l2] == snap.chains@[l2]);
                    assert(self.nd(self.chains@[l2][t2]) == snap.nd(snap.chains@[l2][t2]));
                    if t2 > 0 {
                        assert(self.nd(self.chains@[l2][t2 - 1]) == snap.nd(
                            snap.chains@[l2][t2 - 1],
                        ));
                    }
                    assert(self.window_at(l2, t2, key));
                }
                assert forall|i: int|
                    0 <= i < pre.nodes@.len() implies {
                        let a = #[trigger] self.nd(i);
                        let b = pre.nd(i);
                        a.key == b.key && a.val == b.val && a.level == b.level && a.under
                            == b.under
                    } by {
                    assert(self.nd(i).key == snap.nd(i).key && self.nd(i).val == snap.nd(
                        i,
                    ).val && self.nd(i).level == snap.nd(i).level && self.nd(i).under
                        == snap.nd(i).under);
                }
                assert forall|l: int, t: int|
                    lt + 1 <= l < self.levels && 0 <= t < self.chains@[l].len() implies self.nd(
                    #[trigger] self.chains@[l][t],
                ) == pre.nd(self.chains@[l][t]) by {
                    assert(self.chains@[l] == snap.chains@[l]);
                    assert(self.nd(self.chains@[l][t]) == snap.nd(snap.chains@[l][t]));
                }
                if is_min {
                    assert forall|l: int|
                        0 <= l < lt + 1 implies self.nd(
                        #[trigger] self.chains@[l][0],
                    ).key == key by {
                        if l < lt {
                            assert(snap.nd(snap.chains@[l][0]).key == key);
                            assert(self.chains@[l] == snap.chains@[l]);
                            assert(self.nd(self.chains@[l][0]).key == snap.nd(
                                snap.chains@[l][0],
                            ).key);
                        } else {
                            assert(self.chains@[l][0] == ni as int);
                        }
                    }
                }
                if lt >= 1 {
                    assert(self.chains@[0] == snap.chains@[0]);
                }
            }
            under_opt = Some(ni);
            lt = lt + 1;
        }
        self.finish_insert(Ghost(pre), key, val, is_min, under_opt, Ghost(ti0), Ghost(n0));
        None
    }
}




impl SkipList {
    /// Links one fresh node for the key into the chain at level `lt`,
    /// right at the anchor node `e`: after it when the anchor's key is
    /// smaller (the anchor then ends its chain), before it otherwise.
    /// The fresh node's tower link descends to the key's node one level
    /// down, handed in through `under_opt`.
    #[verifier::rlimit(100)]
    #[verifier::spinoff_prover]
    fn link_level(
        &mut self,
        e: usize,
        key: u64,
        val: u64,
        lt: usize,
        under_opt: Option<usize>,
        Ghost(te): Ghost<int>,
        Ghost(min_mode): Ghost<bool>,
    ) -> (r: (usize, Ghost<int>))
        requires
            old(self).chains@.len() == old(self).levels,
            1 <= old(self).levels,
            (lt as int) < old(self).levels_spec(),
            old(self).nodes@.len() <= usize::MAX,
            forall|l: int| 0 <= l < old(self).levels ==> old(self).chain_wf(l),
            forall|l: int| 1 <= l < old(self).levels ==> old(self).under_wf(l),
            old(self).window_at(lt as int, te, key),
            e == old(self).chains@[lt as int][te],
            (match under_opt {
                None => lt == 0,
                Some(u) => {
                    &&& lt >= 1
                    &&& (u as int) < old(self).nodes@.len()
                    &&& old(self).chains@[lt - 1].contains(u as int)
                    &&& old(self).nd(u as int).key == key
                    &&& old(self).nd(u as int).val == val
                    &&& old(self).nd(u as int).level == lt
                },
            }),
            min_mode ==> old(self).nd(old(self).chains@[lt as int][0]).key > key,
            !min_mode ==> old(self).nd(old(self).chains@[lt as int][0]).key < key,
        ensures
            ({
                let ni = r.0;
                let ti = r.1@;
                let c_old = old(self).chains@[lt as int];
                &&& final(self).levels == old(self).levels
                &&& final(self).chains@.len() == old(self).chains@.len()
                &&& final(self).size == old(self).size
                &&& final(self).head == old(self).head
                &&& ni == old(self).nodes@.len()
                &&& final(self).nodes@.len() == old(self).nodes@.len() + 1
                &&& final(self).nodes@.len() <= usize::MAX
                &&& forall|i: int|
                    0 <= i < old(self).nodes@.len() ==> {
                        let a = #[trigger] final(self).nd(i);
                        let b = old(self).nd(i);
                        a.key == b.key && a.val == b.val && a.level == b.level && a.under
                            == b.under
                    }
                &&& forall|l: int|
                    0 <= l < final(self).levels && l != lt ==> final(self).chains@[l] == old(self).chains@[l]
                &&& forall|l: int, t: int|
                    0 <= l < final(self).levels && l != lt && 0 <= t < final(self).chains@[l].len()
                        ==> final(self).nd(#[trigger] final(self).chains@[l][t]) == old(self).nd(
                        final(self).chains@[l][t],
                    )
                &&& 0 <= ti <= c_old.len()
                &&& final(self).chains@[lt as int] == c_old.take(ti) + seq![ni as int] + c_old.skip(
                    ti,
                )
                &&& (min_mode ==> ti == 0)
                &&& (!min_mode ==> ti >= 1 && final(self).chains@[lt as int][0] == c_old[0])
                &&& forall|l: int| 0 <= l < final(self).levels ==> final(self).chain_wf(l)
                &&& forall|l: int| 1 <= l < final(self).levels ==> final(self).under_wf(l)
                &&& final(self).nd(ni as int).key == key
                &&& final(self).nd(ni as int).val == val
                &&& final(self).nd(ni as int).level == lt + 1
                &&& final(self).chains@[lt as int].contains(ni as int)
            }),
    {
        proof {
            assert(self.chain_wf(lt as int));
        }
        let e_less = self.nodes[e].key < key;
        let left: Option<usize> = if e_less {
            Some(e)
        } else {
            self.nodes[e].prev
        };
        let right: Option<usize> = if e_less {
            None
        } else {
            Some(e)
        };
        let ni = self.nodes.len();
        self.nodes.push(Node { key, val, level: lt + 1, next: right, prev: left, under: under_opt });
        if let Some(lf) = left {
            let n = self.nodes[lf];
            self.nodes.set(
                lf,
                Node {
                    key: n.key,
                    val: n.val,
                    level: n.level,
                    next: Some(ni),
                    prev: n.prev,
                    under: n.under,
                },
            );
        }
        if let Some(rt) = right {
            let n = self.nodes[rt];
            self.nodes.set(
                rt,
                Node {
                    key: n.key,
                    val: n.val,
                    level: n.level,
                    next: n.next,
                    prev: Some(ni),
                    under: n.under,
                },
            );
        }
        // Reading the length pins the arena below the address bound.
        let nl_anchor = self.nodes.len();
        let ghost snap = *old(self);
        let ghost L = lt as int;
        let ghost c_old = snap.chains@[L];
        let ghost ti: int = if e_less {
            te + 1
        } else {
            te
        };
        proof {
            assert(snap.chain_wf(L));
            assert(e as int == c_old[te]);
            assert(snap.nd(c_old[te]).prev == (if te > 0 {
                Some(c_old[te - 1] as usize)
            } else {
                None::<usize>
            }));
            if e_less {
                assert(te == c_old.len() - 1);
            } else {
                if !min_mode {
                    assert(te > 0) by {
                        if te == 0 {
                            assert(snap.nd(c_old[0]).key > key);
                        }
                    }
                } else {
                    assert(te == 0) by {
                        if te > 0 {
                            assert(snap.nd(c_old[te - 1]).key < key);
                            assert(snap.nd(c_old[0]).key > key);
                            if te - 1 > 0 {
                                assert(snap.nd(c_old[0]).key < snap.nd(c_old[te - 1]).key);
                            }
                        }
                    }
                }
            }
            assert(0 <= ti <= c_old.len());
            let c_new = c_old.take(ti) + seq![ni as int] + c_old.skip(ti);
            self.chains@ = self.chains@.update(L, c_new);
            assert(self.nodes@ =~= snap.nodes@.push(
                Node {
                    key,
                    val,
                    level: (L + 1) as usize,
                    next: (if e_less {
                        None
                    } else {
                        Some(e)
                    }),
                    prev: (if e_less {
                        Some(e)
                    } else {
                        snap.nd(e as int).prev
                    }),
                    under: under_opt,
                },
            ).update(
                (if e_less {
                    e as int
                } else if te > 0 {
                    snap.chains@[L][te - 1]
                } else {
                    ni as int
                }),
                (if e_less {
                    Node { next: Some(ni), ..snap.nd(e as int) }
                } else if te > 0 {
                    Node { next: Some(ni), ..snap.nd(snap.chains@[L][te - 1]) }
                } else {
                    Node {
                        key,
                        val,
                        level: (L + 1) as usize,
                        next: Some(e),
                        prev: None,
                        under: under_opt,
                    }
                }),
            ).update(
                (if e_less {
                    ni as int
                } else {
                    e as int
                }),
                (if e_less {
                    Node {
                        key,
                        val,
                        level: (L + 1) as usize,
                        next: None,
                        prev: Some(e),
                        under: under_opt,
                    }
                } else {
                    Node { prev: Some(ni), ..snap.nd(e as int) }
                }),
            ));
            self.lemma_link_post(snap, L, te, ti, ni, e, e_less, key, val, under_opt, min_mode);
        }
        (ni, Ghost(ti))
    }

    /// Everything the splice re-establishes, concluded from the raw
    /// arena and chain changes of one link step.
    #[verifier::rlimit(100)]
    #[verifier::spinoff_prover]
    proof fn lemma_link_post(
        &self,
        snap: SkipList,
        L: int,
        te: int,
        ti: int,
        ni: usize,
        e: usize,
        e_less: bool,
        key: u64,
        val: u64,
        under_opt: Option<usize>,
        min_mode: bool,
    )
        requires
            snap.chains@.len() == snap.levels,
            1 <= snap.levels,
            0 <= L < snap.levels,
            snap.nodes@.len() <= usize::MAX,
            forall|l: int| 0 <= l < snap.levels ==> snap.chain_wf(l),
            forall|l: int| 1 <= l < snap.levels ==> snap.under_wf(l),
            snap.window_at(L, te, key),
            e == snap.chains@[L][te],
            (match under_opt {
                None => L == 0,
                Some(u) => {
                    &&& L >= 1
                    &&& (u as int) < snap.nodes@.len()
                    &&& snap.chains@[L - 1].contains(u as int)
                    &&& snap.nd(u as int).key == key
                    &&& snap.nd(u as int).val == val
                    &&& snap.nd(u as int).level == L
                },
            }),
            min_mode ==> snap.nd(snap.chains@[L][0]).key > key,
            !min_mode ==> snap.nd(snap.chains@[L][0]).key < key,
            e_less == (snap.nd(e as int).key < key),
            e_less ==> te == snap.chains@[L].len() - 1,
            !e_less && !min_mode ==> te > 0,
            !e_less && min_mode ==> te == 0,
            ti == (if e_less {
                te + 1
            } else {
                te
            }),
            ni == snap.nodes@.len(),
            self.levels == snap.levels,
            self.size == snap.size,
            self.head == snap.head,
            self.nodes@.len() == snap.nodes@.len() + 1,
            self.nodes@.len() <= usize::MAX,
            self.nodes@ == snap.nodes@.push(
                Node {
                    key,
                    val,
                    level: (L + 1) as usize,
                    next: (if e_less {
                        None
                    } else {
                        Some(e)
                    }),
                    prev: (if e_less {
                        Some(e)
                    } else {
                        snap.nd(e as int).prev
                    }),
                    under: under_opt,
                },
            ).update(
                (if e_less {
                    e as int
                } else if te > 0 {
                    snap.chains@[L][te - 1]
                } else {
                    ni as int
                }),
                (if e_less {
                    Node { next: Some(ni), ..snap.nd(e as int) }
                } else if te > 0 {
                    Node { next: Some(ni), ..snap.nd(snap.chains@[L][te - 1]) }
                } else {
                    Node {
                        key,
                        val,
                        level: (L + 1) as usize,
                        next: Some(e),
                        prev: None,
                        under: under_opt,
                    }
                }),
            ).update(
                (if e_less {
                    ni as int
                } else {
                    e as int
                }),
                (if e_less {
                    Node {
                        key,
                        val,
                        level: (L + 1) as usize,
                        next: None,
                        prev: Some(e),
                        under: under_opt,
                    }
                } else {
                    Node { prev: Some(ni), ..snap.nd(e as int) }
                }),
            ),
            self.chains@ == snap.chains@.update(
                L,
                snap.chains@[L].take(ti) + seq![ni as int] + snap.chains@[L].skip(ti),
            ),
        ensures
            0 <= ti <= snap.chains@[L].len(),
            forall|i: int|
                0 <= i < snap.nodes@.len() ==> {
                    let a = #[trigger] self.nd(i);
                    let b = snap.nd(i);
                    a.key == b.key && a.val == b.val && a.level == b.level && a.under == b.under
                },
            forall|l: int|
                0 <= l < self.levels && l != L ==> self.chains@[l] == snap.chains@[l],
            forall|l: int, t: int|
                0 <= l < self.levels && l != L && 0 <= t < self.chains@[l].len() ==> self.nd(
                    #[trigger] self.chains@[l][t],
                ) == snap.nd(self.chains@[l][t]),
            min_mode ==> ti == 0,
            !min_mode ==> ti >= 1 && self.chains@[L][0] == snap.chains@[L][0],
            forall|l: int| 0 <= l < self.levels ==> self.chain_wf(l),
            forall|l: int| 1 <= l < self.levels ==> self.under_wf(l),
            self.nd(ni as int).key == key,
            self.nd(ni as int).val == val,
            self.nd(ni as int).level == L + 1,
            self.chains@[L].contains(ni as int),
    {
        let c_old = snap.chains@[L];
        let c_new = c_old.take(ti) + seq![ni as int] + c_old.skip(ti);
        assert(snap.chain_wf(L));
        assert(self.chains@[L] == c_new);
        assert(0 <= c_old[te] < snap.nodes@.len());
        assert(e as int != ni as int);
        if te > 0 {
            assert(0 <= c_old[te - 1] < snap.nodes@.len());
            assert(c_old[te - 1] != c_old[te]);
        }
        assert(snap.nd(c_old[te]).prev == (if te > 0 {
            Some(c_old[te - 1] as usize)
        } else {
            None::<usize>
        }));
        let lf_i: int = if e_less {
            e as int
        } else if te > 0 {
            c_old[te - 1]
        } else {
            -1
        };
        let rt_i: int = if e_less {
            -1
        } else {
            e as int
        };
        assert(self.nd(ni as int) == (Node {
            key,
            val,
            level: (L + 1) as usize,
            next: (if e_less {
                None
            } else {
                Some(e)
            }),
            prev: (if e_less {
                Some(e)
            } else if te > 0 {
                Some(c_old[te - 1] as usize)
            } else {
                None::<usize>
            }),
            under: under_opt,
        }));
        assert forall|i: int|
            0 <= i < snap.nodes@.len() && i != lf_i && i != rt_i implies #[trigger] self.nd(i)
            == snap.nd(i) by {}
        assert(lf_i >= 0 ==> self.nd(lf_i) == (Node { next: Some(ni), ..snap.nd(lf_i) }));
        assert(rt_i >= 0 ==> self.nd(rt_i) == (Node { prev: Some(ni), ..snap.nd(rt_i) }));
        assert forall|i: int|
            0 <= i < snap.nodes@.len() implies (#[trigger] self.nd(i)).key == snap.nd(i).key
            && self.nd(i).val == snap.nd(i).val && self.nd(i).level == snap.nd(i).level
            && self.nd(i).under == snap.nd(i).under by {}
        assert(forall|t: int| 0 <= t < ti ==> #[trigger] c_new[t] == c_old[t]);
        assert(c_new[ti] == ni);
        assert(forall|t: int| ti < t < c_new.len() ==> #[trigger] c_new[t] == c_old[t - 1]);
        self.lemma_link_others(snap, L, ti, ni, lf_i, rt_i);
        self.lemma_link_chain_wf(snap, L, ti, te, ni, e_less, lf_i, rt_i, key, val, under_opt, e);
        assert forall|x: int| c_old.contains(x) implies c_new.contains(x) by {
            let t = choose|t: int| #![auto] 0 <= t < c_old.len() && c_old[t] == x;
            if t < ti {
                assert(c_new[t] == x);
            } else {
                assert(c_new[t + 1] == x);
            }
        }
        assert(c_new.contains(ni as int)) by {
            assert(c_new[ti] == ni);
        }
        self.lemma_link_under_wf(snap, L, ti, ni, key, val, under_opt);
        if !min_mode {
            assert(ti >= 1);
            assert(c_new[0] == c_old[0]);
        }
    }
}


impl SkipList {
    /// After one node is spliced in at `ti`, the rebuilt chain at level
    /// `L` is well formed again.
    #[verifier::rlimit(100)]
    #[verifier::spinoff_prover]
    proof fn lemma_link_chain_wf(
        &self,
        snap: SkipList,
        L: int,
        ti: int,
        te: int,
        ni: usize,
        e_less: bool,
        lf_i: int,
        rt_i: int,
        key: u64,
        val: u64,
        under_opt: Option<usize>,
        e: usize,
    )
        requires
            0 <= L < snap.levels,
            snap.chains@.len() == snap.levels,
            self.chains@.len() == snap.chains@.len(),
            snap.chain_wf(L),
            snap.window_at(L, te, key),
            e == snap.chains@[L][te],
            ti == (if e_less {
                te + 1
            } else {
                te
            }),
            e_less == (snap.nd(e as int).key < key),
            e_less ==> te == snap.chains@[L].len() - 1,
            !e_less ==> (te == 0 || snap.nd(snap.chains@[L][te - 1]).key < key),
            lf_i == (if e_less {
                e as int
            } else if te > 0 {
                snap.chains@[L][te - 1]
            } else {
                -1
            }),
            rt_i == (if e_less {
                -1
            } else {
                e as int
            }),
            ni == snap.nodes@.len(),
            self.nodes@.len() == snap.nodes@.len() + 1,
            self.chains@ == snap.chains@.update(
                L,
                snap.chains@[L].take(ti) + seq![ni as int] + snap.chains@[L].skip(ti),
            ),
            self.levels == snap.levels,
            forall|i: int|
                0 <= i < snap.nodes@.len() && i != lf_i && i != rt_i ==> #[trigger] self.nd(i)
                    == snap.nd(i),
            lf_i >= 0 ==> 0 <= lf_i < snap.nodes@.len() && self.nd(lf_i) == (Node {
                next: Some(ni),
                ..snap.nd(lf_i)
            }),
            rt_i >= 0 ==> 0 <= rt_i < snap.nodes@.len() && self.nd(rt_i) == (Node {
                prev: Some(ni),
                ..snap.nd(rt_i)
            }),
            self.nd(ni as int) == (Node {
                key,
                val,
                level: (L + 1) as usize,
                next: (if e_less {
                    None
                } else {
                    Some(e)
                }),
                prev: (if e_less {
                    Some(e)
                } else if te > 0 {
                    Some(snap.chains@[L][te - 1] as usize)
                } else {
                    None::<usize>
                }),
                under: under_opt,
            }),
            L == 0 ==> under_opt is None,
        ensures
            self.chain_wf(L),
    {
        let c_old = snap.chains@[L];
        let c_new = c_old.take(ti) + seq![ni as int] + c_old.skip(ti);
        assert(self.chains@[L] == c_new);
        assert(e as int == c_old[te]);
        assert(snap.nd(c_old[te]).prev == (if te > 0 {
            Some(c_old[te - 1] as usize)
        } else {
            None::<usize>
        }));
        assert(snap.nd(e as int).prev == (if te > 0 {
            Some(c_old[te - 1] as usize)
        } else {
            None::<usize>
        }));
        assert(forall|t: int| 0 <= t < ti ==> #[trigger] c_new[t] == c_old[t]);
        assert(c_new[ti] == ni);
        assert(forall|t: int| ti < t < c_new.len() ==> #[trigger] c_new[t] == c_old[t - 1]);
        assert forall|t: int|
            0 <= t < c_new.len() implies (#[trigger] self.nd(c_new[t])).level == L + 1 by {}
        assert forall|t: int|
            0 <= t < c_new.len() implies (#[trigger] self.nd(c_new[t])).next == (if t + 1
            < c_new.len() {
            Some(c_new[t + 1] as usize)
        } else {
            None::<usize>
        }) by {
            if t < ti - 1 {
                assert(self.nd(c_new[t]) == snap.nd(c_old[t]));
            } else if t == ti - 1 {
                assert(c_new[t] == lf_i);
            } else if t == ti {
                assert(c_new[t] == ni);
            } else {
                assert(c_new[t] == c_old[t - 1]);
            }
        }
        assert forall|t: int|
            0 <= t < c_new.len() implies (#[trigger] self.nd(c_new[t])).prev == (if t > 0 {
            Some(c_new[t - 1] as usize)
        } else {
            None::<usize>
        }) by {
            if t < ti {
                assert(self.nd(c_new[t]).prev == snap.nd(c_old[t]).prev);
            } else if t == ti {
                assert(c_new[t] == ni);
            } else if t == ti + 1 {
                assert(c_new[t] == rt_i);
            } else {
                assert(self.nd(c_new[t]).prev == snap.nd(c_old[t - 1]).prev);
            }
        }
        assert forall|t1: int, t2: int|
            0 <= t1 < t2 < c_new.len() implies self.nd(c_new[t1]).key < self.nd(
            c_new[t2],
        ).key by {
            if e_less {
                if t2 == ti {
                    assert(self.nd(c_new[t1]).key == snap.nd(c_old[t1]).key);
                    if t1 < te {
                        assert(snap.nd(c_old[t1]).key < snap.nd(c_old[te]).key);
                    }
                }
            } else {
                if t1 == ti {
                    assert(c_new[t2] == c_old[t2 - 1]);
                    if t2 - 1 > te {
                        assert(snap.nd(c_old[te]).key < snap.nd(c_old[t2 - 1]).key);
                    }
                } else if t2 == ti {
                    assert(c_new[t1] == c_old[t1]);
                    assert(te > 0);
                    if t1 < te - 1 {
                        assert(snap.nd(c_old[t1]).key < snap.nd(c_old[te - 1]).key);
                    }
                }
            }
        }
        if L == 0 {
            assert forall|t: int|
                0 <= t < c_new.len() implies (#[trigger] self.nd(c_new[t])).under is None by {
                if t == ti {
                    assert(under_opt is None);
                }
            }
        }
    }

    /// After the splice, every tower still descends onto the chain one
    /// level down.
    #[verifier::rlimit(100)]
    #[verifier::spinoff_prover]
    proof fn lemma_link_under_wf(
        &self,
        snap: SkipList,
        L: int,
        ti: int,
        ni: usize,
        key: u64,
        val: u64,
        under_opt: Option<usize>,
    )
        requires
            0 <= L < snap.levels,
            snap.chains@.len() == snap.levels,
            self.chains@.len() == snap.chains@.len(),
            self.levels == snap.levels,
            forall|l: int| 0 <= l < snap.levels ==> snap.chain_wf(l),
            forall|l: int| 1 <= l < snap.levels ==> snap.under_wf(l),
            0 <= ti <= snap.chains@[L].len(),
            ni == snap.nodes@.len(),
            self.nodes@.len() == snap.nodes@.len() + 1,
            self.chains@ == snap.chains@.update(
                L,
                snap.chains@[L].take(ti) + seq![ni as int] + snap.chains@[L].skip(ti),
            ),
            forall|i: int|
                0 <= i < snap.nodes@.len() ==> {
                    let a = #[trigger] self.nd(i);
                    let b = snap.nd(i);
                    a.key == b.key && a.val == b.val && a.level == b.level && a.under == b.under
                },
            self.nd(ni as int).key == key,
            self.nd(ni as int).val == val,
            self.nd(ni as int).under == under_opt,
            L >= 1 ==> (under_opt matches Some(u) && snap.chains@[L - 1].contains(u as int)
                && (u as int) < snap.nodes@.len() && snap.nd(u as int).key == key && snap.nd(
                u as int,
            ).val == val),
        ensures
            forall|l: int| 1 <= l < self.levels ==> self.under_wf(l),
    {
        let c_old = snap.chains@[L];
        let c_new = c_old.take(ti) + seq![ni as int] + c_old.skip(ti);
        assert(self.chains@[L] == c_new);
        assert(forall|t: int| 0 <= t < ti ==> #[trigger] c_new[t] == c_old[t]);
        assert(c_new[ti] == ni);
        assert(forall|t: int| ti < t < c_new.len() ==> #[trigger] c_new[t] == c_old[t - 1]);
        assert forall|x: int| c_old.contains(x) implies c_new.contains(x) by {
            let t = choose|t: int| #![auto] 0 <= t < c_old.len() && c_old[t] == x;
            if t < ti {
                assert(c_new[t] == x);
            } else {
                assert(c_new[t + 1] == x);
            }
        }
        assert forall|l: int| 1 <= l < self.levels implies self.under_wf(l) by {
            assert(snap.under_wf(l));
            assert(snap.chain_wf(l));
            let c = self.chains@[l];
            assert forall|t: int| 0 <= t < c.len() implies {
                let u = (#[trigger] self.nd(c[t])).under;
                &&& u is Some
                &&& self.chains@[l - 1].contains(u.unwrap() as int)
                &&& self.nd(u.unwrap() as int).key == self.nd(c[t]).key
                &&& self.nd(u.unwrap() as int).val == self.nd(c[t]).val
            } by {
                if l == L && t == ti {
                    assert(c[t] == ni);
                    let u = under_opt.unwrap();
                    assert(snap.chains@[L - 1].contains(u as int));
                    assert(self.chains@[l - 1] == snap.chains@[L - 1]);
                } else {
                    let ts = if l == L && t > ti {
                        t - 1
                    } else {
                        t
                    };
                    let oi = snap.chains@[l][ts];
                    assert(c[t] == oi);
                    assert(0 <= oi < snap.nodes@.len()) by {
                        assert(snap.chain_wf(l));
                    }
                    assert(self.nd(oi).under == snap.nd(oi).under);
                    let u = snap.nd(oi).under;
                    assert(u is Some && snap.chains@[l - 1].contains(u.unwrap() as int)
                        && snap.nd(u.unwrap() as int).key == snap.nd(oi).key && snap.nd(
                        u.unwrap() as int,
                    ).val == snap.nd(oi).val) by {
                        assert(snap.under_wf(l));
                    }
                    if l - 1 == L {
                        assert(c_new.contains(u.unwrap() as int));
                    } else {
                        assert(self.chains@[l - 1] == snap.chains@[l - 1]);
                    }
                    assert(0 <= u.unwrap() < snap.nodes@.len()) by {
                        assert(snap.chain_wf(l - 1));
                        let c3 = snap.chains@[l - 1];
                        let tc = choose|tc: int|
                            #![auto]
                            0 <= tc < c3.len() && c3[tc] == u.unwrap() as int;
                        assert(0 <= c3[tc] < snap.nodes@.len());
                    }
                    assert(self.nd(u.unwrap() as int).key == snap.nd(u.unwrap() as int).key);
                    assert(self.nd(u.unwrap() as int).val == snap.nd(u.unwrap() as int).val);
                }
            }
        }
    }
}


impl SkipList {
    /// Chains at other levels are untouched by the splice: the two
    /// relinked ends live at the spliced level only.
    #[verifier::rlimit(100)]
    #[verifier::spinoff_prover]
    proof fn lemma_link_others(
        &self,
        snap: SkipList,
        L: int,
        ti: int,
        ni: usize,
        lf_i: int,
        rt_i: int,
    )
        requires
            0 <= L < snap.levels,
            snap.chains@.len() == snap.levels,
            self.chains@.len() == snap.chains@.len(),
            self.levels == snap.levels,
            forall|l: int| 0 <= l < snap.levels ==> snap.chain_wf(l),
            0 <= ti <= snap.chains@[L].len(),
            ni == snap.nodes@.len(),
            self.nodes@.len() == snap.nodes@.len() + 1,
            self.chains@ == snap.chains@.update(
                L,
                snap.chains@[L].take(ti) + seq![ni as int] + snap.chains@[L].skip(ti),
            ),
            forall|i: int|
                0 <= i < snap.nodes@.len() && i != lf_i && i != rt_i ==> #[trigger] self.nd(i)
                    == snap.nd(i),
            lf_i >= 0 ==> 0 <= lf_i < snap.nodes@.len() && snap.nd(lf_i).level == L + 1,
            rt_i >= 0 ==> 0 <= rt_i < snap.nodes@.len() && snap.nd(rt_i).level == L + 1,
        ensures
            forall|l: int| 0 <= l < self.levels && l != L ==> self.chain_wf(l),
            forall|l: int, t: int|
                0 <= l < self.levels && l != L && 0 <= t < self.chains@[l].len() ==> self.nd(
                    #[trigger] self.chains@[l][t],
                ) == snap.nd(self.chains@[l][t]),
    {
        assert forall|l: int, t: int|
            0 <= l < self.levels && l != L && 0 <= t < self.chains@[l].len() implies self.nd(
            #[trigger] self.chains@[l][t],
        ) == snap.nd(self.chains@[l][t]) by {
            assert(snap.chain_wf(l));
            assert(self.chains@[l] == snap.chains@[l]);
            assert(snap.nd(self.chains@[l][t]).level == l + 1);
            if lf_i >= 0 && self.chains@[l][t] == lf_i {
                assert(snap.nd(lf_i).level == L + 1);
            }
            if rt_i >= 0 && self.chains@[l][t] == rt_i {
                assert(snap.nd(rt_i).level == L + 1);
            }
        }
        assert forall|l: int| 0 <= l < self.levels && l != L implies self.chain_wf(l) by {
            assert(snap.chain_wf(l));
            assert(self.chains@[l] == snap.chains@[l]);
            assert forall|t: int|
                0 <= t < self.chains@[l].len() implies self.nd(
                #[trigger] self.chains@[l][t],
            ) == snap.nd(self.chains@[l][t]) by {}
        }
    }
}


impl SkipList {
    /// After the ground splice, the chain denotes the old map extended
    /// with the new pair.
    #[verifier::rlimit(100)]
    #[verifier::spinoff_prover]
    proof fn lemma_ground_insert_map(
        &self,
        pre: SkipList,
        ti0: int,
        n0: int,
        key: u64,
        val: u64,
    )
        requires
            pre.chains@.len() == pre.levels >= 1,
            self.chains@.len() == self.levels == pre.levels,
            pre.chain_wf(0),
            self.chain_wf(0),
            !pre.has_key(key),
            0 <= ti0 <= pre.chains@[0].len(),
            self.chains@[0] == pre.chains@[0].take(ti0) + seq![n0] + pre.chains@[0].skip(ti0),
            0 <= n0 < self.nodes@.len(),
            self.nd(n0).key == key,
            self.nd(n0).val == val,
            forall|t: int|
                0 <= t < pre.chains@[0].len() ==> 0 <= #[trigger] pre.chains@[0][t]
                    < pre.nodes@.len(),
            forall|i: int|
                0 <= i < pre.nodes@.len() ==> (#[trigger] self.nd(i)).key == pre.nd(i).key
                    && self.nd(i).val == pre.nd(i).val,
        ensures
            forall|k2: u64| self.has_key(k2) == (pre.has_key(k2) || k2 == key),
            forall|k2: u64|
                #[trigger] self.has_key(k2) ==> self.val_of(k2) == (if k2 == key {
                    val
                } else {
                    pre.val_of(k2)
                }),
    {
        let g_old = pre.chains@[0];
        let g_new = self.chains@[0];
        assert(g_new.len() == g_old.len() + 1);
        assert(forall|t: int| 0 <= t < ti0 ==> #[trigger] g_new[t] == g_old[t]);
        assert(g_new[ti0] == n0);
        assert(forall|t: int| ti0 < t < g_new.len() ==> #[trigger] g_new[t] == g_old[t - 1]);
        assert forall|t: int|
            0 <= t < g_old.len() implies self.nd(#[trigger] g_old[t]).key == pre.nd(
            g_old[t],
        ).key && self.nd(g_old[t]).val == pre.nd(g_old[t]).val by {}
        assert forall|k2: u64| self.has_key(k2) == (pre.has_key(k2) || k2 == key) by {
            if self.has_key(k2) {
                let t = choose|t: int| #![auto] 0 <= t < g_new.len() && self.nd(g_new[t]).key
                    == k2;
                if t != ti0 {
                    let t2 = if t < ti0 {
                        t
                    } else {
                        t - 1
                    };
                    assert(pre.nd(g_old[t2]).key == k2);
                    assert(pre.has_key(k2));
                }
            }
            if pre.has_key(k2) {
                let t = choose|t: int| #![auto] 0 <= t < g_old.len() && pre.nd(g_old[t]).key
                    == k2;
                let t2 = if t < ti0 {
                    t
                } else {
                    t + 1
                };
                assert(self.nd(g_new[t2]).key == k2);
                assert(self.has_key(k2));
            }
            if k2 == key {
                assert(self.nd(g_new[ti0]).key == k2);
                assert(self.has_key(k2));
            }
        }
        assert forall|k2: u64| #[trigger] self.has_key(k2) implies self.val_of(k2) == (if k2
            == key {
            val
        } else {
            pre.val_of(k2)
        }) by {
            let t = self.key_pos(k2);
            assert(0 <= t < g_new.len() && self.nd(g_new[t]).key == k2);
            if k2 == key {
                if t != ti0 {
                    let t2 = if t < ti0 {
                        t
                    } else {
                        t - 1
                    };
                    assert(pre.nd(g_old[t2]).key == key);
                    assert(pre.has_key(key));
                }
                assert(t == ti0);
            } else {
                assert(t != ti0);
                let t2 = if t < ti0 {
                    t
                } else {
                    t - 1
                };
                assert(pre.nd(g_old[t2]).key == k2);
                assert(pre.has_key(k2));
                let t3 = pre.key_pos(k2);
                assert(0 <= t3 < g_old.len() && pre.nd(g_old[t3]).key == k2);
                if t3 < t2 {
                    assert(pre.nd(g_old[t3]).key < pre.nd(g_old[t2]).key);
                }
                if t3 > t2 {
                    assert(pre.nd(g_old[t2]).key < pre.nd(g_old[t3]).key);
                }
                assert(self.val_of(k2) == self.nd(g_new[t]).val);
                assert(pre.val_of(k2) == pre.nd(g_old[t3]).val);
            }
        }
    }
}


impl SkipList {
    /// Seats the head on the new smallest key's top when one was added,
    /// counts the new key, and re-establishes the whole structure.
    #[verifier::rlimit(100)]
    #[verifier::spinoff_prover]
    fn finish_insert(
        &mut self,
        Ghost(pre): Ghost<SkipList>,
        key: u64,
        val: u64,
        is_min: bool,
        under_opt: Option<usize>,
        Ghost(ti0): Ghost<int>,
        Ghost(n0): Ghost<int>,
    )
        requires
            pre.wf(),
            pre.chains@[0].len() > 0,
            !pre.has_key(key),
            is_min == (pre.nd(pre.chains@[0][0]).key > key),
            old(self).levels == pre.levels,
            old(self).chains@.len() == old(self).levels,
            old(self).size == pre.size,
            old(self).size < usize::MAX,
            old(self).head == pre.head,
            old(self).nodes@.len() <= usize::MAX,
            old(self).size < old(self).nodes@.len(),
            forall|i: int|
                0 <= i < pre.nodes@.len() ==> {
                    let a = #[trigger] old(self).nd(i);
                    let b = pre.nd(i);
                    a.key == b.key && a.val == b.val && a.level == b.level && a.under == b.under
                },
            forall|l: int| 0 <= l < old(self).levels ==> old(self).chain_wf(l),
            forall|l: int| 1 <= l < old(self).levels ==> old(self).under_wf(l),
            forall|l: int| 0 <= l < old(self).levels ==> old(self).chains@[l].len() >= 1,
            !is_min ==> forall|l: int|
                0 <= l < old(self).levels ==> #[trigger] old(self).chains@[l][0]
                    == pre.chains@[l][0],
            is_min ==> forall|l: int|
                0 <= l < old(self).levels ==> old(self).nd(
                    #[trigger] old(self).chains@[l][0],
                ).key == key,
            is_min ==> (under_opt matches Some(u) && (u as int) < old(self).nodes@.len()
                && old(self).chains@[old(self).levels - 1].contains(u as int) && old(self).nd(
                u as int,
            ).key == key),
            !is_min ==> old(self).head == pre.head,
            old(self).chains@[0] == pre.chains@[0].take(ti0) + seq![n0] + pre.chains@[0].skip(
                ti0,
            ),
            0 <= ti0 <= pre.chains@[0].len(),
            0 <= n0 < old(self).nodes@.len(),
            old(self).nd(n0).key == key,
            old(self).nd(n0).val == val,
        ensures
            final(self).wf(),
            final(self).view_map() == pre.view_map().insert(key, val),
            final(self).levels_spec() == pre.levels_spec(),
            final(self).size_spec() == pre.size_spec() + 1,
    {
        if is_min {
            self.head = Head::new(under_opt);
        }
        self.size = self.size + 1;
        proof {
            assert(self.nodes@ == old(self).nodes@);
            assert(self.chains@ == old(self).chains@);
            assert forall|l: int| 0 <= l < self.levels implies self.chain_wf(l) by {
                assert(old(self).chain_wf(l));
                assert(self.chains@[l] == old(self).chains@[l]);
                assert forall|t: int|
                    0 <= t < self.chains@[l].len() implies self.nd(
                    #[trigger] self.chains@[l][t],
                ) == old(self).nd(self.chains@[l][t]) by {}
            }
            assert forall|l: int| 1 <= l < self.levels implies self.under_wf(l) by {
                assert(old(self).under_wf(l));
                assert(old(self).chain_wf(l));
                assert(old(self).chain_wf(l - 1));
                assert(self.chains@[l] == old(self).chains@[l]);
                assert(self.chains@[l - 1] == old(self).chains@[l - 1]);
                assert forall|i: int|
                    0 <= i < self.nodes@.len() implies #[trigger] self.nd(i) == old(self).nd(
                    i,
                ) by {}
            }
            let g_old = pre.chains@[0];
            let g_new = self.chains@[0];
            assert(g_new == g_old.take(ti0) + seq![n0] + g_old.skip(ti0));
            assert(g_new.len() == g_old.len() + 1);
            assert(pre.chain_wf(0));
            assert(self.chain_wf(0));
            assert forall|l: int| 0 <= l < self.levels implies self.min_lead(l) by {
                assert(old(self).chain_wf(l));
                assert(old(self).chain_wf(0));
                assert(self.chains@[l] == old(self).chains@[l]);
                if is_min {
                    assert(self.chains@[l][0] == old(self).chains@[l][0]);
                    assert(old(self).nd(old(self).chains@[l][0]).key == key);
                    assert(old(self).nd(old(self).chains@[0][0]).key == key);
                    assert(self.nd(self.chains@[l][0]).key == key);
                    assert(self.nd(self.chains@[0][0]).key == key);
                } else {
                    assert(pre.min_lead(l));
                    assert(pre.min_lead(0));
                    assert(self.chains@[l][0] == pre.chains@[l][0]);
                    assert(self.chains@[0][0] == pre.chains@[0][0]);
                    assert(pre.chain_wf(l));
                    assert(self.nd(pre.chains@[l][0]).key == pre.nd(pre.chains@[l][0]).key);
                    assert(self.nd(pre.chains@[0][0]).key == pre.nd(pre.chains@[0][0]).key);
                }
            }
            if is_min {
                let u = under_opt.unwrap() as int;
                let ctop = self.chains@[self.levels - 1];
                assert(ctop.contains(u));
                let tu = choose|tu: int| #![auto] 0 <= tu < ctop.len() && ctop[tu] == u;
                assert(self.chain_wf(self.levels - 1));
                assert(self.min_lead(self.levels - 1));
                if tu != 0 {
                    assert(self.nd(ctop[0]).key < self.nd(ctop[tu]).key);
                }
                assert(self.head.next == Some(ctop[0] as usize));
            } else {
                assert(self.head.next == Some(self.chains@[self.levels - 1][0] as usize));
            }
            assert(self.size == g_new.len());
            assert(self.size <= self.nodes@.len());
            assert(self.wf());
            assert forall|i: int|
                0 <= i < pre.nodes@.len() implies (#[trigger] self.nd(i)).key == pre.nd(
                i,
            ).key && self.nd(i).val == pre.nd(i).val by {
                assert(self.nd(i) == old(self).nd(i));
            }
            assert forall|t: int|
                0 <= t < pre.chains@[0].len() implies 0 <= #[trigger] pre.chains@[0][t]
                < pre.nodes@.len() by {
                assert(pre.chain_wf(0));
            }
            self.lemma_ground_insert_map(pre, ti0, n0, key, val);
            assert(self.view_map() =~= pre.view_map().insert(key, val));
        }
    }
}


impl SkipList {
    /// Walks the tower links from the head down to the ground level's
    /// first node.
    fn ground_first(&self) -> (r: usize)
        requires
            self.wf(),
            self.chains@[0].len() > 0,
        ensures
            r == self.chains@[0][0],
    {
        let nn0 = self.nodes.len();
        let mut cur = match self.head.next {
            Some(n) => n,
            None => {
                proof {
                    assert(false);
                }
                0
            }
        };
        let ghost mut l: int = self.levels_spec() - 1;
        proof {
            assert(self.min_lead(self.levels_spec() - 1));
            assert(self.chain_wf(self.levels_spec() - 1));
        }
        loop
            invariant
                self.wf(),
                self.nodes@.len() <= usize::MAX,
                self.chains@[0].len() > 0,
                0 <= l < self.levels_spec(),
                self.chains@[l].len() > 0,
                cur == self.chains@[l][0],
            ensures
                cur == self.chains@[0][0],
            decreases l,
        {
            proof {
                assert(self.chain_wf(l));
                assert(self.min_lead(l));
                assert(0 <= self.chains@[l][0] < self.nodes@.len());
            }
            match self.nodes[cur].under {
                Some(u) => {
                    proof {
                        if l == 0 {
                            assert(self.nd(self.chains@[0][0]).under is None);
                            assert(false);
                        }
                        assert(self.under_wf(l));
                        assert(self.nd(self.chains@[l][0]).under == Some(u));
                        let c2 = self.chains@[l - 1];
                        assert(c2.contains(u as int));
                        let tu = choose|tu: int| #![auto] 0 <= tu < c2.len() && c2[tu] == u;
                        assert(self.min_lead(l - 1));
                        assert(self.chain_wf(l - 1));
                        assert(self.nd(u as int).key == self.nd(self.chains@[l][0]).key);
                        assert(self.nd(c2[0]).key == self.nd(self.chains@[0][0]).key);
                        assert(self.nd(self.chains@[l][0]).key == self.nd(
                            self.chains@[0][0],
                        ).key);
                        if tu != 0 {
                            assert(self.nd(c2[0]).key < self.nd(c2[tu]).key);
                        }
                        l = l - 1;
                    }
                    cur = u;
                }
                None => {
                    proof {
                        if l != 0 {
                            assert(self.under_wf(l));
                            assert(self.nd(self.chains@[l][0]).under is Some);
                            assert(false);
                        }
                    }
                    break ;
                }
            }
        }
        cur
    }

    /// Every key and value, in ascending key order: the ground level read
    /// left to right.  Keys are strictly ascending, so none repeats, and
    /// the pairs are exactly the map's entries.
    pub fn iter(&self) -> (r: Vec<(u64, u64)>)
        requires
            self.wf(),
        ensures
            r@.len() == self.size_spec(),
            forall|j1: int, j2: int| 0 <= j1 < j2 < r@.len() ==> r@[j1].0 < r@[j2].0,
            forall|j: int|
                0 <= j < r@.len() ==> self.view_map().contains_key(#[trigger] r@[j].0)
                    && self.view_map()[r@[j].0] == r@[j].1,
            forall|k: u64|
                self.view_map().contains_key(k) ==> exists|j: int|
                    0 <= j < r@.len() && (#[trigger] r@[j]).0 == k,
    {
        let mut r: Vec<(u64, u64)> = Vec::new();
        if self.head.next.is_none() {
            proof {
                assert(self.chains@[0].len() == 0);
                assert forall|k: u64| !self.view_map().contains_key(k) by {}
            }
            return r;
        }
        proof {
            assert(self.chains@[0].len() > 0);
        }
        let nn0 = self.nodes.len();
        let mut cur = self.ground_first();
        let ghost mut j: int = 0;
        let g = Ghost(self.chains@[0]);
        loop
            invariant_except_break
                0 <= j < g@.len(),
                cur == g@[j],
                r@.len() == j,
                forall|j2: int|
                    0 <= j2 < j ==> (#[trigger] r@[j2]).0 == self.nd(g@[j2]).key && r@[j2].1
                        == self.nd(g@[j2]).val,
            invariant
                self.wf(),
                self.nodes@.len() <= usize::MAX,
                g@ == self.chains@[0],
            ensures
                r@.len() == g@.len(),
                forall|j2: int|
                    0 <= j2 < g@.len() ==> (#[trigger] r@[j2]).0 == self.nd(g@[j2]).key
                        && r@[j2].1 == self.nd(g@[j2]).val,
            decreases g@.len() - j,
        {
            proof {
                assert(self.chain_wf(0));
                assert(0 <= g@[j] < self.nodes@.len());
            }
            let n = self.nodes[cur];
            r.push((n.key, n.val));
            match n.next {
                Some(nx) => {
                    proof {
                        assert(self.nd(g@[j]).next == (if j + 1 < g@.len() {
                            Some(g@[j + 1] as usize)
                        } else {
                            None::<usize>
                        }));
                        j = j + 1;
                    }
                    cur = nx;
                }
                None => {
                    proof {
                        assert(self.nd(g@[j]).next == (if j + 1 < g@.len() {
                            Some(g@[j + 1] as usize)
                        } else {
                            None::<usize>
                        }));
                        assert(j == g@.len() - 1);
                    }
                    break ;
                }
            }
        }
        proof {
            assert(self.chain_wf(0));
            assert forall|j1: int, j2: int|
                0 <= j1 < j2 < r@.len() implies r@[j1].0 < r@[j2].0 by {
                assert(self.nd(g@[j1]).key < self.nd(g@[j2]).key);
            }
            assert forall|j2: int|
                0 <= j2 < r@.len() implies self.view_map().contains_key(
                #[trigger] r@[j2].0,
            ) && self.view_map()[r@[j2].0] == r@[j2].1 by {
                self.lemma_val_coherent(0, j2);
            }
            assert forall|k: u64|
                self.view_map().contains_key(k) implies exists|j2: int|
                0 <= j2 < r@.len() && (#[trigger] r@[j2]).0 == k by {
                let t = self.key_pos(k);
                assert(0 <= t < g@.len() && self.nd(g@[t]).key == k);
                assert(r@[t].0 == k);
            }
        }
        r
    }

    /// Every node on every level, highest level first, each as key,
    /// value, and level.  A diagnostic walk: each reported pair is a real
    /// entry of the map, keys within one level ascending.
    pub fn iter_all(&self) -> (r: Vec<(u64, u64, usize)>)
        requires
            self.wf(),
        ensures
            forall|j: int|
                0 <= j < r@.len() ==> self.view_map().contains_key(#[trigger] r@[j].0)
                    && self.view_map()[r@[j].0] == r@[j].1,
    {
        let mut r: Vec<(u64, u64, usize)> = Vec::new();
        if self.head.next.is_none() {
            return r;
        }
        proof {
            assert(self.chains@[0].len() > 0);
        }
        let nn0 = self.nodes.len();
        let mut front = match self.head.next {
            Some(n) => n,
            None => 0,
        };
        let mut lvl_num = self.levels;
        let ghost mut l: int = self.levels_spec() - 1;
        proof {
            assert(self.min_lead(self.levels_spec() - 1));
            assert(self.chain_wf(self.levels_spec() - 1));
        }
        loop
            invariant
                self.wf(),
                self.nodes@.len() <= usize::MAX,
                self.chains@[0].len() > 0,
                0 <= l < self.levels_spec(),
                self.chains@[l].len() > 0,
                front == self.chains@[l][0],
                lvl_num == l + 1,
                forall|j: int|
                    0 <= j < r@.len() ==> self.view_map().contains_key(#[trigger] r@[j].0)
                        && self.view_map()[r@[j].0] == r@[j].1,
            ensures
                forall|j: int|
                    0 <= j < r@.len() ==> self.view_map().contains_key(#[trigger] r@[j].0)
                        && self.view_map()[r@[j].0] == r@[j].1,
            decreases l,
        {
            let mut cur = front;
            let ghost mut t: int = 0;
            proof {
                assert(self.chain_wf(l));
            }
            loop
                invariant
                    self.wf(),
                    self.nodes@.len() <= usize::MAX,
                    0 <= l < self.levels_spec(),
                    0 <= t < self.chains@[l].len(),
                    cur == self.chains@[l][t],
                    lvl_num == l + 1,
                    forall|j: int|
                        0 <= j < r@.len() ==> self.view_map().contains_key(
                            #[trigger] r@[j].0,
                        ) && self.view_map()[r@[j].0] == r@[j].1,
                ensures
                    cur == self.chains@[l][self.chains@[l].len() - 1],
                    forall|j: int|
                        0 <= j < r@.len() ==> self.view_map().contains_key(
                            #[trigger] r@[j].0,
                        ) && self.view_map()[r@[j].0] == r@[j].1,
                decreases self.chains@[l].len() - t,
            {
                proof {
                    assert(self.chain_wf(l));
                    assert(0 <= self.chains@[l][t] < self.nodes@.len());
                    self.lemma_val_coherent(l, t);
                }
                let n = self.nodes[cur];
                r.push((n.key, n.val, lvl_num));
                match n.next {
                    Some(nx) => {
                        proof {
                            assert(self.nd(self.chains@[l][t]).next == (if t + 1
                                < self.chains@[l].len() {
                                Some(self.chains@[l][t + 1] as usize)
                            } else {
                                None::<usize>
                            }));
                            t = t + 1;
                        }
                        cur = nx;
                    }
                    None => {
                        proof {
                            assert(self.nd(self.chains@[l][t]).next == (if t + 1
                                < self.chains@[l].len() {
                                Some(self.chains@[l][t + 1] as usize)
                            } else {
                                None::<usize>
                            }));
                        }
                        break ;
                    }
                }
            }
            proof {
                assert(self.chain_wf(l));
                assert(self.min_lead(l));
            }
            match self.nodes[front].under {
                Some(u) => {
                    proof {
                        if l == 0 {
                            assert(self.nd(self.chains@[0][0]).under is None);
                            assert(false);
                        }
                        assert(self.under_wf(l));
                        assert(self.nd(self.chains@[l][0]).under == Some(u));
                        let c2 = self.chains@[l - 1];
                        assert(c2.contains(u as int));
                        let tu = choose|tu: int| #![auto] 0 <= tu < c2.len() && c2[tu] == u;
                        assert(self.min_lead(l - 1));
                        assert(self.chain_wf(l - 1));
                        assert(self.nd(u as int).key == self.nd(self.chains@[l][0]).key);
                        assert(self.nd(c2[0]).key == self.nd(self.chains@[0][0]).key);
                        assert(self.nd(self.chains@[l][0]).key == self.nd(
                            self.chains@[0][0],
                        ).key);
                        if tu != 0 {
                            assert(self.nd(c2[0]).key < self.nd(c2[tu]).key);
                        }
                        l = l - 1;
                    }
                    front = u;
                    lvl_num = lvl_num - 1;
                }
                None => {
                    proof {
                        if l != 0 {
                            assert(self.under_wf(l));
                            assert(self.nd(self.chains@[l][0]).under is Some);
                            assert(false);
                        }
                    }
                    break ;
                }
            }
        }
        r
    }
}


impl SkipList {
    /// Takes a key out: the value that was under it comes back, or
    /// nothing when the key was absent and the list is untouched.  The
    /// key's tower is unlinked level by level with its neighbours
    /// restitched; when the smallest key goes, the next key's tower is
    /// promoted to full height so the head keeps its seat.
    pub fn delete(&mut self, key: &u64) -> (r: Option<u64>)
        requires
            old(self).wf(),
        ensures
            final(self).wf(),
            final(self).view_map() == old(self).view_map().remove(*key),
            final(self).levels_spec() == old(self).levels_spec(),
            r == (if old(self).view_map().contains_key(*key) {
                Some(old(self).view_map()[*key])
            } else {
                None::<u64>
            }),
            final(self).size_spec() == old(self).size_spec() - (if old(
                self,
            ).view_map().contains_key(*key) {
                1int
            } else {
                0int
            }),
    {
        let kv = *key;
        let first = match self.head.next {
            None => {
                proof {
                    assert(old(self).chains@[0].len() == 0);
                    assert(!old(self).has_key(kv));
                    assert(old(self).view_map().remove(kv) =~= old(self).view_map());
                }
                return None;
            }
            Some(f) => f,
        };
        let nlen_pre = self.nodes.len();
        let mut curr = first;
        let mut prev_step = PrevSearchStep::FromHead;
        let ghost mut lvl: int = self.levels_spec() - 1;
        let ghost mut pos: int = 0;
        proof {
            assert(self.min_lead(self.levels_spec() - 1));
            assert(self.chain_wf(self.levels_spec() - 1));
        }
        loop
            invariant
                self.wf(),
                *self == *old(self),
                kv == *key,
                self.nodes@.len() <= usize::MAX,
                nlen_pre == self.nodes@.len(),
                self.chains@[0].len() > 0,
                0 <= lvl < self.levels_spec(),
                0 <= pos < self.chains@[lvl].len(),
                curr == self.chains@[lvl][pos],
                !(prev_step is FromRight),
                prev_step is FromHead ==> pos == 0,
                prev_step is FromLeft ==> pos > 0 && self.nd(self.chains@[lvl][pos - 1]).key
                    < kv,
                prev_step is FromAbove ==> (self.nd(curr as int).key < kv || pos == 0),
                forall|l: int|
                    lvl < l < self.levels_spec() ==> !self.chain_has_key(l, kv),
            ensures
                *self == *old(self),
                self.nodes@.len() <= usize::MAX,
                self.chains@[0].len() > 0,
                0 <= lvl < self.levels_spec(),
                0 <= pos < self.chains@[lvl].len(),
                curr == self.chains@[lvl][pos],
                self.nd(curr as int).key == kv,
                forall|l: int|
                    lvl < l < self.levels_spec() ==> !self.chain_has_key(l, kv),
            decreases lvl, self.chains@[lvl].len() - pos,
        {
            proof {
                assert(self.chain_wf(lvl));
                assert(0 <= self.chains@[lvl][pos] < self.nodes@.len());
                if pos > 0 {
                    assert(self.nd(curr as int).prev == Some(
                        self.chains@[lvl][pos - 1] as usize,
                    ));
                    assert(0 <= self.chains@[lvl][pos - 1] < self.nodes@.len());
                }
            }
            match self.compare(curr, kv, &prev_step) {
                SearchResult::NotFound => {
                    proof {
                        self.lemma_not_found(lvl, pos, kv, &prev_step, curr);
                        assert(!self.has_key(kv));
                        assert(!self.view_map().contains_key(kv));
                        assert(self.view_map() =~= self.view_map().remove(kv));
                        assert(*self == *old(self));
                        assert(self.view_map() == old(self).view_map());
                        assert(self.view_map() == old(self).view_map().remove(kv));
                        assert(!old(self).view_map().contains_key(kv));
                    }
                    return None;
                }
                SearchResult::Found(_) => {
                    proof {
                        assert(self.nd(curr as int).key == kv);
                    }
                    break ;
                }
                SearchResult::Backward(p) => {
                    proof {
                        if prev_step is FromAbove {
                            assert(pos == 0);
                            assert(self.nd(curr as int).prev is None);
                        }
                        assert(false);
                    }
                    curr = p;
                    prev_step = PrevSearchStep::FromRight;
                }
                SearchResult::Forward(n) => {
                    proof {
                        assert(pos + 1 < self.chains@[lvl].len() && n == self.chains@[lvl][pos
                            + 1]) by {
                            assert(self.nd(self.chains@[lvl][pos] as int).next == (if pos + 1
                                < self.chains@[lvl].len() {
                                Some(self.chains@[lvl][pos + 1] as usize)
                            } else {
                                None::<usize>
                            }));
                        }
                        pos = pos + 1;
                    }
                    curr = n;
                    prev_step = PrevSearchStep::FromLeft;
                }
                SearchResult::Down(n) => {
                    proof {
                        self.lemma_down_step(lvl, pos, kv, &prev_step, curr, n);
                        lvl = lvl - 1;
                        let c2 = self.chains@[lvl];
                        if self.nd(n as int).key < kv {
                            pos = choose|t: int| #![auto] 0 <= t < c2.len() && c2[t] == n;
                        } else {
                            pos = 0;
                        }
                    }
                    curr = n;
                    prev_step = PrevSearchStep::FromAbove;
                }
            }
        }
        proof {
            assert(self.chain_wf(lvl));
            assert(0 <= self.chains@[lvl][pos] < self.nodes@.len());
        }
        let old_val = self.nodes[curr].val;
        proof {
            old(self).lemma_val_coherent(lvl, pos);
            assert(old(self).has_key(kv));
            assert(old(self).view_map().contains_key(kv));
            assert(old(self).view_map()[kv] == old_val);
        }
        let is_min = match self.nodes[curr].prev {
            None => true,
            Some(_) => false,
        };
        if is_min {
            proof {
                assert(self.chain_wf(lvl));
                assert(pos == 0);
                assert(self.min_lead(lvl));
                assert(self.chain_wf(0));
                assert(kv == self.nd(self.chains@[0][0]).key);
            }
            self.delete_min(Ghost(kv));
        } else {
            proof {
                assert(self.chain_wf(lvl));
                assert(pos > 0);
                assert(self.min_lead(lvl));
                assert(self.min_lead(0));
                assert(self.nd(self.chains@[lvl][0]).key < self.nd(
                    self.chains@[lvl][pos],
                ).key);
                assert(self.nd(curr as int).key != self.nd(self.chains@[0][0]).key);
            }
            self.delete_tower(curr, Ghost(lvl), Ghost(pos));
        }
        proof {
            assert(old(self).size_spec() >= 1) by {
                old(self).lemma_contains_key_size(kv);
            }
        }
        Some(old_val)
    }
}

/// Law: putting a pair under a fresh key makes it the key's value; one
/// more key is then held.  The list's insert yields exactly this map, its
/// size grows by one, and a search reads the map, so a search after such
/// an insert returns the new value.
pub proof fn lemma_insert_fresh_key(m: Map<u64, u64>, k: u64, v: u64)
    requires
        !m.contains_key(k),
    ensures
        m.insert(k, v).contains_key(k),
        m.insert(k, v)[k] == v,
{
}

/// Law: overwriting a present key replaces its value and keeps the key
/// set as it was.  The list's insert then reports the old value and an
/// unchanged size, and a search returns the new value.
pub proof fn lemma_insert_existing_key(m: Map<u64, u64>, k: u64, v: u64)
    requires
        m.contains_key(k),
    ensures
        m.insert(k, v).contains_key(k),
        m.insert(k, v)[k] == v,
        m.insert(k, v).dom() =~= m.dom(),
{
}

/// Law: after a key is taken out, it is no longer held; the list's
/// delete yields exactly this map and a size smaller by one, so a search
/// after a delete returns nothing for that key.
pub proof fn lemma_delete_key(m: Map<u64, u64>, k: u64)
    ensures
        !m.remove(k).contains_key(k),
{
}


impl SkipList {
    /// Takes one node out of the chain at level `lx`, restitching its two
    /// neighbours.  No tower may still descend onto the node: its own
    /// upper tower node must already be gone.
    fn unlink_level(&mut self, x: usize, Ghost(lx): Ghost<int>, Ghost(tx): Ghost<int>)
        requires
            old(self).chains@.len() == old(self).levels,
            1 <= old(self).levels,
            0 <= lx < old(self).levels,
            old(self).nodes@.len() <= usize::MAX,
            forall|l: int| 0 <= l < old(self).levels ==> old(self).chain_wf(l),
            forall|l: int| 1 <= l < old(self).levels ==> old(self).under_wf(l),
            0 <= tx < old(self).chains@[lx].len(),
            x == old(self).chains@[lx][tx],
            forall|l: int, t: int|
                1 <= l < old(self).levels && 0 <= t < old(self).chains@[l].len() ==> old(
                    self,
                ).nd(#[trigger] old(self).chains@[l][t]).under != Some(x),
        ensures
            final(self).levels == old(self).levels,
            final(self).chains@.len() == old(self).chains@.len(),
            final(self).size == old(self).size,
            final(self).head == old(self).head,
            final(self).nodes@.len() == old(self).nodes@.len(),
            forall|i: int|
                0 <= i < old(self).nodes@.len() ==> {
                    let a = #[trigger] final(self).nd(i);
                    let b = old(self).nd(i);
                    a.key == b.key && a.val == b.val && a.level == b.level && a.under == b.under
                },
            forall|l: int|
                0 <= l < final(self).levels && l != lx ==> final(self).chains@[l] == old(self).chains@[l],
            forall|l: int, t: int|
                0 <= l < final(self).levels && l != lx && 0 <= t < final(self).chains@[l].len() ==> final(self).nd(
                    #[trigger] final(self).chains@[l][t],
                ) == old(self).nd(final(self).chains@[l][t]),
            final(self).chains@[lx] == old(self).chains@[lx].take(tx) + old(self).chains@[lx].skip(
                tx + 1,
            ),
            forall|l: int| 0 <= l < final(self).levels ==> final(self).chain_wf(l),
            forall|l: int| 1 <= l < final(self).levels ==> final(self).under_wf(l),
    {
        proof {
            assert(self.chain_wf(lx));
            if tx > 0 {
                assert(0 <= self.chains@[lx][tx - 1] < self.nodes@.len());
            }
            if tx + 1 < self.chains@[lx].len() {
                assert(0 <= self.chains@[lx][tx + 1] < self.nodes@.len());
            }
        }
        let n = self.nodes[x];
        let left = n.prev;
        let right = n.next;
        if let Some(lf) = left {
            let m = self.nodes[lf];
            self.nodes.set(
                lf,
                Node {
                    key: m.key,
                    val: m.val,
                    level: m.level,
                    next: right,
                    prev: m.prev,
                    under: m.under,
                },
            );
        }
        if let Some(rt) = right {
            let m = self.nodes[rt];
            self.nodes.set(
                rt,
                Node {
                    key: m.key,
                    val: m.val,
                    level: m.level,
                    next: m.next,
                    prev: left,
                    under: m.under,
                },
            );
        }
        proof {
            let snap = *old(self);
            let c_old = snap.chains@[lx];
            let c_new = c_old.take(tx) + c_old.skip(tx + 1);
            self.chains@ = self.chains@.update(lx, c_new);
            assert(snap.chain_wf(lx));
            assert(snap.nd(x as int).prev == (if tx > 0 {
                Some(c_old[tx - 1] as usize)
            } else {
                None::<usize>
            }));
            assert(snap.nd(x as int).next == (if tx + 1 < c_old.len() {
                Some(c_old[tx + 1] as usize)
            } else {
                None::<usize>
            }));
            assert(self.nodes@ =~= (if tx > 0 {
                snap.nodes@.update(
                    snap.chains@[lx][tx - 1],
                    Node { next: snap.nd(x as int).next, ..snap.nd(snap.chains@[lx][tx - 1]) },
                )
            } else {
                snap.nodes@
            }).update(
                (if tx + 1 < snap.chains@[lx].len() {
                    snap.chains@[lx][tx + 1]
                } else if tx > 0 {
                    snap.chains@[lx][tx - 1]
                } else {
                    x as int
                }),
                (if tx + 1 < snap.chains@[lx].len() {
                    Node { prev: snap.nd(x as int).prev, ..snap.nd(snap.chains@[lx][tx + 1]) }
                } else if tx > 0 {
                    Node { next: snap.nd(x as int).next, ..snap.nd(snap.chains@[lx][tx - 1]) }
                } else {
                    snap.nd(x as int)
                }),
            ));
            self.lemma_unlink_post(snap, lx, tx, x);
        }
    }

    /// Everything the restitching re-establishes, concluded from the raw
    /// arena and chain changes of one unlink step.
    #[verifier::rlimit(100)]
    #[verifier::spinoff_prover]
    proof fn lemma_unlink_post(&self, snap: SkipList, lx: int, tx: int, x: usize)
        requires
            snap.chains@.len() == snap.levels,
            1 <= snap.levels,
            0 <= lx < snap.levels,
            snap.nodes@.len() <= usize::MAX,
            forall|l: int| 0 <= l < snap.levels ==> snap.chain_wf(l),
            forall|l: int| 1 <= l < snap.levels ==> snap.under_wf(l),
            0 <= tx < snap.chains@[lx].len(),
            x == snap.chains@[lx][tx],
            forall|l: int, t: int|
                1 <= l < snap.levels && 0 <= t < snap.chains@[l].len() ==> snap.nd(
                    #[trigger] snap.chains@[l][t],
                ).under != Some(x),
            self.levels == snap.levels,
            self.size == snap.size,
            self.head == snap.head,
            self.nodes@.len() == snap.nodes@.len(),
            self.chains@ == snap.chains@.update(
                lx,
                snap.chains@[lx].take(tx) + snap.chains@[lx].skip(tx + 1),
            ),
            self.nodes@ == (if tx > 0 {
                snap.nodes@.update(
                    snap.chains@[lx][tx - 1],
                    Node { next: snap.nd(x as int).next, ..snap.nd(snap.chains@[lx][tx - 1]) },
                )
            } else {
                snap.nodes@
            }).update(
                (if tx + 1 < snap.chains@[lx].len() {
                    snap.chains@[lx][tx + 1]
                } else if tx > 0 {
                    snap.chains@[lx][tx - 1]
                } else {
                    x as int
                }),
                (if tx + 1 < snap.chains@[lx].len() {
                    Node { prev: snap.nd(x as int).prev, ..snap.nd(snap.chains@[lx][tx + 1]) }
                } else if tx > 0 {
                    Node { next: snap.nd(x as int).next, ..snap.nd(snap.chains@[lx][tx - 1]) }
                } else {
                    snap.nd(x as int)
                }),
            ),
        ensures
            forall|i: int|
                0 <= i < snap.nodes@.len() ==> {
                    let a = #[trigger] self.nd(i);
                    let b = snap.nd(i);
                    a.key == b.key && a.val == b.val && a.level == b.level && a.under == b.under
                },
            forall|l: int|
                0 <= l < self.levels && l != lx ==> self.chains@[l] == snap.chains@[l],
            forall|l: int, t: int|
                0 <= l < self.levels && l != lx && 0 <= t < self.chains@[l].len() ==> self.nd(
                    #[trigger] self.chains@[l][t],
                ) == snap.nd(self.chains@[l][t]),
            forall|l: int| 0 <= l < self.levels ==> self.chain_wf(l),
            forall|l: int| 1 <= l < self.levels ==> self.under_wf(l),
    {
        let c_old = snap.chains@[lx];
        let c_new = c_old.take(tx) + c_old.skip(tx + 1);
        assert(snap.chain_wf(lx));
        assert(self.chains@[lx] == c_new);
        let lf_i: int = if tx > 0 {
            c_old[tx - 1]
        } else {
            -1
        };
        let rt_i: int = if tx + 1 < c_old.len() {
            c_old[tx + 1]
        } else {
            -1
        };
        assert(snap.nd(x as int).prev == (if tx > 0 {
            Some(c_old[tx - 1] as usize)
        } else {
            None::<usize>
        }));
        assert(snap.nd(x as int).next == (if tx + 1 < c_old.len() {
            Some(c_old[tx + 1] as usize)
        } else {
            None::<usize>
        }));
        assert forall|i: int|
            0 <= i < snap.nodes@.len() && i != lf_i && i != rt_i implies #[trigger] self.nd(i)
            == snap.nd(i) by {}
        assert(lf_i >= 0 ==> self.nd(lf_i) == (Node {
            next: snap.nd(x as int).next,
            ..snap.nd(lf_i)
        }));
        assert(rt_i >= 0 ==> self.nd(rt_i) == (Node {
            prev: snap.nd(x as int).prev,
            ..snap.nd(rt_i)
        }));
        assert forall|i: int|
            0 <= i < snap.nodes@.len() implies (#[trigger] self.nd(i)).key == snap.nd(i).key
            && self.nd(i).val == snap.nd(i).val && self.nd(i).level == snap.nd(i).level
            && self.nd(i).under == snap.nd(i).under by {}
        assert(forall|t: int| 0 <= t < tx ==> #[trigger] c_new[t] == c_old[t]);
        assert(forall|t: int| tx <= t < c_new.len() ==> #[trigger] c_new[t] == c_old[t + 1]);
        assert forall|l: int, t: int|
            0 <= l < self.levels && l != lx && 0 <= t < self.chains@[l].len() implies {
            &&& self.chains@[l][t] != lf_i || lf_i < 0
            &&& self.chains@[l][t] != rt_i || rt_i < 0
        } by {
            assert(snap.chain_wf(l));
            assert(snap.nd(#[trigger] self.chains@[l][t]).level == l + 1);
            if lf_i >= 0 {
                assert(snap.nd(lf_i).level == lx + 1);
            }
            if rt_i >= 0 {
                assert(snap.nd(rt_i).level == lx + 1);
            }
        }
        assert forall|l: int, t: int|
            0 <= l < self.levels && l != lx && 0 <= t < self.chains@[l].len() implies self.nd(
            #[trigger] self.chains@[l][t],
        ) == snap.nd(self.chains@[l][t]) by {
            assert(snap.chain_wf(l));
            assert(self.chains@[l] == snap.chains@[l]);
            assert(0 <= self.chains@[l][t] < snap.nodes@.len());
            assert(self.chains@[l][t] != lf_i || lf_i < 0);
            assert(self.chains@[l][t] != rt_i || rt_i < 0);
            if self.chains@[l][t] == x as int {
                assert(snap.nd(x as int).level == lx + 1);
                assert(snap.nd(self.chains@[l][t]).level == l + 1);
                assert(false);
            }
        }
        assert forall|l: int| 0 <= l < self.levels && l != lx implies self.chain_wf(l) by {
            assert(snap.chain_wf(l));
            assert(self.chains@[l] == snap.chains@[l]);
            assert forall|t: int|
                0 <= t < self.chains@[l].len() implies self.nd(
                #[trigger] self.chains@[l][t],
            ) == snap.nd(self.chains@[l][t]) by {}
        }
        assert(self.chain_wf(lx)) by {
            assert forall|t: int|
                0 <= t < c_new.len() implies (#[trigger] self.nd(c_new[t])).level == lx + 1 by {}
            assert forall|t: int|
                0 <= t < c_new.len() implies (#[trigger] self.nd(c_new[t])).next == (if t + 1
                < c_new.len() {
                Some(c_new[t + 1] as usize)
            } else {
                None::<usize>
            }) by {
                if t < tx - 1 {
                    assert(self.nd(c_new[t]) == snap.nd(c_old[t]));
                } else if t == tx - 1 {
                    assert(c_new[t] == lf_i);
                } else {
                    assert(c_new[t] == c_old[t + 1]);
                }
            }
            assert forall|t: int|
                0 <= t < c_new.len() implies (#[trigger] self.nd(c_new[t])).prev == (if t > 0 {
                Some(c_new[t - 1] as usize)
            } else {
                None::<usize>
            }) by {
                if t < tx {
                    assert(self.nd(c_new[t]).prev == snap.nd(c_old[t]).prev);
                } else if t == tx {
                    assert(c_new[t] == rt_i);
                } else {
                    assert(self.nd(c_new[t]).prev == snap.nd(c_old[t + 1]).prev);
                }
            }
            assert forall|t1: int, t2: int|
                0 <= t1 < t2 < c_new.len() implies self.nd(c_new[t1]).key < self.nd(
                c_new[t2],
            ).key by {}
        }
        assert forall|y: int| c_old.contains(y) && y != x implies c_new.contains(y) by {
            let t = choose|t: int| #![auto] 0 <= t < c_old.len() && c_old[t] == y;
            assert(t != tx);
            if t < tx {
                assert(c_new[t] == y);
            } else {
                assert(c_new[t - 1] == y);
            }
        }
        self.lemma_unlink_under_wf(snap, lx, tx, x);
    }

    /// After the restitching, every tower still descends onto the chain
    /// one level down: the removed node had no tower above it.
    #[verifier::rlimit(100)]
    #[verifier::spinoff_prover]
    proof fn lemma_unlink_under_wf(&self, snap: SkipList, lx: int, tx: int, x: usize)
        requires
            snap.chains@.len() == snap.levels,
            1 <= snap.levels,
            0 <= lx < snap.levels,
            snap.nodes@.len() <= usize::MAX,
            forall|l: int| 0 <= l < snap.levels ==> snap.chain_wf(l),
            forall|l: int| 1 <= l < snap.levels ==> snap.under_wf(l),
            0 <= tx < snap.chains@[lx].len(),
            x == snap.chains@[lx][tx],
            forall|l: int, t: int|
                1 <= l < snap.levels && 0 <= t < snap.chains@[l].len() ==> snap.nd(
                    #[trigger] snap.chains@[l][t],
                ).under != Some(x),
            self.levels == snap.levels,
            self.nodes@.len() == snap.nodes@.len(),
            self.chains@ == snap.chains@.update(
                lx,
                snap.chains@[lx].take(tx) + snap.chains@[lx].skip(tx + 1),
            ),
            forall|i: int|
                0 <= i < snap.nodes@.len() ==> {
                    let a = #[trigger] self.nd(i);
                    let b = snap.nd(i);
                    a.key == b.key && a.val == b.val && a.level == b.level && a.under == b.under
                },
        ensures
            forall|l: int| 1 <= l < self.levels ==> self.under_wf(l),
    {
        let c_old = snap.chains@[lx];
        let c_new = c_old.take(tx) + c_old.skip(tx + 1);
        assert(snap.chain_wf(lx));
        assert(self.chains@[lx] == c_new);
        assert(forall|t: int| 0 <= t < tx ==> #[trigger] c_new[t] == c_old[t]);
        assert(forall|t: int| tx <= t < c_new.len() ==> #[trigger] c_new[t] == c_old[t + 1]);
        assert forall|y: int| c_old.contains(y) && y != x implies c_new.contains(y) by {
            let t = choose|t: int| #![auto] 0 <= t < c_old.len() && c_old[t] == y;
            assert(t != tx);
            if t < tx {
                assert(c_new[t] == y);
            } else {
                assert(c_new[t - 1] == y);
            }
        }
        assert forall|y1: int, y2: int|
            0 <= y1 < c_old.len() && 0 <= y2 < c_old.len() && c_old[y1] == c_old[y2]
            implies y1 == y2 by {
            if y1 < y2 {
                assert(snap.nd(c_old[y1]).key < snap.nd(c_old[y2]).key);
            }
            if y2 < y1 {
                assert(snap.nd(c_old[y2]).key < snap.nd(c_old[y1]).key);
            }
        }
        assert forall|l: int| 1 <= l < self.levels implies self.under_wf(l) by {
            assert(snap.under_wf(l));
            assert(snap.chain_wf(l));
            let c = self.chains@[l];
            assert forall|t: int| 0 <= t < c.len() implies {
                let u = (#[trigger] self.nd(c[t])).under;
                &&& u is Some
                &&& self.chains@[l - 1].contains(u.unwrap() as int)
                &&& self.nd(u.unwrap() as int).key == self.nd(c[t]).key
                &&& self.nd(u.unwrap() as int).val == self.nd(c[t]).val
            } by {
                let ts = if l == lx && t >= tx {
                    t + 1
                } else {
                    t
                };
                let oi = snap.chains@[l][ts];
                assert(c[t] == oi);
                assert(0 <= oi < snap.nodes@.len()) by {
                    assert(snap.chain_wf(l));
                }
                assert(self.nd(oi).under == snap.nd(oi).under);
                let u = snap.nd(oi).under;
                assert(u is Some && snap.chains@[l - 1].contains(u.unwrap() as int) && snap.nd(
                    u.unwrap() as int,
                ).key == snap.nd(oi).key && snap.nd(u.unwrap() as int).val == snap.nd(
                    oi,
                ).val) by {
                    assert(snap.under_wf(l));
                }
                assert(u != Some(x));
                if l - 1 == lx {
                    assert(u.unwrap() as int != x as int);
                    assert(c_new.contains(u.unwrap() as int));
                } else {
                    assert(self.chains@[l - 1] == snap.chains@[l - 1]);
                }
                assert(0 <= u.unwrap() < snap.nodes@.len()) by {
                    assert(snap.chain_wf(l - 1));
                    let c3 = snap.chains@[l - 1];
                    let tc = choose|tc: int|
                        #![auto]
                        0 <= tc < c3.len() && c3[tc] == u.unwrap() as int;
                    assert(0 <= c3[tc] < snap.nodes@.len());
                }
                assert(self.nd(u.unwrap() as int).key == snap.nd(u.unwrap() as int).key);
                assert(self.nd(u.unwrap() as int).val == snap.nd(u.unwrap() as int).val);
            }
        }
    }
}


impl SkipList {
    /// Puts a fresh node for the key into an empty chain at level `lt`.
    fn seed_level(&mut self, key: u64, val: u64, lt: usize, under_opt: Option<usize>) -> (r:
        usize)
        requires
            old(self).chains@.len() == old(self).levels,
            1 <= old(self).levels,
            (lt as int) < old(self).levels_spec(),
            old(self).nodes@.len() <= usize::MAX,
            forall|l: int| 0 <= l < old(self).levels ==> old(self).chain_wf(l),
            forall|l: int| 1 <= l < old(self).levels ==> old(self).under_wf(l),
            old(self).chains@[lt as int].len() == 0,
            (match under_opt {
                None => lt == 0,
                Some(u) => {
                    &&& lt >= 1
                    &&& (u as int) < old(self).nodes@.len()
                    &&& old(self).chains@[lt - 1].contains(u as int)
                    &&& old(self).nd(u as int).key == key
                    &&& old(self).nd(u as int).val == val
                    &&& old(self).nd(u as int).level == lt
                },
            }),
        ensures
            final(self).levels == old(self).levels,
            final(self).chains@.len() == old(self).chains@.len(),
            final(self).size == old(self).size,
            final(self).head == old(self).head,
            r == old(self).nodes@.len(),
            final(self).nodes@.len() == old(self).nodes@.len() + 1,
            final(self).nodes@.len() <= usize::MAX,
            forall|i: int|
                0 <= i < old(self).nodes@.len() ==> #[trigger] final(self).nd(i) == old(
                    self,
                ).nd(i),
            forall|l: int|
                0 <= l < final(self).levels && l != lt ==> final(self).chains@[l] == old(
                    self,
                ).chains@[l],
            final(self).chains@[lt as int] == seq![r as int],
            forall|l: int| 0 <= l < final(self).levels ==> final(self).chain_wf(l),
            forall|l: int| 1 <= l < final(self).levels ==> final(self).under_wf(l),
            final(self).nd(r as int).key == key,
            final(self).nd(r as int).val == val,
            final(self).nd(r as int).level == lt + 1,
    {
        let ni = self.nodes.len();
        self.nodes.push(Node { key, val, level: lt + 1, next: None, prev: None, under: under_opt });
        let na = self.nodes.len();
        proof {
            let snap = *old(self);
            self.chains@ = self.chains@.update(lt as int, seq![ni as int]);
            assert(self.chains@[lt as int] =~= seq![ni as int]);
            assert forall|i: int| 0 <= i < snap.nodes@.len() implies #[trigger] self.nd(i)
                == snap.nd(i) by {}
            assert forall|l: int| 0 <= l < self.levels && l != lt implies self.chain_wf(l) by {
                assert(snap.chain_wf(l));
                assert(self.chains@[l] == snap.chains@[l]);
                assert forall|t: int|
                    0 <= t < self.chains@[l].len() implies self.nd(
                    #[trigger] self.chains@[l][t],
                ) == snap.nd(self.chains@[l][t]) by {
                    assert(snap.chain_wf(l));
                    assert(0 <= self.chains@[l][t] < snap.nodes@.len());
                }
            }
            assert(self.chain_wf(lt as int)) by {
                assert(self.chains@[lt as int].len() == 1);
                assert(self.chains@[lt as int][0] == ni);
                assert(self.nd(ni as int).level == lt + 1);
            }
            assert forall|l: int| 1 <= l < self.levels implies self.under_wf(l) by {
                assert(snap.under_wf(l));
                assert(snap.chain_wf(l));
                let c = self.chains@[l];
                assert forall|t: int| 0 <= t < c.len() implies {
                    let u = (#[trigger] self.nd(c[t])).under;
                    &&& u is Some
                    &&& self.chains@[l - 1].contains(u.unwrap() as int)
                    &&& self.nd(u.unwrap() as int).key == self.nd(c[t]).key
                    &&& self.nd(u.unwrap() as int).val == self.nd(c[t]).val
                } by {
                    if l == lt && t == 0 {
                        assert(c[t] == ni);
                        let u = under_opt.unwrap();
                        assert(self.chains@[l - 1] == snap.chains@[l - 1]);
                        assert(snap.chain_wf(l - 1));
                        let c3 = snap.chains@[l - 1];
                        let tc = choose|tc: int| #![auto] 0 <= tc < c3.len() && c3[tc] == u as int;
                        assert(0 <= c3[tc] < snap.nodes@.len());
                        assert(self.nd(u as int) == snap.nd(u as int));
                    } else {
                        assert(l != lt);
                        assert(c == snap.chains@[l]);
                        assert(0 <= c[t] < snap.nodes@.len());
                        assert(self.nd(c[t]) == snap.nd(c[t]));
                        let u = snap.nd(c[t]).under;
                        assert(u is Some && snap.chains@[l - 1].contains(u.unwrap() as int)
                            && snap.nd(u.unwrap() as int).key == snap.nd(c[t]).key && snap.nd(
                            u.unwrap() as int,
                        ).val == snap.nd(c[t]).val) by {
                            assert(snap.under_wf(l));
                        }
                        assert(0 <= u.unwrap() < snap.nodes@.len()) by {
                            assert(snap.chain_wf(l - 1));
                            let c3 = snap.chains@[l - 1];
                            let tc = choose|tc: int|
                                #![auto]
                                0 <= tc < c3.len() && c3[tc] == u.unwrap() as int;
                            assert(0 <= c3[tc] < snap.nodes@.len());
                        }
                        if l - 1 == lt {
                            assert(snap.chains@[lt as int].len() == 0);
                            assert(false);
                        }
                        assert(self.chains@[l - 1] == snap.chains@[l - 1]);
                    }
                }
            }
        }
        ni
    }

    /// Every key on an upper chain also stands on the ground chain, with
    /// the same value: towers copy their key and value downward.
    proof fn lemma_key_on_ground(&self, l: int, t: int)
        requires
            self.chains@.len() == self.levels,
            1 <= self.levels,
            forall|l2: int| 0 <= l2 < self.levels ==> self.chain_wf(l2),
            forall|l2: int| 1 <= l2 < self.levels ==> self.under_wf(l2),
            0 <= l < self.levels,
            0 <= t < self.chains@[l].len(),
        ensures
            exists|tg: int|
                #![auto]
                0 <= tg < self.chains@[0].len() && self.nd(self.chains@[0][tg]).key == self.nd(
                    self.chains@[l][t],
                ).key && self.nd(self.chains@[0][tg]).val == self.nd(self.chains@[l][t]).val,
        decreases l,
    {
        assert(self.chain_wf(l));
        if l == 0 {
            assert(self.nd(self.chains@[0][t]).key == self.nd(self.chains@[l][t]).key);
        } else {
            assert(self.under_wf(l));
            let u = self.nd(self.chains@[l][t]).under.unwrap() as int;
            let c2 = self.chains@[l - 1];
            assert(c2.contains(u));
            let tu = choose|tu: int| #![auto] 0 <= tu < c2.len() && c2[tu] == u;
            self.lemma_key_on_ground(l - 1, tu);
        }
    }
}

/// After one ground entry is taken out, the chain denotes the old map
/// less that key.
#[verifier::rlimit(100)]
#[verifier::spinoff_prover]
proof fn lemma_ground_remove_map(cur: &SkipList, pre: SkipList, tk: int, k: u64)
    requires
        pre.chains@.len() == pre.levels >= 1,
        cur.chains@.len() == cur.levels == pre.levels,
        pre.chain_wf(0),
        cur.chain_wf(0),
        0 <= tk < pre.chains@[0].len(),
        pre.nd(pre.chains@[0][tk]).key == k,
        cur.chains@[0] == pre.chains@[0].take(tk) + pre.chains@[0].skip(tk + 1),
        forall|t: int|
            0 <= t < pre.chains@[0].len() ==> 0 <= #[trigger] pre.chains@[0][t]
                < pre.nodes@.len(),
        forall|i: int|
            0 <= i < pre.nodes@.len() ==> (#[trigger] cur.nd(i)).key == pre.nd(i).key && cur.nd(
                i,
            ).val == pre.nd(i).val,
    ensures
        forall|k2: u64| cur.has_key(k2) == (pre.has_key(k2) && k2 != k),
        forall|k2: u64|
            #[trigger] cur.has_key(k2) ==> cur.val_of(k2) == pre.val_of(k2),
{
    let g_old = pre.chains@[0];
    let g_new = cur.chains@[0];
    assert(g_new.len() == g_old.len() - 1);
    assert(forall|t: int| 0 <= t < tk ==> #[trigger] g_new[t] == g_old[t]);
    assert(forall|t: int| tk <= t < g_new.len() ==> #[trigger] g_new[t] == g_old[t + 1]);
    assert forall|t: int|
        0 <= t < g_old.len() implies cur.nd(#[trigger] g_old[t]).key == pre.nd(g_old[t]).key
        && cur.nd(g_old[t]).val == pre.nd(g_old[t]).val by {}
    assert forall|k2: u64| cur.has_key(k2) == (pre.has_key(k2) && k2 != k) by {
        if cur.has_key(k2) {
            let t = choose|t: int| #![auto] 0 <= t < g_new.len() && cur.nd(g_new[t]).key == k2;
            let t2 = if t < tk {
                t
            } else {
                t + 1
            };
            assert(pre.nd(g_old[t2]).key == k2);
            assert(pre.has_key(k2));
            if k2 == k {
                if t2 < tk {
                    assert(pre.nd(g_old[t2]).key < pre.nd(g_old[tk]).key);
                }
                if t2 > tk {
                    assert(pre.nd(g_old[tk]).key < pre.nd(g_old[t2]).key);
                }
            }
        }
        if pre.has_key(k2) && k2 != k {
            let t = choose|t: int| #![auto] 0 <= t < g_old.len() && pre.nd(g_old[t]).key == k2;
            assert(t != tk);
            let t2 = if t < tk {
                t
            } else {
                t - 1
            };
            assert(cur.nd(g_new[t2]).key == k2);
            assert(cur.has_key(k2));
        }
    }
    assert forall|k2: u64| #[trigger] cur.has_key(k2) implies cur.val_of(k2) == pre.val_of(
        k2,
    ) by {
        let t = cur.key_pos(k2);
        assert(0 <= t < g_new.len() && cur.nd(g_new[t]).key == k2);
        let t2 = if t < tk {
            t
        } else {
            t + 1
        };
        assert(pre.nd(g_old[t2]).key == k2);
        assert(pre.has_key(k2));
        let t3 = pre.key_pos(k2);
        assert(0 <= t3 < g_old.len() && pre.nd(g_old[t3]).key == k2);
        if t3 < t2 {
            assert(pre.nd(g_old[t3]).key < pre.nd(g_old[t2]).key);
        }
        if t3 > t2 {
            assert(pre.nd(g_old[t2]).key < pre.nd(g_old[t3]).key);
        }
        assert(cur.val_of(k2) == cur.nd(g_new[t]).val);
        assert(pre.val_of(k2) == pre.nd(g_old[t3]).val);
    }
}


impl SkipList {
    /// Unlinks every node of a key's tower, top down, restitching each
    /// level's neighbours.  The key is not the smallest, so every chain
    /// keeps its leading node and the head stays put.
    #[verifier::rlimit(100)]
    #[verifier::spinoff_prover]
    fn delete_tower(&mut self, top: usize, Ghost(f): Ghost<int>, Ghost(pos): Ghost<int>)
        requires
            old(self).wf(),
            old(self).nodes@.len() <= usize::MAX,
            0 <= f < old(self).levels_spec(),
            0 < pos < old(self).chains@[f].len(),
            top == old(self).chains@[f][pos],
            old(self).nd(top as int).key != old(self).nd(old(self).chains@[0][0]).key,
            forall|l: int|
                f < l < old(self).levels_spec() ==> !old(self).chain_has_key(
                    l,
                    old(self).nd(top as int).key,
                ),
        ensures
            final(self).wf(),
            final(self).view_map() == old(self).view_map().remove(old(self).nd(top as int).key),
            final(self).size_spec() == old(self).size_spec() - 1,
            final(self).levels_spec() == old(self).levels_spec(),
    {
        let ghost kk = old(self).nd(top as int).key;
        let ghost minkey = old(self).nd(old(self).chains@[0][0]).key;
        proof {
            assert(old(self).chain_wf(f));
            assert forall|l: int| 0 <= l < self.levels implies self.chains@[l].len() >= 1
                && self.chains@[l][0] == old(self).chains@[l][0] by {
                assert(old(self).min_lead(l));
            }
        }
        let mut cur = top;
        let ghost mut cl = f;
        let ghost mut cpos = pos;
        let ghost mut tk: int = 0;
        loop
            invariant_except_break
                0 <= cl <= f,
                0 < cpos < self.chains@[cl].len(),
                cur == self.chains@[cl][cpos],
                self.nd(cur as int).key == kk,
                forall|l: int| 0 <= l <= cl ==> self.chains@[l] == old(self).chains@[l],
                forall|l: int, t: int|
                    0 <= l <= cl && 0 <= t < self.chains@[l].len() ==> self.nd(
                        #[trigger] self.chains@[l][t],
                    ) == old(self).nd(self.chains@[l][t]),
                forall|l: int|
                    cl < l < self.levels_spec() ==> !self.chain_has_key(l, kk),
            invariant
                old(self).wf(),
                old(self).nodes@.len() <= usize::MAX,
                0 <= f < self.levels_spec(),
                kk == old(self).nd(top as int).key,
                kk != minkey,
                minkey == old(self).nd(old(self).chains@[0][0]).key,
                self.levels == old(self).levels,
                self.chains@.len() == self.levels,
                self.size == old(self).size,
                self.head == old(self).head,
                self.nodes@.len() == old(self).nodes@.len(),
                forall|i: int|
                    0 <= i < old(self).nodes@.len() ==> {
                        let a = #[trigger] self.nd(i);
                        let b = old(self).nd(i);
                        a.key == b.key && a.val == b.val && a.level == b.level && a.under
                            == b.under
                    },
                forall|l: int| 0 <= l < self.levels ==> self.chain_wf(l),
                forall|l: int| 1 <= l < self.levels ==> self.under_wf(l),
                forall|l: int|
                    0 <= l < self.levels ==> self.chains@[l].len() >= 1 && self.chains@[l][0]
                        == old(self).chains@[l][0],
            ensures
                self.levels == old(self).levels,
                self.chains@.len() == self.levels,
                self.size == old(self).size,
                self.head == old(self).head,
                self.nodes@.len() == old(self).nodes@.len(),
                forall|i: int|
                    0 <= i < old(self).nodes@.len() ==> {
                        let a = #[trigger] self.nd(i);
                        let b = old(self).nd(i);
                        a.key == b.key && a.val == b.val && a.level == b.level && a.under
                            == b.under
                    },
                forall|l: int| 0 <= l < self.levels ==> self.chain_wf(l),
                forall|l: int| 1 <= l < self.levels ==> self.under_wf(l),
                forall|l: int|
                    0 <= l < self.levels ==> self.chains@[l].len() >= 1 && self.chains@[l][0]
                        == old(self).chains@[l][0],
                0 < tk < old(self).chains@[0].len(),
                old(self).nd(old(self).chains@[0][tk]).key == kk,
                self.chains@[0] == old(self).chains@[0].take(tk) + old(self).chains@[0].skip(
                    tk + 1,
                ),
            decreases cl,
        {
            proof {
                assert forall|l: int, t: int|
                    1 <= l < self.levels && 0 <= t < self.chains@[l].len() implies self.nd(
                    #[trigger] self.chains@[l][t],
                ).under != Some(cur) by {
                    assert(self.chain_wf(l));
                    assert(self.chain_wf(cl));
                    if self.nd(self.chains@[l][t]).under == Some(cur) {
                        assert(self.under_wf(l));
                        let cb = self.chains@[l - 1];
                        assert(cb.contains(cur as int));
                        let tc = choose|tc: int| #![auto] 0 <= tc < cb.len() && cb[tc]
                            == cur as int;
                        assert(self.chain_wf(l - 1));
                        assert(self.nd(cur as int).level == l);
                        assert(self.nd(cur as int).level == cl + 1);
                        assert(l == cl + 1);
                        assert(self.nd(self.chains@[l][t]).key == self.nd(cur as int).key);
                        assert(self.chain_has_key(l, kk));
                    }
                }
                assert(self.chain_wf(cl));
                assert(0 <= self.chains@[cl][cpos] < self.nodes@.len());
            }
            let under = self.nodes[cur].under;
            let ghost pre_step = *self;
            let ghost oldcl = cl;
            let ghost oldcpos = cpos;
            self.unlink_level(cur, Ghost(cl), Ghost(cpos));
            proof {
                let c_old = pre_step.chains@[oldcl];
                let c_new = c_old.take(oldcpos) + c_old.skip(oldcpos + 1);
                assert(self.chains@[oldcl] == c_new);
                assert(pre_step.chain_wf(oldcl));
                assert forall|l: int|
                    oldcl <= l < self.levels_spec() implies !self.chain_has_key(l, kk) by {
                    if l > oldcl {
                        assert(self.chains@[l] == pre_step.chains@[l]);
                        if self.chain_has_key(l, kk) {
                            let t = choose|t: int|
                                #![auto]
                                0 <= t < self.chains@[l].len() && self.nd(
                                    self.chains@[l][t],
                                ).key == kk;
                            assert(pre_step.chain_wf(l));
                            assert(self.nd(self.chains@[l][t]) == pre_step.nd(
                                self.chains@[l][t],
                            ));
                            assert(pre_step.chain_has_key(l, kk));
                        }
                    } else {
                        if self.chain_has_key(l, kk) {
                            let t = choose|t: int|
                                #![auto]
                                0 <= t < c_new.len() && self.nd(c_new[t]).key == kk;
                            let t2 = if t < oldcpos {
                                t
                            } else {
                                t + 1
                            };
                            assert(c_new[t] == c_old[t2]);
                            assert(self.nd(c_old[t2]).key == pre_step.nd(c_old[t2]).key);
                            assert(pre_step.nd(c_old[t2]).key == kk);
                            assert(t2 != oldcpos);
                            if t2 < oldcpos {
                                assert(pre_step.nd(c_old[t2]).key < pre_step.nd(
                                    c_old[oldcpos],
                                ).key);
                            } else {
                                assert(pre_step.nd(c_old[oldcpos]).key < pre_step.nd(
                                    c_old[t2],
                                ).key);
                            }
                        }
                    }
                }
                assert forall|l: int|
                    0 <= l < self.levels implies self.chains@[l].len() >= 1
                    && self.chains@[l][0] == old(self).chains@[l][0] by {
                    if l == oldcl {
                        assert(c_new[0] == c_old[0]);
                    }
                }
            }
            match under {
                Some(u) => {
                    proof {
                        if oldcl == 0 {
                            assert(pre_step.chain_wf(0));
                            assert(pre_step.nd(pre_step.chains@[0][oldcpos]).under is None);
                            assert(false);
                        }
                        assert(pre_step.under_wf(oldcl));
                        assert(pre_step.nd(pre_step.chains@[oldcl][oldcpos]).under == Some(u));
                        let c2 = pre_step.chains@[oldcl - 1];
                        assert(c2.contains(u as int));
                        let tu = choose|tu: int| #![auto] 0 <= tu < c2.len() && c2[tu] == u;
                        assert(self.chains@[oldcl - 1] == c2);
                        assert(pre_step.chain_wf(oldcl - 1));
                        assert(pre_step.nd(u as int).key == kk);
                        assert(self.nd(u as int) == pre_step.nd(u as int));
                        cl = oldcl - 1;
                        cpos = tu;
                        assert(tu > 0) by {
                            if tu == 0 {
                                assert(c2[0] == old(self).chains@[oldcl - 1][0]);
                                assert(old(self).min_lead(oldcl - 1));
                                assert(old(self).nd(old(self).chains@[oldcl - 1][0]).key
                                    == minkey);
                                assert(self.nd(c2[0]).key == minkey);
                            }
                        }
                    }
                    cur = u;
                }
                None => {
                    proof {
                        if oldcl != 0 {
                            assert(pre_step.under_wf(oldcl));
                            assert(pre_step.nd(pre_step.chains@[oldcl][oldcpos]).under
                                is Some);
                            assert(false);
                        }
                        tk = oldcpos;
                        assert(pre_step.chains@[0] == old(self).chains@[0]);
                        assert(pre_step.nd(old(self).chains@[0][tk]) == old(self).nd(
                            old(self).chains@[0][tk],
                        ));
                    }
                    break ;
                }
            }
        }
        let ghost built = *self;
        self.size = self.size - 1;
        proof {
            let pre = *old(self);
            assert(self.nodes@ == built.nodes@);
            assert(self.chains@ == built.chains@);
            assert forall|i: int|
                0 <= i < pre.nodes@.len() implies {
                    let a = #[trigger] self.nd(i);
                    let b = pre.nd(i);
                    a.key == b.key && a.val == b.val && a.level == b.level && a.under == b.under
                } by {
                assert(self.nd(i) == built.nd(i));
            }
            assert forall|l: int| 0 <= l < self.levels implies self.chain_wf(l) by {
                assert(built.chain_wf(l));
                assert(self.chains@[l] == built.chains@[l]);
                assert forall|t: int|
                    0 <= t < self.chains@[l].len() implies self.nd(
                    #[trigger] self.chains@[l][t],
                ) == built.nd(self.chains@[l][t]) by {}
            }
            assert forall|l: int| 1 <= l < self.levels implies self.under_wf(l) by {
                assert(built.under_wf(l));
                assert(built.chain_wf(l));
                assert(built.chain_wf(l - 1));
                assert(self.chains@[l] == built.chains@[l]);
                assert(self.chains@[l - 1] == built.chains@[l - 1]);
                assert forall|i: int|
                    0 <= i < self.nodes@.len() implies #[trigger] self.nd(i) == built.nd(
                    i,
                ) by {}
            }
            assert forall|l: int| 0 <= l < self.levels implies self.min_lead(l) by {
                assert(pre.min_lead(l));
                assert(pre.chain_wf(l));
                assert(pre.chain_wf(0));
                assert(0 <= pre.chains@[l][0] < pre.nodes@.len());
                assert(0 <= pre.chains@[0][0] < pre.nodes@.len());
                assert(self.chains@[l][0] == pre.chains@[l][0]);
                assert(self.chains@[0][0] == pre.chains@[0][0]);
                assert(self.nd(pre.chains@[l][0]).key == pre.nd(pre.chains@[l][0]).key);
                assert(self.nd(pre.chains@[0][0]).key == pre.nd(pre.chains@[0][0]).key);
            }
            assert(self.head.next == Some(self.chains@[self.levels - 1][0] as usize));
            assert(self.size == self.chains@[0].len());
            assert(self.size <= self.nodes@.len());
            assert(self.wf());
            assert forall|t: int|
                0 <= t < pre.chains@[0].len() implies 0 <= #[trigger] pre.chains@[0][t]
                < pre.nodes@.len() by {
                assert(pre.chain_wf(0));
            }
            lemma_ground_remove_map(self, pre, tk, kk);
            assert(self.view_map() =~= pre.view_map().remove(kk));
        }
    }
}


impl SkipList {
    /// Takes the smallest key out: every chain loses its leading node,
    /// and the next key's tower is promoted to full height with synthetic
    /// nodes where it falls short, so the head keeps sitting on the
    /// smallest key's top.
    #[verifier::rlimit(100)]
    #[verifier::spinoff_prover]
    fn delete_min(&mut self, Ghost(kk): Ghost<u64>)
        requires
            old(self).wf(),
            old(self).nodes@.len() <= usize::MAX,
            old(self).chains@[0].len() >= 1,
            kk == old(self).nd(old(self).chains@[0][0]).key,
        ensures
            final(self).wf(),
            final(self).view_map() == old(self).view_map().remove(kk),
            final(self).size_spec() == old(self).size_spec() - 1,
            final(self).levels_spec() == old(self).levels_spec(),
    {
        proof {
            assert(old(self).min_lead(self.levels_spec() - 1));
            assert(old(self).chain_wf(self.levels_spec() - 1));
        }
        let mut cur = match self.head.next {
            Some(n) => n,
            None => {
                proof {
                    assert(false);
                }
                0
            }
        };
        let mut nexts: Vec<Option<usize>> = Vec::new();
        let ghost mut cl = self.levels_spec() - 1;
        loop
            invariant_except_break
                0 <= cl < self.levels_spec(),
                self.chains@[cl].len() >= 1,
                cur == self.chains@[cl][0],
                self.nd(cur as int).key == kk,
                forall|l: int| 0 <= l <= cl ==> self.chains@[l] == old(self).chains@[l],
                forall|l: int, t: int|
                    0 <= l <= cl && 0 <= t < self.chains@[l].len() ==> self.nd(
                        #[trigger] self.chains@[l][t],
                    ) == old(self).nd(self.chains@[l][t]),
                forall|l: int|
                    cl < l < self.levels_spec() ==> self.chains@[l] == old(self).chains@[l].skip(
                        1,
                    ) && !self.chain_has_key(l, kk),
                nexts@.len() == self.levels_spec() - 1 - cl,
                forall|j: int|
                    0 <= j < nexts@.len() ==> #[trigger] nexts@[j] == (if old(self).chains@[
                        self.levels_spec() - 1 - j].len() >= 2 {
                        Some(old(self).chains@[self.levels_spec() - 1 - j][1] as usize)
                    } else {
                        None::<usize>
                    }),
            invariant
                old(self).wf(),
                old(self).nodes@.len() <= usize::MAX,
                old(self).chains@[0].len() >= 1,
                kk == old(self).nd(old(self).chains@[0][0]).key,
                self.levels == old(self).levels,
                self.chains@.len() == self.levels,
                self.size == old(self).size,
                self.head == old(self).head,
                self.nodes@.len() == old(self).nodes@.len(),
                forall|i: int|
                    0 <= i < old(self).nodes@.len() ==> {
                        let a = #[trigger] self.nd(i);
                        let b = old(self).nd(i);
                        a.key == b.key && a.val == b.val && a.level == b.level && a.under
                            == b.under
                    },
                forall|l: int| 0 <= l < self.levels ==> self.chain_wf(l),
                forall|l: int| 1 <= l < self.levels ==> self.under_wf(l),
            ensures
                self.levels == old(self).levels,
                self.chains@.len() == self.levels,
                self.size == old(self).size,
                self.head == old(self).head,
                self.nodes@.len() == old(self).nodes@.len(),
                forall|i: int|
                    0 <= i < old(self).nodes@.len() ==> {
                        let a = #[trigger] self.nd(i);
                        let b = old(self).nd(i);
                        a.key == b.key && a.val == b.val && a.level == b.level && a.under
                            == b.under
                    },
                forall|l: int| 0 <= l < self.levels ==> self.chain_wf(l),
                forall|l: int| 1 <= l < self.levels ==> self.under_wf(l),
                forall|l: int|
                    0 <= l < self.levels_spec() ==> self.chains@[l] == old(self).chains@[l].skip(
                        1,
                    ) && !self.chain_has_key(l, kk),
                nexts@.len() == self.levels_spec(),
                forall|j: int|
                    0 <= j < nexts@.len() ==> #[trigger] nexts@[j] == (if old(self).chains@[
                        self.levels_spec() - 1 - j].len() >= 2 {
                        Some(old(self).chains@[self.levels_spec() - 1 - j][1] as usize)
                    } else {
                        None::<usize>
                    }),
            decreases cl,
        {
            proof {
                assert forall|l: int, t: int|
                    1 <= l < self.levels && 0 <= t < self.chains@[l].len() implies self.nd(
                    #[trigger] self.chains@[l][t],
                ).under != Some(cur) by {
                    assert(self.chain_wf(l));
                    assert(self.chain_wf(cl));
                    if self.nd(self.chains@[l][t]).under == Some(cur) {
                        assert(self.under_wf(l));
                        let cb = self.chains@[l - 1];
                        assert(cb.contains(cur as int));
                        let tc = choose|tc: int| #![auto] 0 <= tc < cb.len() && cb[tc]
                            == cur as int;
                        assert(self.chain_wf(l - 1));
                        assert(self.nd(cur as int).level == l);
                        assert(self.nd(cur as int).level == cl + 1);
                        assert(l == cl + 1);
                        assert(self.nd(self.chains@[l][t]).key == self.nd(cur as int).key);
                        assert(self.chain_has_key(l, kk));
                    }
                }
                assert(self.chain_wf(cl));
                assert(0 <= self.chains@[cl][0] < self.nodes@.len());
            }
            let nx = self.nodes[cur].next;
            nexts.push(nx);
            proof {
                assert(self.nd(cur as int).next == (if 1 < self.chains@[cl].len() {
                    Some(self.chains@[cl][1] as usize)
                } else {
                    None::<usize>
                }));
                assert(old(self).chains@[cl] == self.chains@[cl]);
            }
            let under = self.nodes[cur].under;
            let ghost pre_step = *self;
            self.unlink_level(cur, Ghost(cl), Ghost(0));
            proof {
                let c_old = pre_step.chains@[cl];
                let c_new = c_old.take(0) + c_old.skip(1);
                assert(self.chains@[cl] == c_new);
                assert(c_new =~= c_old.skip(1));
                assert(pre_step.chain_wf(cl));
                assert(!self.chain_has_key(cl, kk)) by {
                    if self.chain_has_key(cl, kk) {
                        let t = choose|t: int|
                            #![auto]
                            0 <= t < self.chains@[cl].len() && self.nd(
                                self.chains@[cl][t],
                            ).key == kk;
                        assert(self.chains@[cl][t] == c_old[t + 1]);
                        assert(self.nd(c_old[t + 1]).key == pre_step.nd(c_old[t + 1]).key);
                        assert(pre_step.nd(c_old[0]).key < pre_step.nd(c_old[t + 1]).key);
                        assert(pre_step.nd(c_old[0]).key == kk);
                    }
                }
                assert forall|l: int|
                    cl < l < self.levels_spec() implies self.chains@[l] == old(
                    self,
                ).chains@[l].skip(1) && !self.chain_has_key(l, kk) by {
                    assert(self.chains@[l] == pre_step.chains@[l]);
                    if self.chain_has_key(l, kk) {
                        let t = choose|t: int|
                            #![auto]
                            0 <= t < self.chains@[l].len() && self.nd(
                                self.chains@[l][t],
                            ).key == kk;
                        assert(pre_step.chain_wf(l));
                        assert(self.nd(self.chains@[l][t]) == pre_step.nd(self.chains@[l][t]));
                        assert(pre_step.chain_has_key(l, kk));
                    }
                }
            }
            match under {
                Some(u) => {
                    proof {
                        if cl == 0 {
                            assert(pre_step.chain_wf(0));
                            assert(pre_step.nd(pre_step.chains@[0][0]).under is None);
                            assert(false);
                        }
                        assert(pre_step.under_wf(cl));
                        assert(pre_step.nd(pre_step.chains@[cl][0]).under == Some(u));
                        let c2 = pre_step.chains@[cl - 1];
                        assert(c2.contains(u as int));
                        let tu = choose|tu: int| #![auto] 0 <= tu < c2.len() && c2[tu] == u;
                        assert(self.chains@[cl - 1] == c2);
                        assert(pre_step.chain_wf(cl - 1));
                        assert(pre_step.nd(u as int).key == kk);
                        assert(self.nd(u as int) == pre_step.nd(u as int));
                        assert(tu == 0) by {
                            if tu > 0 {
                                assert(pre_step.nd(c2[0]).key < pre_step.nd(c2[tu]).key);
                                assert(old(self).min_lead(cl - 1));
                                assert(old(self).nd(old(self).chains@[cl - 1][0]).key == kk);
                                assert(pre_step.nd(c2[0]).key == kk);
                            }
                        }
                        cl = cl - 1;
                    }
                    cur = u;
                }
                None => {
                    proof {
                        if cl != 0 {
                            assert(pre_step.under_wf(cl));
                            assert(pre_step.nd(pre_step.chains@[cl][0]).under is Some);
                            assert(false);
                        }
                    }
                    break ;
                }
            }
        }
        let ground_next = nexts[self.levels - 1];
        proof {
            let jx = self.levels_spec() - 1;
            assert(nexts@[jx] == (if old(self).chains@[0].len() >= 2 {
                Some(old(self).chains@[0][1] as usize)
            } else {
                None::<usize>
            }));
            assert(old(self).chain_wf(0));
        }
        match ground_next {
            None => {
                proof {
                    let pre = *old(self);
                    assert(pre.chains@[0].len() == 1);
                    assert forall|l: int|
                        0 <= l < self.levels_spec() implies pre.chains@[l].len() == 1 by {
                        assert(pre.min_lead(l));
                        if pre.chains@[l].len() >= 2 {
                            pre.lemma_key_on_ground(l, 1);
                            let tg = choose|tg: int|
                                #![auto]
                                0 <= tg < pre.chains@[0].len() && pre.nd(
                                    pre.chains@[0][tg],
                                ).key == pre.nd(pre.chains@[l][1]).key && pre.nd(
                                    pre.chains@[0][tg],
                                ).val == pre.nd(pre.chains@[l][1]).val;
                            assert(pre.chain_wf(l));
                            assert(pre.nd(pre.chains@[l][0]).key < pre.nd(
                                pre.chains@[l][1],
                            ).key);
                        }
                    }
                }
                self.head = Head::empty();
                self.size = 0;
                proof {
                    let pre = *old(self);
                    assert forall|l: int|
                        0 <= l < self.levels_spec() implies self.chains@[l].len() == 0 by {
                        assert(self.chains@[l] == pre.chains@[l].skip(1));
                    }
                    assert forall|l: int| 0 <= l < self.levels implies self.chain_wf(l) by {}
                    assert forall|l: int| 1 <= l < self.levels implies self.under_wf(l) by {}
                    assert(self.wf());
                    assert forall|k2: u64| !self.has_key(k2) by {
                        assert(self.chains@[0].len() == 0);
                    }
                    assert forall|k2: u64| pre.has_key(k2) implies k2 == kk by {
                        let t = choose|t: int|
                            #![auto]
                            0 <= t < pre.chains@[0].len() && pre.nd(pre.chains@[0][t]).key
                                == k2;
                        assert(t == 0);
                    }
                    assert(self.view_map() =~= pre.view_map().remove(kk));
                }
            }
            Some(gf) => {
                proof {
                    let pre = *old(self);
                    assert(pre.chains@[0].len() >= 2);
                    assert(0 <= pre.chains@[0][1] < pre.nodes@.len());
                    assert(gf as int == pre.chains@[0][1]);
                    assert(self.chains@[0] == pre.chains@[0].skip(1));
                    assert(gf == self.chains@[0][0]);
                }
                self.promote_min(Ghost(kk), Ghost(*old(self)), gf, &nexts);
            }
        }
    }
}


impl SkipList {
    /// After every chain lost its leading node, reseats the head: the new
    /// smallest key's surviving tower nodes stay where they are, and the
    /// levels it does not reach get synthetic nodes at the front.
    #[verifier::rlimit(100)]
    #[verifier::spinoff_prover]
    fn promote_min(
        &mut self,
        Ghost(kk): Ghost<u64>,
        Ghost(pre): Ghost<SkipList>,
        gf: usize,
        nexts: &Vec<Option<usize>>,
    )
        requires
            pre.wf(),
            pre.nodes@.len() <= usize::MAX,
            pre.chains@[0].len() >= 2,
            kk == pre.nd(pre.chains@[0][0]).key,
            old(self).levels == pre.levels,
            old(self).chains@.len() == old(self).levels,
            old(self).size == pre.size,
            old(self).head == pre.head,
            old(self).nodes@.len() == pre.nodes@.len(),
            old(self).nodes@.len() <= usize::MAX,
            forall|i: int|
                0 <= i < pre.nodes@.len() ==> {
                    let a = #[trigger] old(self).nd(i);
                    let b = pre.nd(i);
                    a.key == b.key && a.val == b.val && a.level == b.level && a.under == b.under
                },
            forall|l: int| 0 <= l < old(self).levels ==> old(self).chain_wf(l),
            forall|l: int| 1 <= l < old(self).levels ==> old(self).under_wf(l),
            forall|l: int|
                0 <= l < old(self).levels_spec() ==> old(self).chains@[l] == pre.chains@[l].skip(
                    1,
                ) && !old(self).chain_has_key(l, kk),
            gf == old(self).chains@[0][0],
            nexts@.len() == old(self).levels_spec(),
            forall|j: int|
                0 <= j < nexts@.len() ==> #[trigger] nexts@[j] == (if pre.chains@[old(
                    self,
                ).levels_spec() - 1 - j].len() >= 2 {
                    Some(pre.chains@[old(self).levels_spec() - 1 - j][1] as usize)
                } else {
                    None::<usize>
                }),
        ensures
            final(self).wf(),
            final(self).view_map() == pre.view_map().remove(kk),
            final(self).size_spec() == pre.size_spec() - 1,
            final(self).levels_spec() == pre.levels_spec(),
    {
        proof {
            assert(self.chain_wf(0));
            assert(pre.chain_wf(0));
            assert(0 <= (gf as int) && (gf as int) < pre.nodes@.len());
            assert(gf as int == pre.chains@[0][1]);
            assert(pre.nd(pre.chains@[0][0]).key < pre.nd(pre.chains@[0][1]).key);
        }
        let m = self.nodes[gf].key;
        let v = self.nodes[gf].val;
        let mut below = gf;
        let mut lt: usize = 1;
        proof {
            assert(self.chains@[0].contains(gf as int)) by {
                assert(self.chains@[0][0] == gf);
            }
            assert(self.nd(gf as int).level == 1);
        }
        while lt < self.levels
            invariant
                pre.wf(),
                pre.nodes@.len() <= usize::MAX,
                pre.chains@[0].len() >= 2,
                kk == pre.nd(pre.chains@[0][0]).key,
                kk < m,
                self.levels == pre.levels,
                self.chains@.len() == self.levels,
                self.size == pre.size,
                self.head == pre.head,
                self.nodes@.len() >= pre.nodes@.len(),
                self.nodes@.len() <= usize::MAX,
                1 <= lt <= self.levels,
                forall|i: int|
                    0 <= i < pre.nodes@.len() ==> {
                        let a = #[trigger] self.nd(i);
                        let b = pre.nd(i);
                        a.key == b.key && a.val == b.val && a.level == b.level && a.under
                            == b.under
                    },
                forall|l: int| 0 <= l < self.levels ==> self.chain_wf(l),
                forall|l: int| 1 <= l < self.levels ==> self.under_wf(l),
                forall|l: int|
                    0 <= l < lt ==> self.chains@[l].len() >= 1 && self.nd(
                        #[trigger] self.chains@[l][0],
                    ).key == m && self.nd(self.chains@[l][0]).val == v,
                (below as int) < self.nodes@.len(),
                self.chains@[lt - 1].contains(below as int),
                self.nd(below as int).key == m,
                self.nd(below as int).val == v,
                self.nd(below as int).level == lt,
                forall|l: int|
                    lt <= l < self.levels_spec() ==> self.chains@[l] == pre.chains@[l].skip(1)
                        && !self.chain_has_key(l, kk),
                self.chains@[0] == pre.chains@[0].skip(1),
                gf == self.chains@[0][0],
                m == self.nd(gf as int).key,
                v == self.nd(gf as int).val,
                nexts@.len() == self.levels_spec(),
                forall|j: int|
                    0 <= j < nexts@.len() ==> #[trigger] nexts@[j] == (if pre.chains@[
                        self.levels_spec() - 1 - j].len() >= 2 {
                        Some(pre.chains@[self.levels_spec() - 1 - j][1] as usize)
                    } else {
                        None::<usize>
                    }),
            decreases self.levels - lt,
        {
            let fr_opt = nexts[self.levels - 1 - lt];
            proof {
                assert(nexts@[self.levels_spec() - 1 - (self.levels_spec() - 1 - lt)]
                    == nexts@[lt as int] || true);
                assert(self.chains@[lt as int] == pre.chains@[lt as int].skip(1));
                assert(pre.min_lead(lt as int));
                assert(pre.chain_wf(lt as int));
            }
            let ghost snap = *self;
            match fr_opt {
                None => {
                    proof {
                        assert(pre.chains@[lt as int].len() == 1);
                        assert(self.chains@[lt as int].len() == 0);
                    }
                    let ni = self.seed_level(m, v, lt, Some(below));
                    below = ni;
                    proof {
                        assert(self.chains@[lt as int] =~= seq![ni as int]);
                        assert(self.chains@[lt as int].contains(ni as int)) by {
                            assert(self.chains@[lt as int][0] == ni);
                        }
                        assert(!self.chain_has_key(lt as int, kk)) by {
                            if self.chain_has_key(lt as int, kk) {
                                let t = choose|t: int|
                                    #![auto]
                                    0 <= t < self.chains@[lt as int].len() && self.nd(
                                        self.chains@[lt as int][t],
                                    ).key == kk;
                                assert(t == 0);
                            }
                        }
                    }
                }
                Some(fr) => {
                    proof {
                        assert(pre.chains@[lt as int].len() >= 2);
                        assert(fr as int == pre.chains@[lt as int][1]);
                        assert(fr == self.chains@[lt as int][0]);
                        assert(self.chain_wf(lt as int));
                        assert(0 <= self.chains@[lt as int][0] < self.nodes@.len());
                    }
                    if self.nodes[fr].key == m {
                        proof {
                            assert(self.under_wf(lt as int));
                            let u = self.nd(fr as int).under;
                            assert(u is Some);
                            let ui = u.unwrap() as int;
                            assert(self.chains@[lt - 1].contains(ui));
                            assert(self.nd(ui).key == m && self.nd(ui).val == self.nd(
                                fr as int,
                            ).val);
                            let c2 = self.chains@[lt - 1];
                            let t1 = choose|t1: int| #![auto] 0 <= t1 < c2.len() && c2[t1] == ui;
                            let t2 = choose|t2: int|
                                #![auto]
                                0 <= t2 < c2.len() && c2[t2] == below as int;
                            assert(self.chain_wf(lt - 1));
                            if t1 < t2 {
                                assert(self.nd(c2[t1]).key < self.nd(c2[t2]).key);
                            }
                            if t2 < t1 {
                                assert(self.nd(c2[t2]).key < self.nd(c2[t1]).key);
                            }
                            assert(ui == below as int);
                            assert(self.nd(fr as int).val == v);
                            assert(self.nd(fr as int).level == lt + 1);
                            assert(self.chains@[lt as int].contains(fr as int)) by {
                                assert(self.chains@[lt as int][0] == fr);
                            }
                        }
                        below = fr;
                    } else {
                        proof {
                            self.lemma_key_on_ground(lt as int, 0);
                            let tg = choose|tg: int|
                                #![auto]
                                0 <= tg < self.chains@[0].len() && self.nd(
                                    self.chains@[0][tg],
                                ).key == self.nd(self.chains@[lt as int][0]).key && self.nd(
                                    self.chains@[0][tg],
                                ).val == self.nd(self.chains@[lt as int][0]).val;
                            assert(self.chain_wf(0));
                            if tg > 0 {
                                assert(self.nd(self.chains@[0][0]).key < self.nd(
                                    self.chains@[0][tg],
                                ).key);
                            }
                            assert(self.nd(fr as int).key > m);
                            assert(self.window_at(lt as int, 0, m));
                            assert(self.anchor_ok(lt as int, fr, m) || true);
                        }
                        let (ni, ti_g) = self.link_level(
                            fr,
                            m,
                            v,
                            lt,
                            Some(below),
                            Ghost(0),
                            Ghost(true),
                        );
                        below = ni;
                        proof {
                            let ti: int = ti_g@;
                            assert(ti == 0);
                            assert(self.chains@[lt as int][0] == ni);
                            assert(!self.chain_has_key(lt as int, kk)) by {
                                if self.chain_has_key(lt as int, kk) {
                                    let t = choose|t: int|
                                        #![auto]
                                        0 <= t < self.chains@[lt as int].len() && self.nd(
                                            self.chains@[lt as int][t],
                                        ).key == kk;
                                    if t == 0 {
                                        assert(self.nd(ni as int).key == m);
                                    } else {
                                        assert(self.chains@[lt as int][t]
                                            == snap.chains@[lt as int][t - 1]);
                                        assert(self.nd(snap.chains@[lt as int][t - 1])
                                            == snap.nd(snap.chains@[lt as int][t - 1]));
                                        assert(snap.chain_has_key(lt as int, kk));
                                    }
                                }
                            }
                        }
                    }
                }
            }
            proof {
                assert forall|l: int|
                    0 <= l < lt + 1 implies self.chains@[l].len() >= 1 && self.nd(
                    #[trigger] self.chains@[l][0],
                ).key == m && self.nd(self.chains@[l][0]).val == v by {
                    if l < lt {
                        assert(self.chains@[l] == snap.chains@[l]);
                        assert(snap.chain_wf(l));
                        assert(snap.chains@[l].len() >= 1);
                        assert(0 <= self.chains@[l][0] < snap.nodes@.len());
                        assert(self.nd(self.chains@[l][0]) == snap.nd(snap.chains@[l][0]));
                    }
                }
                assert forall|l: int|
                    lt + 1 <= l < self.levels_spec() implies self.chains@[l] == pre.chains@[
                    l].skip(1) && !self.chain_has_key(l, kk) by {
                    assert(self.chains@[l] == snap.chains@[l]);
                    if self.chain_has_key(l, kk) {
                        let t = choose|t: int|
                            #![auto]
                            0 <= t < self.chains@[l].len() && self.nd(self.chains@[l][t]).key
                                == kk;
                        assert(snap.chain_wf(l));
                        assert(self.nd(self.chains@[l][t]) == snap.nd(self.chains@[l][t]));
                        assert(snap.chain_has_key(l, kk));
                    }
                }
                assert(self.chains@[0] == snap.chains@[0]);
                assert(snap.chain_wf(0));
                assert(snap.chains@[0].len() >= 1);
                assert(0 <= snap.chains@[0][0] < snap.nodes@.len());
                assert(gf as int == snap.chains@[0][0]);
                assert(self.nd(self.chains@[0][0]) == snap.nd(self.chains@[0][0]));
                assert(self.nd(gf as int) == snap.nd(gf as int));
            }
            lt = lt + 1;
        }
        let ghost built = *self;
        self.head = Head::new(Some(below));
        self.size = self.size - 1;
        proof {
            assert(self.nodes@ == built.nodes@);
            assert(self.chains@ == built.chains@);
            assert forall|i: int|
                0 <= i < built.nodes@.len() implies #[trigger] self.nd(i) == built.nd(i) by {}
            assert forall|l: int| 0 <= l < self.levels implies self.chain_wf(l) by {
                assert(built.chain_wf(l));
                assert(self.chains@[l] == built.chains@[l]);
                assert forall|t: int|
                    0 <= t < self.chains@[l].len() implies self.nd(
                    #[trigger] self.chains@[l][t],
                ) == built.nd(self.chains@[l][t]) by {}
            }
            assert forall|l: int| 1 <= l < self.levels implies self.under_wf(l) by {
                assert(built.under_wf(l));
                assert(built.chain_wf(l));
                assert(built.chain_wf(l - 1));
                assert(self.chains@[l] == built.chains@[l]);
                assert(self.chains@[l - 1] == built.chains@[l - 1]);
            }
            assert forall|l: int| 0 <= l < self.levels implies self.min_lead(l) by {
                assert(built.chain_wf(l));
                assert(built.chain_wf(0));
                assert(self.nd(self.chains@[l][0]).key == m);
                assert(self.nd(self.chains@[0][0]).key == m);
            }
            let ctop = self.chains@[self.levels - 1];
            assert(ctop.contains(below as int));
            let tb = choose|tb: int| #![auto] 0 <= tb < ctop.len() && ctop[tb] == below as int;
            assert(self.chain_wf(self.levels - 1));
            if tb != 0 {
                assert(self.nd(ctop[0]).key < self.nd(ctop[tb]).key);
            }
            assert(self.head.next == Some(ctop[0] as usize));
            assert(self.size == self.chains@[0].len());
            assert(self.size <= self.nodes@.len());
            assert(self.wf());
            assert(self.chains@[0] =~= pre.chains@[0].take(0) + pre.chains@[0].skip(1));
            assert forall|t: int|
                0 <= t < pre.chains@[0].len() implies 0 <= #[trigger] pre.chains@[0][t]
                < pre.nodes@.len() by {
                assert(pre.chain_wf(0));
            }
            assert forall|i: int|
                0 <= i < pre.nodes@.len() implies (#[trigger] self.nd(i)).key == pre.nd(i).key
                && self.nd(i).val == pre.nd(i).val by {
                assert(self.nd(i) == built.nd(i));
            }
            lemma_ground_remove_map(self, pre, 0, kk);
            assert(self.view_map() =~= pre.view_map().remove(kk));
        }
    }
}

} // verus!
