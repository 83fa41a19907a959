use vstd::prelude::*;

verus! {

use crate::entropy::random_byte;

/// A degree sequence is canonical when it is strictly descending: sorted,
/// with no duplicates.
pub open spec fn sdd(s: Seq<i64>) -> bool {
    forall|i: int, j: int| 0 <= i < j < s.len() ==> s[i] > s[j]
}

/// All degrees are non-negative.
pub open spec fn snn(s: Seq<i64>) -> bool {
    forall|i: int| 0 <= i < s.len() ==> s[i] >= 0
}

/// The degree of a polynomial given by its canonical degree sequence; the
/// zero polynomial has degree -1.
pub open spec fn sdeg(s: Seq<i64>) -> int {
    if s.len() == 0 {
        -1
    } else {
        s[0] as int
    }
}

/// Puts a degree into a canonical sequence, keeping it canonical.
pub open spec fn insert_desc(s: Seq<i64>, x: i64) -> Seq<i64>
    decreases s.len(),
{
    if s.len() == 0 {
        seq![x]
    } else if s[0] == x {
        s
    } else if s[0] > x {
        seq![s[0]] + insert_desc(s.skip(1), x)
    } else {
        seq![x] + s
    }
}

/// The union of two degree sets: the right sequence folded into the left.
pub open spec fn sunion(a: Seq<i64>, b: Seq<i64>) -> Seq<i64>
    decreases b.len(),
{
    if b.len() == 0 {
        a
    } else {
        sunion(insert_desc(a, b[0]), b.skip(1))
    }
}

/// The degrees of `a` that do not occur in `b`, in their order in `a`.
pub open spec fn sdiff(a: Seq<i64>, b: Seq<i64>) -> Seq<i64>
    decreases a.len(),
{
    if a.len() == 0 {
        Seq::empty()
    } else if b.contains(a.last()) {
        sdiff(a.drop_last(), b)
    } else {
        sdiff(a.drop_last(), b).push(a.last())
    }
}

/// Addition over GF(2): the symmetric difference of the degree sets.
pub open spec fn sxor(a: Seq<i64>, b: Seq<i64>) -> Seq<i64> {
    sunion(sdiff(a, b), sdiff(b, a))
}

/// Multiplication by x^k: every degree moves up by k.
pub open spec fn sshift(a: Seq<i64>, k: i64) -> Seq<i64> {
    a.map_values(|x: i64| (x + k) as i64)
}

/// Putting a degree in keeps the sequence canonical and adds exactly that
/// degree to the set.
pub proof fn lemma_insert_desc(s: Seq<i64>, x: i64)
    requires
        sdd(s),
    ensures
        sdd(insert_desc(s, x)),
        forall|d: i64| #![all_triggers] insert_desc(s, x).contains(d) <==> (s.contains(d) || d
            == x),
        insert_desc(s, x).len() >= 1,
        insert_desc(s, x)[0] == if s.len() > 0 && s[0] > x {
            s[0]
        } else {
            x
        },
        snn(s) && x >= 0 ==> snn(insert_desc(s, x)),
    decreases s.len(),
{
    let r = insert_desc(s, x);
    if s.len() == 0 {
        assert forall|d: i64| r.contains(d) <==> (s.contains(d) || d == x) by {
            if d == x {
                assert(r[0] == x);
            }
        }
    } else if s[0] == x {
        assert forall|d: i64| r.contains(d) <==> (s.contains(d) || d == x) by {
            if d == x {
                assert(s[0] == d);
            }
        }
    } else if s[0] > x {
        let tail = s.skip(1);
        assert(sdd(tail));
        lemma_insert_desc(tail, x);
        let rt = insert_desc(tail, x);
        assert(r == seq![s[0]] + rt);
        assert forall|d: i64| r.contains(d) implies (s.contains(d) || d == x) by {
            let i = choose|i: int| 0 <= i < r.len() && r[i] == d;
            if i == 0 {
                assert(s[0] == d);
            } else {
                assert(rt[i - 1] == d);
                assert(rt.contains(d));
                if tail.contains(d) {
                    let j = choose|j: int| 0 <= j < tail.len() && tail[j] == d;
                    assert(s[j + 1] == d);
                }
            }
        }
        assert forall|d: i64| (s.contains(d) || d == x) implies r.contains(d) by {
            if d == x {
                assert(rt.contains(d));
                let j = choose|j: int| 0 <= j < rt.len() && rt[j] == d;
                assert(r[j + 1] == d);
            } else {
                let i = choose|i: int| 0 <= i < s.len() && s[i] == d;
                if i == 0 {
                    assert(r[0] == d);
                } else {
                    assert(tail[i - 1] == d);
                    assert(rt.contains(d));
                    let j = choose|j: int| 0 <= j < rt.len() && rt[j] == d;
                    assert(r[j + 1] == d);
                }
            }
        }
        assert forall|i: int, j: int| 0 <= i < j < r.len() implies r[i] > r[j] by {
            if i == 0 {
                assert(r[j] == rt[j - 1]);
                assert(rt.contains(rt[j - 1]));
                if tail.contains(rt[j - 1]) {
                    let k = choose|k: int| 0 <= k < tail.len() && tail[k] == rt[j - 1];
                    assert(s[k + 1] == rt[j - 1]);
                    assert(s[0] > s[k + 1]);
                }
            } else {
                assert(r[i] == rt[i - 1] && r[j] == rt[j - 1]);
            }
        }
    } else {
        assert(r == seq![x] + s);
        assert forall|d: i64| r.contains(d) implies (s.contains(d) || d == x) by {
            let i = choose|i: int| 0 <= i < r.len() && r[i] == d;
            if i > 0 {
                assert(s[i - 1] == d);
            }
        }
        assert forall|d: i64| (s.contains(d) || d == x) implies r.contains(d) by {
            if d == x {
                assert(r[0] == d);
            } else {
                let i = choose|i: int| 0 <= i < s.len() && s[i] == d;
                assert(r[i + 1] == d);
            }
        }
        assert forall|i: int, j: int| 0 <= i < j < r.len() implies r[i] > r[j] by {
            if i == 0 {
                assert(r[j] == s[j - 1]);
                if j - 1 > 0 {
                    assert(s[0] > s[j - 1]);
                }
            } else {
                assert(r[i] == s[i - 1] && r[j] == s[j - 1]);
            }
        }
    }
}

/// A union of canonical sequences is canonical and holds both degree sets.
pub proof fn lemma_sunion(a: Seq<i64>, b: Seq<i64>)
    requires
        sdd(a),
    ensures
        sdd(sunion(a, b)),
        forall|d: i64| #![all_triggers] sunion(a, b).contains(d) <==> (a.contains(d)
            || b.contains(d)),
        snn(a) && snn(b) ==> snn(sunion(a, b)),
    decreases b.len(),
{
    if b.len() == 0 {
    } else {
        lemma_insert_desc(a, b[0]);
        lemma_sunion(insert_desc(a, b[0]), b.skip(1));
        assert(sunion(a, b) == sunion(insert_desc(a, b[0]), b.skip(1)));
        assert forall|d: i64| #![all_triggers] sunion(a, b).contains(d) <==> (a.contains(d)
            || b.contains(d)) by {
            if b.contains(d) {
                let i = choose|i: int| 0 <= i < b.len() && b[i] == d;
                if i > 0 {
                    assert(b.skip(1)[i - 1] == d);
                }
            }
            if b.skip(1).contains(d) {
                let i = choose|i: int| 0 <= i < b.skip(1).len() && b.skip(1)[i] == d;
                assert(b[i + 1] == d);
            }
            if b.len() > 0 && d == b[0] {
                assert(b.contains(d));
            }
        }
        if snn(a) && snn(b) {
            assert(b[0] >= 0);
            assert forall|i: int| 0 <= i < b.skip(1).len() implies b.skip(1)[i] >= 0 by {
                assert(b.skip(1)[i] == b[i + 1]);
            }
        }
    }
}

/// A difference of degree sets keeps canonical order and drops exactly the
/// degrees of the right sequence.
pub proof fn lemma_sdiff(a: Seq<i64>, b: Seq<i64>)
    requires
        sdd(a),
    ensures
        sdd(sdiff(a, b)),
        forall|d: i64| #![all_triggers] sdiff(a, b).contains(d) <==> (a.contains(d)
            && !b.contains(d)),
        snn(a) ==> snn(sdiff(a, b)),
    decreases a.len(),
{
    if a.len() == 0 {
    } else {
        let front = a.drop_last();
        assert(sdd(front));
        lemma_sdiff(front, b);
        let r = sdiff(a, b);
        let rf = sdiff(front, b);
        assert forall|d: i64| (a.contains(d) && !b.contains(d)) implies r.contains(d) by {
            let i = choose|i: int| 0 <= i < a.len() && a[i] == d;
            if i < a.len() - 1 {
                assert(front[i] == d);
                assert(rf.contains(d));
                if !b.contains(a.last()) {
                    let j = choose|j: int| 0 <= j < rf.len() && rf[j] == d;
                    assert(r[j] == d);
                }
            } else {
                assert(d == a.last());
                assert(r.last() == d);
            }
        }
        assert forall|d: i64| r.contains(d) implies (a.contains(d) && !b.contains(d)) by {
            let i = choose|i: int| 0 <= i < r.len() && r[i] == d;
            if b.contains(a.last()) {
                assert(rf[i] == d);
                assert(front.contains(d));
                let j = choose|j: int| 0 <= j < front.len() && front[j] == d;
                assert(a[j] == d);
            } else {
                if i < r.len() - 1 {
                    assert(rf[i] == d);
                    assert(front.contains(d));
                    let j = choose|j: int| 0 <= j < front.len() && front[j] == d;
                    assert(a[j] == d);
                } else {
                    assert(d == a.last());
                    assert(a.contains(d));
                }
            }
        }
        if !b.contains(a.last()) {
            assert forall|i: int, j: int| 0 <= i < j < r.len() implies r[i] > r[j] by {
                if j < r.len() - 1 {
                    assert(r[i] == rf[i] && r[j] == rf[j]);
                } else {
                    assert(r[j] == a.last());
                    assert(r[i] == rf[i]);
                    assert(rf.contains(rf[i]));
                    assert(front.contains(rf[i]));
                    let k = choose|k: int| 0 <= k < front.len() && front[k] == rf[i];
                    assert(a[k] > a[a.len() - 1]);
                }
            }
        }
        if snn(a) {
            assert(snn(front));
        }
    }
}

/// Two canonical sequences holding the same degree set are the same
/// sequence: the representation is canonical.
pub proof fn lemma_sdd_unique(a: Seq<i64>, b: Seq<i64>)
    requires
        sdd(a),
        sdd(b),
        forall|d: i64| a.contains(d) <==> b.contains(d),
    ensures
        a == b,
    decreases a.len(),
{
    if a.len() == 0 {
        if b.len() > 0 {
            assert(b.contains(b[0]));
            assert(a.contains(b[0]));
        }
        assert(a =~= b);
    } else {
        assert(a.contains(a[0]));
        assert(b.contains(a[0]));
        if b.len() == 0 {
            assert(b.contains(a[0]));
        }
        assert(b.contains(b[0]));
        assert(a.contains(b[0]));
        let i = choose|i: int| 0 <= i < b.len() && b[i] == a[0];
        let j = choose|j: int| 0 <= j < a.len() && a[j] == b[0];
        assert(b[0] >= b[i]);
        assert(a[0] >= a[j]);
        assert(a[0] == b[0]);
        let at = a.skip(1);
        let bt = b.skip(1);
        assert(sdd(at) && sdd(bt));
        assert forall|d: i64| at.contains(d) <==> bt.contains(d) by {
            if at.contains(d) {
                let k = choose|k: int| 0 <= k < at.len() && at[k] == d;
                assert(a[k + 1] == d);
                assert(a[0] > d);
                assert(b.contains(d));
                let m = choose|m: int| 0 <= m < b.len() && b[m] == d;
                assert(m > 0);
                assert(bt[m - 1] == d);
            }
            if bt.contains(d) {
                let k = choose|k: int| 0 <= k < bt.len() && bt[k] == d;
                assert(b[k + 1] == d);
                assert(b[0] > d);
                assert(a.contains(d));
                let m = choose|m: int| 0 <= m < a.len() && a[m] == d;
                assert(m > 0);
                assert(at[m - 1] == d);
            }
        }
        lemma_sdd_unique(at, bt);
        assert(a.len() == b.len());
        assert forall|k: int| 0 <= k < a.len() implies a[k] == b[k] by {
            if k > 0 {
                assert(a[k] == at[k - 1] && b[k] == bt[k - 1]);
            }
        }
        assert(a =~= b);
    }
}

/// Law: addition over GF(2) is commutative, and adding a polynomial to
/// itself cancels every degree.
pub proof fn lemma_xor_laws(a: Seq<i64>, b: Seq<i64>)
    requires
        sdd(a),
        sdd(b),
    ensures
        sxor(a, b) == sxor(b, a),
        sxor(a, a) == Seq::<i64>::empty(),
{
    lemma_sdiff(a, b);
    lemma_sdiff(b, a);
    lemma_sunion(sdiff(a, b), sdiff(b, a));
    lemma_sunion(sdiff(b, a), sdiff(a, b));
    lemma_sdd_unique(sxor(a, b), sxor(b, a));
    lemma_sdiff(a, a);
    lemma_sunion(sdiff(a, a), sdiff(a, a));
    lemma_sdd_unique(sxor(a, a), Seq::<i64>::empty());
}

/// A polynomial over GF(2), kept as the set of degrees whose coefficient
/// is one, sorted in descending order.
#[derive(Debug)]
pub struct Polynomial {
    pub degrees: Vec<i64>,
}

impl Polynomial {
    /// The degree sequence is canonical and non-negative.
    pub open spec fn wf(&self) -> bool {
        &&& sdd(self.degrees@)
        &&& snn(self.degrees@)
    }

    /// Membership of a degree in the polynomial.
    pub open spec fn has(&self, d: i64) -> bool {
        self.degrees@.contains(d)
    }

    /// The zero polynomial.
    pub fn empty() -> (r: Polynomial)
        ensures
            r.wf(),
            r.degrees@ == Seq::<i64>::empty(),
    {
        let r = Polynomial { degrees: Vec::new() };
        proof {
            assert(r.degrees@ =~= Seq::<i64>::empty());
        }
        r
    }

    /// The polynomial's degree; -1 for the zero polynomial.
    pub fn degree(&self) -> (r: i64)
        requires
            self.wf(),
    ensures
            r == sdeg(self.degrees@),
    {
        if self.degrees.len() == 0 {
            -1
        } else {
            self.degrees[0]
        }
    }
}

impl Clone for Polynomial {
    fn clone(&self) -> (r: Polynomial)
        ensures
            r.degrees@ == self.degrees@,
    {
        Polynomial { degrees: clone_i64_vec(&self.degrees) }
    }
}

/// Copies a vector of degrees element by element.
fn clone_i64_vec(v: &Vec<i64>) -> (r: Vec<i64>)
    ensures
        r@ == v@,
{
    let mut r: Vec<i64> = Vec::new();
    let mut i: usize = 0;
    while i < v.len()
        invariant
            i <= v@.len(),
            r@ == v@.take(i as int),
        decreases v@.len() - i,
    {
        r.push(v[i]);
        i = i + 1;
        proof {
            assert(r@ =~= v@.take(i as int));
        }
    }
    proof {
        assert(v@.take(v@.len() as int) =~= v@);
    }
    r
}

/// Whether a degree occurs in a vector of degrees.
fn contains_i64(v: &Vec<i64>, x: i64) -> (r: bool)
    ensures
        r == v@.contains(x),
{
    let mut i: usize = 0;
    while i < v.len()
        invariant
            i <= v@.len(),
            forall|j: int| 0 <= j < i ==> v@[j] != x,
        decreases v@.len() - i,
    {
        if v[i] == x {
            return true;
        }
        i = i + 1;
    }
    false
}

/// Keeps the degrees of `src` that `dst` does not hold, in order.
pub fn vec_rem_all(src: Vec<i64>, dst: Vec<i64>) -> (r: Vec<i64>)
    ensures
        r@ == sdiff(src@, dst@),
{
    let mut r: Vec<i64> = Vec::new();
    let mut i: usize = 0;
    while i < src.len()
        invariant
            i <= src@.len(),
            r@ == sdiff(src@.take(i as int), dst@),
        decreases src@.len() - i,
    {
        proof {
            let t = src@.take(i as int + 1);
            assert(t.drop_last() =~= src@.take(i as int));
            assert(t.last() == src@[i as int]);
        }
        if !contains_i64(&dst, src[i]) {
            r.push(src[i]);
        }
        i = i + 1;
    }
    proof {
        assert(src@.take(src@.len() as int) =~= src@);
    }
    r
}

/// Puts a degree into a sorted vector of degrees, keeping the order and
/// skipping a degree already present.
fn insert_sorted(v: &mut Vec<i64>, x: i64)
    requires
        sdd(old(v)@),
    ensures
        final(v)@ == insert_desc(old(v)@, x),
{
    let mut i: usize = 0;
    while i < v.len() && v[i] > x
        invariant
            sdd(v@),
            v@ == old(v)@,
            i <= v@.len(),
            forall|j: int| 0 <= j < i ==> v@[j] > x,
        decreases v@.len() - i,
    {
        i = i + 1;
    }
    proof {
        lemma_insert_desc_split(v@, x, i as int);
    }
    if i < v.len() && v[i] == x {
        return ;
    }
    v.insert(i, x);
    proof {
        assert(final(v)@ =~= old(v)@.take(i as int) + seq![x] + old(v)@.skip(i as int));
    }
}

/// Scanning past the larger degrees and inserting there agrees with the
/// recursive insertion.
proof fn lemma_insert_desc_split(s: Seq<i64>, x: i64, i: int)
    requires
        sdd(s),
        0 <= i <= s.len(),
        forall|j: int| 0 <= j < i ==> s[j] > x,
        i < s.len() ==> s[i] <= x,
    ensures
        insert_desc(s, x) == if i < s.len() && s[i] == x {
            s
        } else {
            s.take(i) + seq![x] + s.skip(i)
        },
    decreases i,
{
    if i == 0 {
        if s.len() == 0 {
            assert(insert_desc(s, x) =~= s.take(0) + seq![x] + s.skip(0));
        } else if s[0] == x {
        } else {
            assert(s[0] < x || s[0] > x);
            assert(s[0] <= x);
            assert(insert_desc(s, x) == seq![x] + s);
            assert(insert_desc(s, x) =~= s.take(0) + seq![x] + s.skip(0));
        }
    } else {
        let tail = s.skip(1);
        assert(sdd(tail));
        assert(forall|j: int| 0 <= j < i - 1 ==> tail[j] == s[j + 1] && s[j + 1] > x);
        assert(i - 1 < tail.len() ==> tail[i - 1] == s[i] && s[i] <= x);
        lemma_insert_desc_split(tail, x, i - 1);
        assert(s[0] > x);
        assert(insert_desc(s, x) == seq![s[0]] + insert_desc(tail, x));
        if i < s.len() && s[i] == x {
            assert(tail[i - 1] == x);
            assert(insert_desc(tail, x) == tail);
            assert(seq![s[0]] + tail =~= s);
        } else {
            assert(insert_desc(tail, x) == tail.take(i - 1) + seq![x] + tail.skip(i - 1));
            assert(seq![s[0]] + (tail.take(i - 1) + seq![x] + tail.skip(i - 1)) =~= s.take(i)
                + seq![x] + s.skip(i));
        }
    }
}

/// The 64-bit image of a polynomial: bit d set for every degree d.
pub open spec fn sto_i64(s: Seq<i64>) -> i64
    decreases s.len(),
{
    if s.len() == 0 {
        0
    } else {
        sto_i64(s.drop_last()) | (1i64 << s.last())
    }
}

/// The degrees at or above bit position `b` whose bit is set in `val`,
/// in descending order.
pub open spec fn sbits_above(val: i64, b: int) -> Seq<i64>
    decreases 64 - b,
{
    if b > 63 || b < 0 {
        Seq::empty()
    } else {
        let hi = sbits_above(val, b + 1);
        if ((val >> (b as u32)) & 1) == 1 {
            hi.push(b as i64)
        } else {
            hi
        }
    }
}

/// The canonical degree sequence of a 64-bit polynomial image.
pub open spec fn sfrom_u64(val: i64) -> Seq<i64> {
    sbits_above(val, 0)
}

/// The bits-above sequence is canonical and holds exactly the set bits at
/// or above `b`.
pub proof fn lemma_sbits_above(val: i64, b: int)
    requires
        b >= 0,
    ensures
        sdd(sbits_above(val, b)),
        snn(sbits_above(val, b)),
        forall|d: i64| #![all_triggers] sbits_above(val, b).contains(d) <==> (b <= d <= 63
            && ((val >> (d as u32)) & 1) == 1),
        forall|i: int| 0 <= i < sbits_above(val, b).len() ==> sbits_above(val, b)[i] <= 63,
    decreases 64 - b,
{
    if b > 63 || b < 0 {
    } else {
        lemma_sbits_above(val, b + 1);
        let hi = sbits_above(val, b + 1);
        let r = sbits_above(val, b);
        assert forall|d: i64| #![all_triggers] r.contains(d) implies (b <= d <= 63 && ((val >> (d
            as u32)) & 1) == 1) by {
            let i = choose|i: int| 0 <= i < r.len() && r[i] == d;
            if i < hi.len() {
                assert(hi[i] == d);
                assert(hi.contains(d));
            } else {
                assert(r[i] == b as i64);
                assert(((val >> (b as u32)) & 1) == 1);
            }
        }
        assert forall|d: i64| #![all_triggers] (b <= d <= 63 && ((val >> (d as u32)) & 1) == 1)
            implies r.contains(d) by {
            if d == b {
                assert(r[r.len() - 1] == d);
            } else {
                assert(hi.contains(d));
                let i = choose|i: int| 0 <= i < hi.len() && hi[i] == d;
                assert(r[i] == d);
            }
        }
        assert forall|i: int| 0 <= i < r.len() implies r[i] >= 0 && r[i] <= 63 by {
            assert(r.contains(r[i]));
        }
        assert forall|i: int, j: int| 0 <= i < j < r.len() implies r[i] > r[j] by {
            if j < hi.len() {
                assert(r[i] == hi[i] && r[j] == hi[j]);
            } else {
                assert(r[i] == hi[i]);
                assert(hi.contains(hi[i]));
            }
        }
    }
}

/// Whether bit `idx` is set in a byte string read as one big number, the
/// last byte holding the lowest bits.
pub open spec fn sbit_at(bytes: Seq<u8>, idx: int) -> bool {
    let aidx = bytes.len() - 1 - idx / 8;
    &&& 0 <= aidx < bytes.len()
    &&& ((bytes[aidx] >> ((idx % 8) as u8)) & 1) == 1
}

/// The degrees in `[b, d)` whose bit is set in the byte string, in
/// descending order.
pub open spec fn byte_bits_above(bytes: Seq<u8>, b: int, d: int) -> Seq<i64>
    decreases d - b,
{
    if b >= d || b < 0 {
        Seq::empty()
    } else {
        let hi = byte_bits_above(bytes, b + 1, d);
        if sbit_at(bytes, b) {
            hi.push(b as i64)
        } else {
            hi
        }
    }
}

/// The canonical degree sequence a byte string denotes for a polynomial of
/// degree exactly `d`: the degree itself plus every set bit below it.
pub open spec fn sfrom_bytes(bytes: Seq<u8>, d: i64) -> Seq<i64> {
    seq![d] + byte_bits_above(bytes, 0, d as int)
}

/// The byte-bits sequence is canonical and stays below `d`.
pub proof fn lemma_byte_bits_above(bytes: Seq<u8>, b: int, d: int)
    requires
        b >= 0,
        d <= i64::MAX,
    ensures
        sdd(byte_bits_above(bytes, b, d)),
        snn(byte_bits_above(bytes, b, d)),
        forall|d2: i64| #![all_triggers] byte_bits_above(bytes, b, d).contains(d2) <==> (b <= d2
            < d && sbit_at(bytes, d2 as int)),
        forall|i: int| 0 <= i < byte_bits_above(bytes, b, d).len() ==> byte_bits_above(
            bytes,
            b,
            d,
        )[i] < d,
    decreases d - b,
{
    if b >= d || b < 0 {
    } else {
        lemma_byte_bits_above(bytes, b + 1, d);
        let hi = byte_bits_above(bytes, b + 1, d);
        let r = byte_bits_above(bytes, b, d);
        assert forall|d2: i64| #![all_triggers] r.contains(d2) implies (b <= d2 < d && sbit_at(
            bytes,
            d2 as int,
        )) by {
            let i = choose|i: int| 0 <= i < r.len() && r[i] == d2;
            if i < hi.len() {
                assert(hi[i] == d2);
                assert(hi.contains(d2));
            } else {
                assert(r[i] == b as i64);
                assert(sbit_at(bytes, b));
            }
        }
        assert forall|d2: i64| #![all_triggers] (b <= d2 < d && sbit_at(bytes, d2 as int))
            implies r.contains(d2) by {
            if d2 == b {
                assert(r[r.len() - 1] == d2);
            } else {
                assert(hi.contains(d2));
                let i = choose|i: int| 0 <= i < hi.len() && hi[i] == d2;
                assert(r[i] == d2);
            }
        }
        assert forall|i: int| 0 <= i < r.len() implies r[i] >= 0 && r[i] < d by {
            assert(r.contains(r[i]));
        }
        assert forall|i: int, j: int| 0 <= i < j < r.len() implies r[i] > r[j] by {
            if j < hi.len() {
                assert(r[i] == hi[i] && r[j] == hi[j]);
            } else {
                assert(r[i] == hi[i]);
                assert(hi.contains(hi[i]));
            }
        }
    }
}

/// Shifting keeps order and moves every degree up by the same amount.
pub proof fn lemma_sshift(a: Seq<i64>, k: i64)
    requires
        sdd(a),
        snn(a),
        k >= 0,
        sdeg(a) + k <= i64::MAX,
    ensures
        sdd(sshift(a, k)),
        snn(sshift(a, k)),
        sshift(a, k).len() == a.len(),
        forall|i: int| 0 <= i < a.len() ==> sshift(a, k)[i] == a[i] + k,
        sdeg(sshift(a, k)) == if a.len() == 0 {
            -1
        } else {
            sdeg(a) + k
        },
        forall|d: i64| #![all_triggers] sshift(a, k).contains(d) <==> (d - k >= 0 && a.contains(
            (d - k) as i64,
        )),
{
    assert forall|i: int| 0 <= i < a.len() implies sshift(a, k)[i] == a[i] + k by {
        assert(a[i] <= a[0] || i == 0);
        assert(a[i] + k <= i64::MAX);
    }
    assert forall|d: i64| sshift(a, k).contains(d) implies (d - k >= 0 && a.contains(
        (d - k) as i64,
    )) by {
        let i = choose|i: int| 0 <= i < sshift(a, k).len() && sshift(a, k)[i] == d;
        assert(a[i] + k == d);
    }
    assert forall|d: i64| (d - k >= 0 && a.contains((d - k) as i64)) implies sshift(a, k).contains(
        d,
    ) by {
        let i = choose|i: int| 0 <= i < a.len() && a[i] == (d - k) as i64;
        assert(sshift(a, k)[i] == d);
    }
}

/// The product over GF(2): for each degree of the left factor, the right
/// factor shifted by it, all added up; duplicate degree sums cancel.
pub open spec fn smul(a: Seq<i64>, q: Seq<i64>) -> Seq<i64>
    decreases a.len(),
{
    if a.len() == 0 {
        Seq::empty()
    } else {
        sxor(smul(a.drop_last(), q), sshift(q, a.last()))
    }
}

/// One pass of schoolbook division: for positions `i` down to 0, the
/// divisor shifted by `i` is subtracted wherever the remainder holds the
/// matching degree.
pub open spec fn smod_step(reg: Seq<i64>, p: Seq<i64>, i: int) -> Seq<i64>
    decreases i + 1,
{
    if i < 0 {
        reg
    } else {
        let x = (i + sdeg(p)) as i64;
        let reg2 = if reg.contains(x) {
            sxor(reg, sshift(p, i as i64))
        } else {
            reg
        };
        smod_step(reg2, p, i - 1)
    }
}

/// The remainder of schoolbook polynomial division over GF(2).
pub open spec fn smod(a: Seq<i64>, p: Seq<i64>) -> Seq<i64> {
    smod_step(a, p, sdeg(a) - sdeg(p))
}

/// Square-and-multiply over GF(2) polynomials, reducing by `r` at each
/// step.
pub open spec fn smodpow(res: Seq<i64>, b: Seq<i64>, r: Seq<i64>, e: int) -> Seq<i64>
    decreases e,
{
    if e <= 0 {
        res
    } else {
        let res2 = if e % 2 == 1 {
            smod(smul(res, b), r)
        } else {
            res
        };
        smodpow(res2, smod(smul(b, b), r), r, e / 2)
    }
}

/// The Euclidean chain after at most `fuel` steps: once the remainder
/// becomes the zero polynomial the chain stays put, so every large enough
/// fuel gives the greatest common divisor.
pub open spec fn sgcd_fuel(a: Seq<i64>, b: Seq<i64>, fuel: nat) -> Seq<i64>
    decreases fuel,
{
    if fuel == 0 || b.len() == 0 {
        a
    } else {
        sgcd_fuel(b, smod(a, b), (fuel - 1) as nat)
    }
}

/// From `k` steps on, the Euclidean chain of `a` and `b` sits at `r`.
pub open spec fn gcd_stable_from(a: Seq<i64>, b: Seq<i64>, r: Seq<i64>, k: nat) -> bool {
    forall|f: nat| f >= k ==> #[trigger] sgcd_fuel(a, b, f) == r
}

/// The Euclidean chain of the two degree sets stabilizes at the constant
/// one polynomial: their greatest common divisor is one.
pub open spec fn sgcd_is_one(a: Seq<i64>, b: Seq<i64>) -> bool {
    exists|k: nat| #[trigger] gcd_stable_from(a, b, seq![0i64], k)
}

/// x raised to 2^v minus x, reduced by `p`: the quantity the Ben-Or test
/// takes a gcd with.
pub open spec fn sreduce_exp(p: Seq<i64>, v: i64) -> Seq<i64> {
    smod(sxor(smodpow(seq![0i64], seq![1i64], p, (1u64 << (v as u32)) as int), seq![1i64]), p)
}

/// The polynomial x^d + 1: what the random irreducible search falls back
/// to if its enormous attempt bound somehow runs out.
pub open spec fn fallback_poly(d: int) -> Seq<i64> {
    seq![d as i64, 0i64]
}

/// What the Ben-Or test accepts as irreducible: neither the polynomial 1
/// nor the polynomial x, and for every exponent up to half the degree the
/// gcd with the reduced x^(2^i) - x is one.
pub open spec fn ben_or_accepts(p: Seq<i64>) -> bool {
    &&& p != seq![0i64]
    &&& p != seq![1i64]
    &&& forall|el: i64| 1 <= el <= sdeg(p) / 2 ==> #[trigger] sgcd_is_one(p, sreduce_exp(p, el))
}

/// Folds the degrees of `dst` into `src`, which must be canonical.
pub fn vec_add_all(src: Vec<i64>, dst: Vec<i64>) -> (r: Vec<i64>)
    requires
        sdd(src@),
    ensures
        r@ == sunion(src@, dst@),
{
    let mut r = clone_i64_vec(&src);
    let mut j: usize = 0;
    proof {
        assert(dst@.skip(0) =~= dst@);
    }
    while j < dst.len()
        invariant
            sdd(r@),
            j <= dst@.len(),
            sunion(r@, dst@.skip(j as int)) == sunion(src@, dst@),
        decreases dst@.len() - j,
    {
        proof {
            let rest = dst@.skip(j as int);
            assert(rest.len() > 0);
            assert(rest[0] == dst@[j as int]);
            assert(rest.skip(1) =~= dst@.skip(j as int + 1));
            lemma_insert_desc(r@, dst@[j as int]);
        }
        insert_sorted(&mut r, dst[j]);
        j = j + 1;
    }
    proof {
        assert(dst@.skip(dst@.len() as int) =~= Seq::<i64>::empty());
    }
    r
}

/// Tells a polynomial reducible over GF(2) from an irreducible one.
pub enum Reducibility {
    REDUCIBLE,
    IRREDUCIBLE,
}

impl Polynomial {
    /// The polynomial whose set bits in `val` give its degrees.
    pub fn from_u64(val: i64) -> (r: Polynomial)
        ensures
            r.wf(),
            r.degrees@ == sfrom_u64(val),
            sdeg(r.degrees@) <= 63,
    {
        let mut degrees: Vec<i64> = Vec::new();
        let mut el: i64 = 63;
        while el >= 0
            invariant
                -1 <= el <= 63,
                degrees@ == sbits_above(val, el as int + 1),
            decreases el + 1,
        {
            if (val >> (el as u32)) & 1 == 1 {
                degrees.push(el);
            }
            el = el - 1;
        }
        proof {
            lemma_sbits_above(val, 0);
        }
        Polynomial { degrees }
    }

    /// The polynomial of degree exactly `degree` whose lower coefficients
    /// come from the byte string's bits.
    pub fn from_bytes(bytes: Vec<u8>, degree: i64) -> (r: Polynomial)
        requires
            0 <= degree <= 62,
        ensures
            r.wf(),
            r.degrees@ == sfrom_bytes(bytes@, degree),
            sdeg(r.degrees@) == degree,
    {
        let mut degrees: Vec<i64> = Vec::new();
        degrees.push(degree);
        let mut el: i64 = degree - 1;
        proof {
            assert(degrees@ =~= seq![degree] + byte_bits_above(bytes@, degree as int, degree as int));
        }
        while el >= 0
            invariant
                -1 <= el < degree <= 62,
                degrees@ == seq![degree] + byte_bits_above(bytes@, el as int + 1, degree as int),
            decreases el + 1,
        {
            if check_bit(&bytes, el as usize) {
                degrees.push(el);
                proof {
                    assert(degrees@ =~= seq![degree] + byte_bits_above(
                        bytes@,
                        el as int,
                        degree as int,
                    ));
                }
            }
            el = el - 1;
        }
        proof {
            lemma_byte_bits_above(bytes@, 0, degree as int);
            let bb = byte_bits_above(bytes@, 0, degree as int);
            let r = seq![degree] + bb;
            assert forall|i: int, j: int| 0 <= i < j < r.len() implies r[i] > r[j] by {
                if i == 0 {
                    assert(r[j] == bb[j - 1]);
                } else {
                    assert(r[i] == bb[i - 1] && r[j] == bb[j - 1]);
                }
            }
        }
        Polynomial { degrees }
    }

    /// A random polynomial of degree exactly `d`, drawn from `d/8 + 1`
    /// random bytes.
    fn from_random(d: i32) -> (r: Polynomial)
        requires
            0 <= d <= 62,
        ensures
            r.wf(),
            sdeg(r.degrees@) == d,
    {
        let n = d / 8 + 1;
        let mut v: Vec<u8> = Vec::new();
        let mut i: i32 = 0;
        while i < n
            invariant
                0 <= i <= n <= 8,
            decreases n - i,
        {
            v.push(random_byte());
            i = i + 1;
        }
        Polynomial::from_bytes(v, d as i64)
    }

    /// The 64-bit image of the polynomial: bit d set for every degree d.
    pub fn to_i64(&self) -> (r: i64)
        requires
            self.wf(),
            sdeg(self.degrees@) <= 62,
        ensures
            r == sto_i64(self.degrees@),
    {
        let mut b: i64 = 0;
        let mut i: usize = 0;
        while i < self.degrees.len()
            invariant
                self.wf(),
                sdeg(self.degrees@) <= 62,
                i <= self.degrees@.len(),
                b == sto_i64(self.degrees@.take(i as int)),
            decreases self.degrees@.len() - i,
        {
            proof {
                let t = self.degrees@.take(i as int + 1);
                assert(t.drop_last() =~= self.degrees@.take(i as int));
                assert(t.last() == self.degrees@[i as int]);
                assert(self.degrees@[i as int] <= self.degrees@[0]);
            }
            b = b | (1i64 << self.degrees[i]);
            i = i + 1;
        }
        proof {
            assert(self.degrees@.take(self.degrees@.len() as int) =~= self.degrees@);
        }
        b
    }

    /// Addition over GF(2): the symmetric difference of the degree sets.
    pub fn xor(left_p: Polynomial, right_p: Polynomial) -> (r: Polynomial)
        requires
            left_p.wf(),
            right_p.wf(),
        ensures
            r.wf(),
            r.degrees@ == sxor(left_p.degrees@, right_p.degrees@),
    {
        proof {
            lemma_sdiff(left_p.degrees@, right_p.degrees@);
            lemma_sdiff(right_p.degrees@, left_p.degrees@);
            lemma_sunion(sdiff(left_p.degrees@, right_p.degrees@), sdiff(right_p.degrees@, left_p.degrees@));
        }
        let left = vec_rem_all(clone_i64_vec(&left_p.degrees), clone_i64_vec(&right_p.degrees));
        let right = vec_rem_all(clone_i64_vec(&right_p.degrees), clone_i64_vec(&left_p.degrees));
        let degrees = vec_add_all(left, right);
        Polynomial { degrees }
    }

    /// The union of the degree sets.
    fn or(&self, right_p: &Polynomial) -> (r: Polynomial)
        requires
            self.wf(),
            right_p.wf(),
        ensures
            r.wf(),
            r.degrees@ == sunion(self.degrees@, right_p.degrees@),
    {
        proof {
            lemma_sunion(self.degrees@, right_p.degrees@);
        }
        let degrees = vec_add_all(clone_i64_vec(&self.degrees), clone_i64_vec(&right_p.degrees));
        Polynomial { degrees }
    }

    /// Multiplication by x^shift: every degree moves up.
    fn shift_left(&self, shift: i64) -> (r: Polynomial)
        requires
            self.wf(),
            shift >= 0,
            sdeg(self.degrees@) + shift <= i64::MAX,
        ensures
            r.wf(),
            r.degrees@ == sshift(self.degrees@, shift),
    {
        proof {
            lemma_sshift(self.degrees@, shift);
        }
        let mut degrees: Vec<i64> = Vec::new();
        let mut i: usize = 0;
        while i < self.degrees.len()
            invariant
                self.wf(),
                shift >= 0,
                sdeg(self.degrees@) + shift <= i64::MAX,
                i <= self.degrees@.len(),
                degrees@ == sshift(self.degrees@, shift).take(i as int),
            decreases self.degrees@.len() - i,
        {
            proof {
                lemma_sshift(self.degrees@, shift);
                assert(self.degrees@[i as int] <= self.degrees@[0] || i == 0);
            }
            degrees.push(self.degrees[i] + shift);
            i = i + 1;
            proof {
                lemma_sshift(self.degrees@, shift);
                assert(degrees@ =~= sshift(self.degrees@, shift).take(i as int));
            }
        }
        proof {
            lemma_sshift(self.degrees@, shift);
            assert(sshift(self.degrees@, shift).take(self.degrees@.len() as int) =~= sshift(
                self.degrees@,
                shift,
            ));
        }
        Polynomial { degrees }
    }

    /// The product over GF(2): the right factor shifted by each degree of
    /// the left factor, all added up.
    fn multiply(&self, p: &Polynomial) -> (r: Polynomial)
        requires
            self.wf(),
            p.wf(),
            sdeg(self.degrees@) + sdeg(p.degrees@) <= i64::MAX - 1,
        ensures
            r.wf(),
            r.degrees@ == smul(self.degrees@, p.degrees@),
    {
        let mut acc = Polynomial::empty();
        let mut i: usize = 0;
        proof {
            assert(smul(self.degrees@.take(0), p.degrees@) =~= Seq::<i64>::empty());
        }
        while i < self.degrees.len()
            invariant
                self.wf(),
                p.wf(),
                sdeg(self.degrees@) + sdeg(p.degrees@) <= i64::MAX - 1,
                i <= self.degrees@.len(),
                acc.wf(),
                acc.degrees@ == smul(self.degrees@.take(i as int), p.degrees@),
            decreases self.degrees@.len() - i,
        {
            proof {
                assert(self.degrees@[i as int] <= self.degrees@[0] || i == 0);
                let t = self.degrees@.take(i as int + 1);
                assert(t.drop_last() =~= self.degrees@.take(i as int));
                assert(t.last() == self.degrees@[i as int]);
                lemma_sshift(p.degrees@, self.degrees@[i as int]);
            }
            let shifted = p.shift_left(self.degrees[i]);
            acc = Polynomial::xor(acc, shifted);
            i = i + 1;
        }
        proof {
            assert(self.degrees@.take(self.degrees@.len() as int) =~= self.degrees@);
        }
        acc
    }

    /// The remainder of schoolbook division by `p` over GF(2).  The
    /// remainder's degree ends below the divisor's.
    fn modulo(&self, p: &Polynomial) -> (r: Polynomial)
        requires
            self.wf(),
            p.wf(),
            sdeg(p.degrees@) >= 0,
        ensures
            r.wf(),
            r.degrees@ == smod(self.degrees@, p.degrees@),
            sdeg(r.degrees@) < sdeg(p.degrees@),
    {
        let da = self.degree();
        let db = p.degree();
        let mut register = self.clone();
        let mut i: i64 = da - db;
        while i >= 0
            invariant
                p.wf(),
                sdeg(p.degrees@) == db,
                0 <= db,
                i <= i64::MAX - db,
                register.wf(),
                forall|k: int| 0 <= k < register.degrees@.len() ==> register.degrees@[k] <= db + i,
                smod_step(register.degrees@, p.degrees@, i as int) == smod(
                    self.degrees@,
                    p.degrees@,
                ),
            decreases i + 1,
        {
            proof {
                lemma_sshift(p.degrees@, i);
            }
            if contains_i64(&register.degrees, i + db) {
                let shifted = p.shift_left(i);
                let ghost before = register.degrees@;
                register = Polynomial::xor(register, shifted);
                proof {
                    lemma_sdiff(before, sshift(p.degrees@, i));
                    lemma_sdiff(sshift(p.degrees@, i), before);
                    lemma_sunion(
                        sdiff(before, sshift(p.degrees@, i)),
                        sdiff(sshift(p.degrees@, i), before),
                    );
                    assert forall|k: int| 0 <= k < register.degrees@.len() implies register.degrees@[k]
                        <= db + i - 1 by {
                        let d = register.degrees@[k];
                        assert(register.degrees@.contains(d));
                        assert(d != db + i);
                        if before.contains(d) {
                        } else {
                            assert(sshift(p.degrees@, i).contains(d));
                        }
                    }
                }
            } else {
                proof {
                    assert forall|k: int| 0 <= k < register.degrees@.len() implies register.degrees@[k]
                        <= db + i - 1 by {
                        let d = register.degrees@[k];
                        assert(register.degrees@.contains(d));
                        assert(d != db + i);
                    }
                }
            }
            i = i - 1;
        }
        proof {
            if register.degrees@.len() > 0 {
                assert(register.degrees@[0] <= db + i);
            }
        }
        register
    }

    /// Square-and-multiply: `l` to the power `e`, reduced by `r` at each
    /// step.
    pub fn modulo_pow(l: Polynomial, r: Polynomial, e: i64) -> (res: Polynomial)
        requires
            l.wf(),
            r.wf(),
            1 <= sdeg(r.degrees@) <= 0x4000_0000,
            sdeg(l.degrees@) < sdeg(r.degrees@),
            e >= 0,
        ensures
            res.wf(),
            res.degrees@ == smodpow(seq![0i64], l.degrees@, r.degrees@, e as int),
            sdeg(res.degrees@) < sdeg(r.degrees@),
    {
        let mut res = Polynomial::from_u64(1);
        let mut b = l;
        let mut eu: u64 = e as u64;
        proof {
            lemma_one_seq();
        }
        while eu != 0
            invariant
                r.wf(),
                1 <= sdeg(r.degrees@) <= 0x4000_0000,
                res.wf(),
                b.wf(),
                sdeg(res.degrees@) < sdeg(r.degrees@),
                sdeg(b.degrees@) < sdeg(r.degrees@),
                smodpow(res.degrees@, b.degrees@, r.degrees@, eu as int) == smodpow(
                    seq![0i64],
                    l.degrees@,
                    r.degrees@,
                    e as int,
                ),
            decreases eu,
        {
            let ghost eo = eu;
            let ghost resg = res.degrees@;
            let ghost bg = b.degrees@;
            proof {
                assert((eo & 1) != 0 <==> (eo as int) % 2 == 1) by (bit_vector);
                assert((eo >> 1) as int == (eo as int) / 2) by (bit_vector);
                assert(eo >> 1 < eo) by (bit_vector)
                    requires eo != 0,
                ;
            }
            if eu & 1 != 0 {
                let prod = res.multiply(&b);
                res = prod.modulo(&r);
            }
            let sq = b.multiply(&b);
            b = sq.modulo(&r);
            eu = eu >> 1;
            proof {
                let e0 = eo as int;
                assert(e0 > 0);
                assert(smodpow(resg, bg, r.degrees@, e0) == smodpow(
                    if e0 % 2 == 1 {
                        smod(smul(resg, bg), r.degrees@)
                    } else {
                        resg
                    },
                    smod(smul(bg, bg), r.degrees@),
                    r.degrees@,
                    e0 / 2,
                ));
                assert(res.degrees@ == if e0 % 2 == 1 {
                    smod(smul(resg, bg), r.degrees@)
                } else {
                    resg
                });
                assert(b.degrees@ == smod(smul(bg, bg), r.degrees@));
                assert(eu as int == e0 / 2);
            }
        }
        res
    }

    /// The Euclidean algorithm over GF(2) polynomials: where the chain of
    /// remainders stabilizes.
    pub fn gcd(p_left: Polynomial, p_right: Polynomial) -> (r: Polynomial)
        requires
            p_left.wf(),
            p_right.wf(),
        ensures
            r.wf(),
            exists|k: nat|
                #[trigger] gcd_stable_from(p_left.degrees@, p_right.degrees@, r.degrees@, k),
    {
        let ghost a0 = p_left.degrees@;
        let ghost b0 = p_right.degrees@;
        let ghost mut steps: nat = 0;
        let mut a = p_left;
        let mut b = p_right;
        while b.degrees.len() != 0
            invariant
                a.wf(),
                b.wf(),
                forall|f: nat|
                    f >= steps ==> #[trigger] sgcd_fuel(a0, b0, f) == sgcd_fuel(
                        a.degrees@,
                        b.degrees@,
                        (f - steps) as nat,
                    ),
            decreases sdeg(b.degrees@) + 1,
        {
            let ghost ac = a.degrees@;
            let ghost bc = b.degrees@;
            let r2 = a.modulo(&b);
            a = b;
            b = r2;
            proof {
                steps = steps + 1;
                assert forall|f: nat|
                    f >= steps implies #[trigger] sgcd_fuel(a0, b0, f) == sgcd_fuel(
                    a.degrees@,
                    b.degrees@,
                    (f - steps) as nat,
                ) by {
                    assert(sgcd_fuel(a0, b0, f) == sgcd_fuel(ac, bc, (f - (steps - 1)) as nat));
                    assert(sgcd_fuel(ac, bc, (f - steps + 1) as nat) == sgcd_fuel(
                        bc,
                        smod(ac, bc),
                        (f - steps) as nat,
                    ));
                }
            }
        }
        proof {
            let k = steps;
            assert forall|f: nat|
                f >= k implies #[trigger] sgcd_fuel(a0, b0, f) == a.degrees@ by {
                assert(sgcd_fuel(a0, b0, f) == sgcd_fuel(a.degrees@, b.degrees@, (f
                    - steps) as nat));
            }
            assert(gcd_stable_from(a0, b0, a.degrees@, k));
        }
        a
    }

    /// x raised to 2^v minus x, reduced by this polynomial: one round of
    /// the Ben-Or witnesses.
    pub fn reduce_exp(&self, v: i64) -> (r: Polynomial)
        requires
            self.wf(),
            2 <= sdeg(self.degrees@) <= 62,
            1 <= v <= 31,
        ensures
            r.wf(),
            r.degrees@ == sreduce_exp(self.degrees@, v),
    {
        let x: i64 = 1i64 << (v as u32);
        let p_x = Polynomial::from_u64(2);
        proof {
            lemma_two_seq();
            assert(1i64 << (v as u32) >= 0 && (1i64 << (v as u32)) as int == (1u64 << (
                v as u32)) as int) by (bit_vector)
                requires 1 <= v <= 31,
            ;
        }
        let p_m = Polynomial::modulo_pow(p_x.clone(), self.clone(), x);
        let p = Polynomial::xor(p_m, p_x);
        proof {
            lemma_sdiff(p.degrees@, self.degrees@);
        }
        p.modulo(self)
    }

    /// The Ben-Or irreducibility test: the polynomials 1 and x are ruled
    /// reducible outright, and any other polynomial is irreducible exactly
    /// when, for every i up to half its degree, its gcd with
    /// x^(2^i) - x is one.
    pub fn reducibility(&self) -> (r: Reducibility)
        requires
            self.wf(),
            0 <= sdeg(self.degrees@) <= 62,
        ensures
            r is IRREDUCIBLE <==> ben_or_accepts(self.degrees@),
    {
        let ghost ps = self.degrees@;
        if self.degrees.len() == 1 && self.degrees[0] == 0 {
            proof {
                assert(ps =~= seq![0i64]);
            }
            return Reducibility::REDUCIBLE;
        }
        if self.degrees.len() == 1 && self.degrees[0] == 1 {
            proof {
                assert(ps =~= seq![1i64]);
            }
            return Reducibility::REDUCIBLE;
        }
        proof {
            assert(ps != seq![0i64]) by {
                if ps == seq![0i64] {
                    assert(ps.len() == 1 && ps[0] == 0i64);
                }
            }
            assert(ps != seq![1i64]) by {
                if ps == seq![1i64] {
                    assert(ps.len() == 1 && ps[0] == 1i64);
                }
            }
        }
        let d = self.degree();
        let mut el: i64 = 1;
        while el <= d / 2
            invariant
                self.wf(),
                ps == self.degrees@,
                0 <= sdeg(ps) <= 62,
                d == sdeg(ps),
                ps != seq![0i64],
                ps != seq![1i64],
                1 <= el <= d / 2 + 1,
                forall|el2: i64|
                    1 <= el2 < el ==> #[trigger] sgcd_is_one(ps, sreduce_exp(ps, el2)),
            decreases d / 2 + 1 - el,
        {
            let b = self.reduce_exp(el);
            let ghost bs = b.degrees@;
            let g = Polynomial::gcd(self.clone(), b);
            let ghost gs = g.degrees@;
            let ghost k2 = choose|k: nat| #[trigger] gcd_stable_from(ps, bs, gs, k);
            let is_one = g.degrees.len() == 1 && g.degrees[0] == 0;
            if !is_one {
                proof {
                    assert(gs != seq![0i64]) by {
                        if gs == seq![0i64] {
                            assert(gs.len() == 1 && gs[0] == 0i64);
                        }
                    }
                    assert(!sgcd_is_one(ps, bs)) by {
                        if sgcd_is_one(ps, bs) {
                            let k1 = choose|k: nat|
                                #[trigger] gcd_stable_from(ps, bs, seq![0i64], k);
                            assert(sgcd_fuel(ps, bs, k1 + k2) == seq![0i64]);
                            assert(sgcd_fuel(ps, bs, k1 + k2) == gs);
                        }
                    }
                    assert(!ben_or_accepts(ps));
                }
                return Reducibility::REDUCIBLE;
            }
            proof {
                assert(gs =~= seq![0i64]);
                assert(sgcd_is_one(ps, bs)) by {
                    assert(gcd_stable_from(ps, bs, seq![0i64], k2));
                }
            }
            el = el + 1;
        }
        proof {
            assert(ben_or_accepts(ps)) by {
                assert forall|el2: i64|
                    1 <= el2 <= sdeg(ps) / 2 implies #[trigger] sgcd_is_one(
                    ps,
                    sreduce_exp(ps, el2),
                ) by {}
            }
        }
        Reducibility::IRREDUCIBLE
    }

    /// Draws random polynomials of degree `d` until the Ben-Or test
    /// accepts one.  The attempt bound exists only so that every loop in
    /// the library has one; the expected number of attempts is about d,
    /// so only an exhausted bound of nearly 2^64 draws hands back the
    /// named fallback x^d + 1 instead of an accepted polynomial.
    pub fn from_degree_irr(d: i32) -> (r: Polynomial)
        requires
            1 <= d <= 62,
        ensures
            r.wf(),
            sdeg(r.degrees@) == d,
            ben_or_accepts(r.degrees@) || r.degrees@ == fallback_poly(d as int),
    {
        let mut p = Polynomial::from_random(d);
        let mut attempts: u64 = 0;
        while attempts < 0xffff_ffff_ffff_ffff
            invariant
                1 <= d <= 62,
                p.wf(),
                sdeg(p.degrees@) == d,
            decreases 0xffff_ffff_ffff_ffffu64 - attempts,
        {
            if let Reducibility::IRREDUCIBLE = p.reducibility() {
                return p;
            }
            p = Polynomial::from_random(d);
            attempts = attempts + 1;
        }
        let mut degrees: Vec<i64> = Vec::new();
        degrees.push(d as i64);
        degrees.push(0);
        let fb = Polynomial { degrees };
        proof {
            assert(fb.degrees@ =~= fallback_poly(d as int));
        }
        fb
    }
}


/// The 64-bit image 1 is the polynomial with the single degree 0.
proof fn lemma_one_seq()
    ensures
        sfrom_u64(1) == seq![0i64],
{
    lemma_sbits_above(1, 0);
    assert forall|d: i64| #![all_triggers] sfrom_u64(1).contains(d) <==> seq![0i64].contains(
        d,
    ) by {
        if 0 <= d <= 63 {
            assert((((1i64 >> (d as u32)) & 1) == 1 <==> d == 0)) by (bit_vector)
                requires 0 <= d <= 63,
            ;
        }
        if d == 0 {
            assert(seq![0i64][0] == 0i64);
        }
        if seq![0i64].contains(d) {
            let i = choose|i: int| 0 <= i < 1 && seq![0i64][i] == d;
            assert(d == 0);
        }
    }
    assert(sdd(seq![0i64]));
    lemma_sdd_unique(sfrom_u64(1), seq![0i64]);
}

/// The 64-bit image 2 is the polynomial x: the single degree 1.
proof fn lemma_two_seq()
    ensures
        sfrom_u64(2) == seq![1i64],
{
    lemma_sbits_above(2, 0);
    assert forall|d: i64| #![all_triggers] sfrom_u64(2).contains(d) <==> seq![1i64].contains(
        d,
    ) by {
        if 0 <= d <= 63 {
            assert((((2i64 >> (d as u32)) & 1) == 1 <==> d == 1)) by (bit_vector)
                requires 0 <= d <= 63,
            ;
        }
        if d == 1 {
            assert(seq![1i64][0] == 1i64);
        }
        if seq![1i64].contains(d) {
            let i = choose|i: int| 0 <= i < 1 && seq![1i64][i] == d;
            assert(d == 1);
        }
    }
    assert(sdd(seq![1i64]));
    lemma_sdd_unique(sfrom_u64(2), seq![1i64]);
}

/// Whether bit `idx` is set in a byte string read as one big number.
fn check_bit(bytes: &Vec<u8>, idx: usize) -> (r: bool)
    ensures
        r == sbit_at(bytes@, idx as int),
{
    let q = idx / 8;
    if q >= bytes.len() {
        return false;
    }
    let aidx = bytes.len() - 1 - q;
    (bytes[aidx] >> ((idx % 8) as u8)) & 1 == 1
}



/// One byte folded into the running Rabin state: the state shifted up a
/// byte, the byte's bits added in, the whole reduced by the base.
pub open spec fn spush(p: Seq<i64>, base: Seq<i64>, byte: u8) -> Seq<i64> {
    smod(sunion(sshift(p, 8), sfrom_u64(byte as i64)), base)
}

/// The Rabin state after streaming a byte string from the zero state.
pub open spec fn sfp(base: Seq<i64>, bytes: Seq<u8>) -> Seq<i64>
    decreases bytes.len(),
{
    if bytes.len() == 0 {
        Seq::empty()
    } else {
        spush(sfp(base, bytes.drop_last()), base, bytes.last())
    }
}

/// The Rabin fingerprint of a byte string under a base polynomial, as a
/// 64-bit value.
pub open spec fn sfingerprint(base: Seq<i64>, bytes: Seq<u8>) -> i64 {
    sto_i64(sfp(base, bytes))
}

/// A value fed through a fingerprint function.
pub trait Fingerprint<T>: Sized {
    /// What the instance must satisfy before a calculation.
    spec fn fp_req(&self) -> bool;

    /// How the result and the state after relate to the state before and
    /// the bytes.
    spec fn fp_ens(&self, post: Self, bytes: Seq<u8>, r: Option<T>) -> bool;

    fn calculate(&mut self, bytes: Vec<u8>) -> (r: Option<T>)
        requires
            old(self).fp_req(),
        ensures
            old(self).fp_ens(*final(self), bytes@, r),
    ;
}

/// A streaming Rabin fingerprint: a running polynomial reduced by a fixed
/// irreducible base.  Outside a calculation the running state is zero, so
/// the fingerprint depends on the base and the bytes alone.
pub struct RabinFingerprint {
    p: Polynomial,
    base: Polynomial,
}

impl RabinFingerprint {
    /// The degree sequence of the base polynomial.
    pub closed spec fn base_spec(&self) -> Seq<i64> {
        self.base.degrees@
    }

    /// The base is canonical with a workable degree and the running state
    /// is zero.
    pub closed spec fn wf(&self) -> bool {
        &&& self.base.wf()
        &&& 1 <= sdeg(self.base.degrees@) <= 62
        &&& self.p.degrees@ == Seq::<i64>::empty()
    }

    /// A fingerprint over the given base, with a zero running state.
    pub fn new(base: Polynomial) -> (r: RabinFingerprint)
        requires
            base.wf(),
            1 <= sdeg(base.degrees@) <= 62,
        ensures
            r.wf(),
            r.base_spec() == base.degrees@,
    {
        RabinFingerprint { p: Polynomial::empty(), base }
    }

    /// A fingerprint over a fresh random irreducible base of degree 53.
    pub fn default() -> (r: RabinFingerprint)
        ensures
            r.wf(),
            sdeg(r.base_spec()) == 53,
    {
        RabinFingerprint::new(Polynomial::from_degree_irr(53))
    }

    /// A fingerprint over a fresh random irreducible base of degree 53.
    pub fn new_default() -> (r: RabinFingerprint)
        ensures
            r.wf(),
            sdeg(r.base_spec()) == 53,
    {
        RabinFingerprint::default()
    }

    /// Folds one byte into the running state.
    fn push_byte(&mut self, byte: u8)
        requires
            old(self).base.wf(),
            1 <= sdeg(old(self).base.degrees@) <= 62,
            old(self).p.wf(),
            sdeg(old(self).p.degrees@) < sdeg(old(self).base.degrees@),
        ensures
            final(self).base == old(self).base,
            final(self).p.wf(),
            sdeg(final(self).p.degrees@) < sdeg(final(self).base.degrees@),
            final(self).p.degrees@ == spush(old(self).p.degrees@, old(self).base.degrees@, byte),
    {
        proof {
            lemma_sshift(self.p.degrees@, 8);
            lemma_sbits_above(byte as i64, 0);
            lemma_sunion(sshift(self.p.degrees@, 8), sfrom_u64(byte as i64));
        }
        let shifted = self.p.shift_left(8);
        let low = Polynomial::from_u64(byte as i64);
        let orred = shifted.or(&low);
        self.p = orred.modulo(&self.base);
    }

    /// Streams every byte into the state, then hands the state out and
    /// resets it to zero.
    pub fn calculate_poly(&mut self, bytes: &Vec<u8>) -> (r: Polynomial)
        requires
            old(self).wf(),
        ensures
            final(self).wf(),
            final(self).base_spec() == old(self).base_spec(),
            r.wf(),
            r.degrees@ == sfp(old(self).base_spec(), bytes@),
            sdeg(r.degrees@) < sdeg(old(self).base_spec()),
    {
        let mut i: usize = 0;
        proof {
            assert(sfp(self.base.degrees@, bytes@.take(0)) =~= Seq::<i64>::empty());
        }
        while i < bytes.len()
            invariant
                self.base.wf(),
                self.base.degrees@ == old(self).base_spec(),
                1 <= sdeg(self.base.degrees@) <= 62,
                self.p.wf(),
                sdeg(self.p.degrees@) < sdeg(self.base.degrees@),
                i <= bytes@.len(),
                self.p.degrees@ == sfp(self.base.degrees@, bytes@.take(i as int)),
            decreases bytes@.len() - i,
        {
            proof {
                let t = bytes@.take(i as int + 1);
                assert(t.drop_last() =~= bytes@.take(i as int));
                assert(t.last() == bytes@[i as int]);
            }
            self.push_byte(bytes[i]);
            i = i + 1;
        }
        proof {
            assert(bytes@.take(bytes@.len() as int) =~= bytes@);
        }
        let p = self.p.clone();
        self.p = Polynomial::empty();
        proof {
            assert(self.p.degrees@ =~= Seq::<i64>::empty());
        }
        p
    }
}

impl Fingerprint<Polynomial> for RabinFingerprint {
    open spec fn fp_req(&self) -> bool {
        self.wf()
    }

    open spec fn fp_ens(&self, post: Self, bytes: Seq<u8>, r: Option<Polynomial>) -> bool {
        &&& post.wf()
        &&& post.base_spec() == self.base_spec()
        &&& r matches Some(p) && p.degrees@ == sfp(self.base_spec(), bytes)
    }

    fn calculate(&mut self, bytes: Vec<u8>) -> (r: Option<Polynomial>) {
        Some(self.calculate_poly(&bytes))
    }
}

impl Fingerprint<i64> for RabinFingerprint {
    open spec fn fp_req(&self) -> bool {
        self.wf()
    }

    open spec fn fp_ens(&self, post: Self, bytes: Seq<u8>, r: Option<i64>) -> bool {
        &&& post.wf()
        &&& post.base_spec() == self.base_spec()
        &&& r == Some(sfingerprint(self.base_spec(), bytes))
    }

    fn calculate(&mut self, bytes: Vec<u8>) -> (r: Option<i64>) {
        let p = self.calculate_poly(&bytes);
        proof {
            if p.degrees@.len() > 0 {
                assert(p.degrees@[0] < sdeg(self.base.degrees@));
            }
        }
        Some(p.to_i64())
    }
}

/// Law: one instance gives one value: a second calculation over the same
/// bytes returns exactly what the first did, because each calculation
/// leaves the running state zero and the base untouched.
pub proof fn lemma_fingerprint_idempotent(
    f0: RabinFingerprint,
    f1: RabinFingerprint,
    f2: RabinFingerprint,
    bytes: Seq<u8>,
    r1: Option<i64>,
    r2: Option<i64>,
)
    requires
        Fingerprint::<i64>::fp_ens(&f0, f1, bytes, r1),
        Fingerprint::<i64>::fp_ens(&f1, f2, bytes, r2),
    ensures
        r1 == r2,
        r1 == Some(sfingerprint(f0.base_spec(), bytes)),
{
}

/// The entry of the reduction table for a 9-bit chunk: the chunk shifted
/// to the base's degree, plus its remainder by the base.
pub open spec fn fentry(base: Seq<i64>, k: i64) -> i64 {
    let left = sshift(sfrom_u64(k), sdeg(base) as i64);
    sto_i64(sxor(left, smod(left, base)))
}

/// One byte folded into the running 64-bit state of the table-driven
/// variant.
pub open spec fn sfix_step(base: Seq<i64>, f: i64, b: u8) -> i64 {
    let x = (f >> ((sdeg(base) - 8) as u32)) & 0x1ff;
    ((f << 8u32) | (b as i64)) ^ fentry(base, x)
}

/// The 64-bit state of the table-driven variant after streaming a byte
/// string from zero.
pub open spec fn sfix_calc(base: Seq<i64>, bytes: Seq<u8>) -> i64
    decreases bytes.len(),
{
    if bytes.len() == 0 {
        0
    } else {
        sfix_step(base, sfix_calc(base, bytes.drop_last()), bytes.last())
    }
}

/// The table-driven Rabin fingerprint: a 512-entry table, computed once
/// from the base, folds nine leading bits at a time into a 64-bit state.
pub struct FixRabinFingerprint {
    shift: i64,
    degree: i64,
    table: Vec<i64>,
    base: Ghost<Seq<i64>>,
}

impl FixRabinFingerprint {
    /// The degree sequence of the base polynomial the table was built
    /// from.
    pub closed spec fn base_spec(&self) -> Seq<i64> {
        self.base@
    }

    /// The table holds the reduction of every 9-bit chunk by the base,
    /// and the shift selects the chunk at the state's top.
    pub closed spec fn wf(&self) -> bool {
        &&& 8 <= sdeg(self.base@) <= 54
        &&& self.degree == sdeg(self.base@)
        &&& self.shift == self.degree - 8
        &&& self.table@.len() == 512
        &&& forall|k: int| 0 <= k < 512 ==> self.table@[k] == fentry(self.base@, k as i64)
    }

    /// Builds the reduction table for the given base polynomial.
    pub fn new(base: Polynomial) -> (r: FixRabinFingerprint)
        requires
            base.wf(),
            8 <= sdeg(base.degrees@) <= 54,
        ensures
            r.wf(),
            r.base_spec() == base.degrees@,
    {
        let degree = base.degree();
        let shift = degree - 8;
        let mut table: Vec<i64> = Vec::new();
        let mut el: i64 = 0;
        while el < 512
            invariant
                base.wf(),
                8 <= sdeg(base.degrees@) <= 54,
                degree == sdeg(base.degrees@),
                0 <= el <= 512,
                table@.len() == el,
                forall|k: int| 0 <= k < el ==> table@[k] == fentry(base.degrees@, k as i64),
            decreases 512 - el,
        {
            proof {
                lemma_sbits_above(el, 0);
                let sm = sfrom_u64(el);
                assert(sm == sbits_above(el, 0));
                assert forall|d: i64| sm.contains(d) implies 0 <= d <= 8 by {
                    assert(sbits_above(el, 0).contains(d));
                    assert(0 <= d <= 63 && ((el >> (d as u32)) & 1) == 1);
                    let elg = el;
                    assert(9 <= d <= 63 ==> ((elg >> (d as u32)) & 1) == 0) by (bit_vector)
                        requires 0 <= elg < 512,
                    ;
                }
                if sm.len() > 0 {
                    assert(sm.contains(sm[0]));
                }
                lemma_sshift(sm, sdeg(base.degrees@) as i64);
            }
            let left = Polynomial::from_u64(el).shift_left(degree);
            let md = left.modulo(&base);
            let ghost lg = left.degrees@;
            let ghost mg = md.degrees@;
            let res = Polynomial::xor(left, md);
            proof {
                lemma_sdiff(lg, mg);
                lemma_sdiff(mg, lg);
                lemma_sunion(sdiff(lg, mg), sdiff(mg, lg));
                assert forall|k: int| 0 <= k < res.degrees@.len() implies 0 <= #[trigger] res.degrees@[k]
                    <= 62 by {
                    let d = res.degrees@[k];
                    assert(res.degrees@.contains(d));
                    if lg.contains(d) {
                        let i = choose|i: int| 0 <= i < lg.len() && lg[i] == d;
                        assert(lg[i] <= lg[0] || i == 0);
                    } else {
                        assert(mg.contains(d));
                        let i = choose|i: int| 0 <= i < mg.len() && mg[i] == d;
                        assert(mg[i] <= mg[0] || i == 0);
                    }
                }
            }
            table.push(res.to_i64());
            el = el + 1;
        }
        FixRabinFingerprint { degree, shift, table, base: Ghost(base.degrees@) }
    }

    /// Builds the table over a fresh random irreducible base of the given
    /// degree.
    pub fn new_degree(d: i32) -> (r: FixRabinFingerprint)
        requires
            8 <= d <= 54,
        ensures
            r.wf(),
            sdeg(r.base_spec()) == d,
    {
        FixRabinFingerprint::new(Polynomial::from_degree_irr(d))
    }
}

impl Fingerprint<i64> for FixRabinFingerprint {
    open spec fn fp_req(&self) -> bool {
        self.wf()
    }

    open spec fn fp_ens(&self, post: Self, bytes: Seq<u8>, r: Option<i64>) -> bool {
        &&& post == *self
        &&& r == Some(sfix_calc(self.base_spec(), bytes))
    }

    fn calculate(&mut self, bytes: Vec<u8>) -> (r: Option<i64>) {
        let mut f: i64 = 0;
        let mut i: usize = 0;
        while i < bytes.len()
            invariant
                self.wf(),
                self == old(self),
                i <= bytes@.len(),
                f == sfix_calc(self.base_spec(), bytes@.take(i as int)),
            decreases bytes@.len() - i,
        {
            proof {
                let t = bytes@.take(i as int + 1);
                assert(t.drop_last() =~= bytes@.take(i as int));
                assert(t.last() == bytes@[i as int]);
                let fg = f;
                let sg = self.shift;
                assert(0 <= ((fg >> (sg as u32)) & 0x1ff) < 512) by (bit_vector);
            }
            let x = (f >> (self.shift as u32)) & 0x1ff;
            f = ((f << 8u32) | (bytes[i] as i64)) ^ self.table[x as usize];
            i = i + 1;
        }
        proof {
            assert(bytes@.take(bytes@.len() as int) =~= bytes@);
        }
        Some(f)
    }
}

} // verus!
