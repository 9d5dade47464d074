//! Ordering [`IndexSet`]s as the binary numbers whose set bits they are.
use vstd::prelude::*;
use vstd::std_specs::bits::{axiom_u64_leading_zeros, u64_leading_zeros};
use core::cmp::Ordering;
use vstd::std_specs::cmp::PartialOrdSpecImpl;
use crate::bits::{bit64, lemma_bit64_highest};
use crate::index_set::{chunk_of, lemma_div_mod64, lemma_div_mod64_converse, pos_of, IndexSet};

verus! {

/// `a` is below `b` as a binary number: at the highest slot where the two
/// sets differ, only `b` holds it.
pub open spec fn set_below(a: Set<nat>, b: Set<nat>) -> bool {
    exists|m: nat|
        #![trigger b.contains(m), a.contains(m)]
        b.contains(m) && !a.contains(m) && forall|j: nat| j > m ==> (#[trigger] a.contains(j)
            == b.contains(j))
}

/// The order of two slot sets as binary numbers: -1 below, 0 equal, 1 above.
pub open spec fn set_sign(a: Set<nat>, b: Set<nat>) -> int {
    if a == b {
        0
    } else if set_below(a, b) {
        -1
    } else {
        1
    }
}

/// The `Ordering` that `set_sign` stands for.
pub open spec fn set_ordering(a: Set<nat>, b: Set<nat>) -> Ordering {
    if set_sign(a, b) < 0 {
        Ordering::Less
    } else if set_sign(a, b) == 0 {
        Ordering::Equal
    } else {
        Ordering::Greater
    }
}

/// One set cannot be below another and above it at once.
pub proof fn lemma_set_below_asym(a: Set<nat>, b: Set<nat>)
    ensures
        !(set_below(a, b) && set_below(b, a)),
{
    if set_below(a, b) && set_below(b, a) {
        let m1 = choose|m: nat|
            #![trigger b.contains(m), a.contains(m)]
            b.contains(m) && !a.contains(m) && forall|j: nat| j > m ==> (#[trigger] a.contains(j)
                == b.contains(j));
        let m2 = choose|m: nat|
            #![trigger a.contains(m), b.contains(m)]
            a.contains(m) && !b.contains(m) && forall|j: nat| j > m ==> (#[trigger] b.contains(j)
                == a.contains(j));
        if m1 > m2 {
            assert(a.contains(m1) == b.contains(m1));
        } else if m2 > m1 {
            assert(a.contains(m2) == b.contains(m2));
        }
    }
}

/// Two different sets: one is below the other.
pub proof fn lemma_set_below_total(a: Set<nat>, b: Set<nat>)
    requires
        a != b,
        a.finite(),
        b.finite(),
    ensures
        set_below(a, b) || set_below(b, a),
{
    let d = a.difference(b).union(b.difference(a));
    assert(d.finite());
    assert(exists|x: nat| d.contains(x)) by {
        if forall|x: nat| !d.contains(x) {
            assert forall|x: nat| a.contains(x) == b.contains(x) by {
                assert(!d.contains(x));
            }
            assert(a =~= b);
        }
    }
    let x0 = choose|x: nat| d.contains(x);
    let m = lemma_max_of(d, x0);
    if b.contains(m) {
        assert forall|j: nat| j > m implies (#[trigger] a.contains(j) == b.contains(j)) by {
            assert(!d.contains(j));
        }
        assert(set_below(a, b));
    } else {
        assert forall|j: nat| j > m implies (#[trigger] b.contains(j) == a.contains(j)) by {
            assert(!d.contains(j));
        }
        assert(set_below(b, a));
    }
}

/// A nonempty finite set of naturals has a largest element.
proof fn lemma_max_of(s: Set<nat>, x: nat) -> (m: nat)
    requires
        s.finite(),
        s.contains(x),
    ensures
        s.contains(m),
        forall|j: nat| #[trigger] s.contains(j) ==> j <= m,
    decreases s.len(),
{
    let t = s.remove(x);
    if exists|y: nat| t.contains(y) {
        let y = choose|y: nat| t.contains(y);
        let m2 = lemma_max_of(t, y);
        if m2 >= x {
            m2
        } else {
            x
        }
    } else {
        assert forall|j: nat| #[trigger] s.contains(j) implies j <= x by {
            if j != x {
                assert(t.contains(j));
            }
        }
        x
    }
}

proof fn bv_top_diff(x: u64, y: u64, h: u64, j: u64)
    by (bit_vector)
    requires
        h < 64,
        (x ^ y) >> h == 1,
    ensures
        (x < y) == ((y >> h) & 1u64 == 1u64),
        ((x >> h) & 1u64 == 1u64) != ((y >> h) & 1u64 == 1u64),
        h < j < 64 ==> (((x >> j) & 1u64 == 1u64) == ((y >> j) & 1u64 == 1u64)),
{
}

/// Two different words: where their highest differing bit is, and which is larger.
pub(crate) proof fn lemma_word_order(x: u64, y: u64) -> (h: nat)
    requires
        x != y,
    ensures
        h < 64,
        bit64(x, h) != bit64(y, h),
        forall|j: nat| j > h ==> #[trigger] bit64(x, j) == bit64(y, j),
        (x < y) == bit64(y, h),
{
    let d = x ^ y;
    assert(x != y ==> x ^ y != 0) by (bit_vector);
    lemma_bit64_highest(d);
    axiom_u64_leading_zeros(d);
    let hh = (63 - u64_leading_zeros(d)) as u64;
    assert((d >> hh) & 1u64 == 1u64);
    assert(d >> ((hh + 1) as u64) == 0);
    assert((d >> hh) & 1u64 == 1u64 && d >> ((hh + 1) as u64) == 0 && hh < 64 ==> d >> hh == 1)
        by (bit_vector);
    assert forall|j: nat| j > hh implies #[trigger] bit64(x, j) == bit64(y, j) by {
        if j < 64 {
            bv_top_diff(x, y, hh, j as u64);
        }
    }
    bv_top_diff(x, y, hh, 0);
    hh as nat
}

impl IndexSet {
    /// Compares the chunks below `n` from the highest down, all chunks from
    /// `n` on being equal: -1 when `self` is below, 0 when equal, 1 when above.
    fn compare_chunks_from(&self, other: &Self, n: usize) -> (r: i8)
        requires
            forall|k: nat| k >= n ==> #[trigger] self.chunk(k) == other.chunk(k),
        ensures
            r == set_sign(self@, other@),
    {
        let mut k = n;
        while k > 0
            invariant
                k <= n,
                forall|j: nat| j >= k ==> #[trigger] self.chunk(j) == other.chunk(j),
            decreases k,
        {
            let i = k - 1;
            let x = self.chunk_at(i);
            let y = other.chunk_at(i);
            if x != y {
                proof {
                    let h = lemma_word_order(x, y);
                    let m = 64 * (i as nat) + h;
                    self.lemma_has_chunk(i as nat, h);
                    other.lemma_has_chunk(i as nat, h);
                    assert forall|j: nat| j > m implies (#[trigger] self@.contains(j)
                        == other@.contains(j)) by {
                        lemma_div_mod64(j);
                        if chunk_of(j) == i {
                            assert(pos_of(j) > h);
                        }
                    }
                    assert(self@ != other@) by {
                        assert(self@.contains(m) != other@.contains(m));
                    }
                    if x < y {
                        assert(other@.contains(m) && !self@.contains(m));
                        assert(set_below(self@, other@));
                    } else {
                        assert(self@.contains(m) && !other@.contains(m));
                        assert(forall|j: nat| j > m ==> (#[trigger] other@.contains(j)
                            == self@.contains(j)));
                        assert(set_below(other@, self@));
                        lemma_set_below_asym(self@, other@);
                    }
                }
                if x < y {
                    return -1;
                } else {
                    return 1;
                }
            }
            k = i;
        }
        proof {
            self.lemma_view_from_chunks(*other);
        }
        0
    }

    /// The larger of the two chunk counts.
    fn max_chunk_count(&self, other: &Self) -> (n: usize)
        ensures
            n >= self.num_chunks(),
            n >= other.num_chunks(),
    {
        let a = self.max_chunks();
        let b = other.max_chunks();
        if a < b {
            b
        } else {
            a
        }
    }

    /// Compares two sets as the binary numbers whose set bits they are.
    pub fn cmp(&self, other: &Self) -> (r: Ordering)
        ensures
            r == set_ordering(self@, other@),
    {
        let n = self.max_chunk_count(other);
        let s = self.compare_chunks_from(other, n);
        if s < 0 {
            Ordering::Less
        } else if s == 0 {
            Ordering::Equal
        } else {
            Ordering::Greater
        }
    }
}

impl PartialOrd for IndexSet {
    /// Always `Some` of [`IndexSet::cmp`].
    fn partial_cmp(&self, other: &Self) -> (r: Option<Ordering>) {
        Some(self.cmp(other))
    }
}

impl PartialOrdSpecImpl for IndexSet {
    open spec fn obeys_partial_cmp_spec() -> bool {
        true
    }

    open spec fn partial_cmp_spec(&self, other: &Self) -> Option<Ordering> {
        Some(set_ordering(self@, other@))
    }
}

} // verus!
