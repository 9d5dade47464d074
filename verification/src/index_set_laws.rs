//! What holds of [`IndexSet`] across its operations and representations.
use vstd::prelude::*;
use crate::bits::{bit64, bv_words_a, lemma_bit64_zero};
use crate::index_set::{chunk_of, lemma_div_mod64, pos_of, IndexSet};
use crate::index_set_elems::ascending;
use crate::index_set_order::{lemma_set_below_asym, lemma_word_order, set_below};
use crate::index_set_shift::{shl_set, shr_set};

verus! {

impl IndexSet {
    /// Two sets with the same chunks list the same slots over any range of chunks.
    proof fn lemma_elems_range_same(self, other: IndexSet, lo: nat, hi: nat)
        requires
            forall|k: nat| self.chunk(k) == other.chunk(k),
        ensures
            self.elems_range(lo, hi) == other.elems_range(lo, hi),
        decreases hi - lo,
    {
        if lo < hi {
            self.lemma_elems_range_same(other, lo + 1, hi);
            assert(self.chunk_elems(lo) == other.chunk_elems(lo));
        }
    }

    /// Chunks past the stored ones add nothing to the listing.
    proof fn lemma_elems_range_extend(self, lo: nat, hi: nat)
        requires
            lo <= self.num_chunks() <= hi,
        ensures
            self.elems_range(lo, hi) == self.elems_range(lo, self.num_chunks()),
        decreases self.num_chunks() - lo,
    {
        if lo == self.num_chunks() {
            self.lemma_elems_range_zero(lo, hi);
        } else {
            self.lemma_elems_range_extend(lo + 1, hi);
        }
    }
}

/// Equal sets list the same slots in the same order, whatever their
/// representations; so they feed a hasher the same values and hash alike.
pub proof fn lemma_equal_sets_same_elements(a: IndexSet, b: IndexSet)
    requires
        a@ == b@,
    ensures
        a.elems() == b.elems(),
{
    a.lemma_chunks_from_view(b);
    let n = if a.num_chunks() <= b.num_chunks() {
        b.num_chunks()
    } else {
        a.num_chunks()
    };
    a.lemma_elems_range_extend(0, n);
    b.lemma_elems_range_extend(0, n);
    a.lemma_elems_range_same(b, 0, n);
}

/// No set is below itself in the order of `cmp`.
pub proof fn lemma_order_irreflexive(a: Set<nat>)
    ensures
        !set_below(a, a),
{
}

/// The order of `cmp` is transitive.
pub proof fn lemma_order_transitive(a: Set<nat>, b: Set<nat>, c: Set<nat>)
    requires
        set_below(a, b),
        set_below(b, c),
    ensures
        set_below(a, c),
{
    let m1 = choose|m: nat|
        #![trigger b.contains(m), a.contains(m)]
        b.contains(m) && !a.contains(m) && forall|j: nat| j > m ==> (#[trigger] a.contains(j)
            == b.contains(j));
    let m2 = choose|m: nat|
        #![trigger c.contains(m), b.contains(m)]
        c.contains(m) && !b.contains(m) && forall|j: nat| j > m ==> (#[trigger] b.contains(j)
            == c.contains(j));
    if m1 > m2 {
        assert(b.contains(m1) == c.contains(m1));
        assert forall|j: nat| j > m1 implies (#[trigger] a.contains(j) == c.contains(j)) by {
            assert(a.contains(j) == b.contains(j));
            assert(b.contains(j) == c.contains(j));
        }
        assert(c.contains(m1) && !a.contains(m1));
    } else if m2 > m1 {
        assert(a.contains(m2) == b.contains(m2));
        assert forall|j: nat| j > m2 implies (#[trigger] a.contains(j) == c.contains(j)) by {
            assert(a.contains(j) == b.contains(j));
            assert(b.contains(j) == c.contains(j));
        }
        assert(c.contains(m2) && !a.contains(m2));
    }
}

/// Within one 64-bit word, the order of `cmp` is the order of the numbers
/// the words spell: the comparison runs from the highest bit down.
pub proof fn lemma_order_of_words(x: u64, y: u64)
    ensures
        set_below(IndexSet::Medium(x)@, IndexSet::Medium(y)@) == (x < y),
{
    let a = IndexSet::Medium(x);
    let b = IndexSet::Medium(y);
    if x == y {
        assert(a@ == b@);
    } else {
        let h = lemma_word_order(x, y);
        assert forall|j: nat| #[trigger] a@.contains(j) == bit64(x, j) by {
            lemma_div_mod64(j);
            assert(a@.contains(j) == a.has(j));
            if j < 64 {
                assert(chunk_of(j) == 0 && pos_of(j) == j);
            } else {
                assert(chunk_of(j) > 0);
                assert(a.chunk(chunk_of(j)) == 0);
                lemma_bit64_zero(pos_of(j));
            }
        }
        assert forall|j: nat| #[trigger] b@.contains(j) == bit64(y, j) by {
            lemma_div_mod64(j);
            assert(b@.contains(j) == b.has(j));
            if j < 64 {
                assert(chunk_of(j) == 0 && pos_of(j) == j);
            } else {
                assert(chunk_of(j) > 0);
                assert(b.chunk(chunk_of(j)) == 0);
                lemma_bit64_zero(pos_of(j));
            }
        }
        assert(a@.contains(h) == bit64(x, h));
        assert(b@.contains(h) == bit64(y, h));
        if x < y {
            assert forall|j: nat| j > h implies (#[trigger] a@.contains(j) == b@.contains(j)) by {
                assert(bit64(x, j) == bit64(y, j));
            }
            assert(set_below(a@, b@));
        } else {
            assert forall|j: nat| j > h implies (#[trigger] b@.contains(j) == a@.contains(j)) by {
                assert(bit64(x, j) == bit64(y, j));
            }
            assert(set_below(b@, a@));
            lemma_set_below_asym(a@, b@);
        }
    }
}

/// Shifting up and then down by the same amount gives the set back.
pub proof fn lemma_shift_roundtrip(s: Set<nat>, r: nat)
    ensures
        shr_set(shl_set(s, r), r) == s,
{
    assert(shr_set(shl_set(s, r), r) =~= s) by {
        assert forall|i: nat| #[trigger] shr_set(shl_set(s, r), r).contains(i) == s.contains(i) by {
            assert((i + r - r) as nat == i);
        }
    }
}

/// Shifting down and then up by the same amount keeps exactly the slots
/// from `r` on.
pub proof fn lemma_shift_down_up(s: Set<nat>, r: nat)
    ensures
        shl_set(shr_set(s, r), r) == s.filter(|i: nat| i >= r),
{
    assert(shl_set(shr_set(s, r), r) =~= s.filter(|i: nat| i >= r)) by {
        assert forall|i: nat| #[trigger] shl_set(shr_set(s, r), r).contains(i) == s.filter(
            |i: nat| i >= r,
        ).contains(i) by {
            if i >= r {
                assert(((i - r) as nat) + r == i);
            }
        }
    }
}


/// A set has exactly one minimal representation: two minimal sets with the
/// same slots have the same variant and the same chunks, so what
/// `minimize`, `&` and `>>` return is fixed by the slots alone.
pub proof fn lemma_minimal_unique(a: IndexSet, b: IndexSet)
    requires
        a@ == b@,
        a.is_minimal(),
        b.is_minimal(),
    ensures
        a.tag() == b.tag(),
        a.num_chunks() == b.num_chunks(),
        forall|k: nat| #[trigger] a.chunk(k) == b.chunk(k),
        a.tag() < 3 ==> a == b,
{
    a.lemma_chunks_from_view(b);
    lemma_minimal_shape(a);
    lemma_minimal_shape(b);
    assert(a.tag() == b.tag());
    match (a, b) {
        (IndexSet::Small(x), IndexSet::Small(y)) => {
            assert(a.chunk(0) == b.chunk(0));
        },
        (IndexSet::Medium(x), IndexSet::Medium(y)) => {
            assert(a.chunk(0) == b.chunk(0));
        },
        (IndexSet::Large(x), IndexSet::Large(y)) => {
            assert(a.chunk(0) == b.chunk(0) && a.chunk(1) == b.chunk(1));
            bv_words_a(x, y);
        },
        (IndexSet::Heap(v), IndexSet::Heap(w)) => {
            if v.len() < w.len() {
                assert(a.chunk((w.len() - 1) as nat) == 0);
                assert(b.chunk((w.len() - 1) as nat) != 0);
            } else if w.len() < v.len() {
                assert(b.chunk((v.len() - 1) as nat) == 0);
                assert(a.chunk((v.len() - 1) as nat) != 0);
            }
        },
        _ => {},
    }
}

/// What the chunks of a minimal set say about its variant.
proof fn lemma_minimal_shape(a: IndexSet)
    requires
        a.is_minimal(),
    ensures
        a.tag() == 0 <==> (a.chunk(0) <= u32::MAX && forall|k: nat| k > 0 ==> #[trigger] a.chunk(k)
            == 0),
        a.tag() == 1 <==> (a.chunk(0) > u32::MAX && forall|k: nat| k > 0 ==> #[trigger] a.chunk(k)
            == 0),
        a.tag() == 2 <==> (a.chunk(1) != 0 && forall|k: nat| k > 1 ==> #[trigger] a.chunk(k) == 0),
        a.tag() == 3 <==> exists|k: nat| k > 1 && #[trigger] a.chunk(k) != 0,
{
    match a {
        IndexSet::Small(x) => {
            assert(a.chunk(0) == x as u64);
        },
        IndexSet::Medium(x) => {},
        IndexSet::Large(x) => {
            assert(x > 0xffff_ffff_ffff_ffffu128 ==> (x >> 64u128) as u64 != 0) by (bit_vector);
            assert(a.chunk(1) != 0);
        },
        IndexSet::Heap(v) => {
            let k = (v.len() - 1) as nat;
            assert(a.chunk(k) != 0);
            assert(a.chunk(0) > u32::MAX || a.chunk(0) <= u32::MAX);
        },
    }
}

/// The part `lo..hi` of a listing of `n` slots that an iterator has not
/// produced yet, after the calls `ops` (`true` for `next`, `false` for
/// `next_back`), starting from the whole listing.
pub open spec fn iter_window(n: int, ops: Seq<bool>) -> (int, int)
    decreases ops.len(),
{
    if ops.len() == 0 {
        (0, n)
    } else {
        let w = iter_window(n, ops.drop_last());
        if w.0 < w.1 {
            if ops.last() {
                (w.0 + 1, w.1)
            } else {
                (w.0, w.1 - 1)
            }
        } else {
            w
        }
    }
}

/// The position in the listing of the slot that call `i` of `ops` returns,
/// or `-1` when it returns `None`.
pub open spec fn iter_pick(n: int, ops: Seq<bool>, i: int) -> int {
    let w = iter_window(n, ops.subrange(0, i));
    if w.0 < w.1 {
        if ops[i] {
            w.0
        } else {
            w.1 - 1
        }
    } else {
        -1
    }
}

/// What call `i` of `ops` on an iterator over `s` returns.
pub open spec fn iter_output(s: IndexSet, ops: Seq<bool>, i: int) -> Option<nat> {
    let p = iter_pick(s.elems().len() as int, ops, i);
    if p >= 0 {
        Some(s.elems()[p])
    } else {
        None
    }
}

/// What is left of the listing of `s` after the calls `ops`.
pub open spec fn iter_rest(s: IndexSet, ops: Seq<bool>) -> Seq<nat> {
    let w = iter_window(s.elems().len() as int, ops);
    s.elems().subrange(w.0, w.1)
}

/// Some call of `ops` picks position `k`.
pub open spec fn picked(n: int, ops: Seq<bool>, k: int) -> bool {
    exists|i: int| 0 <= i < ops.len() && #[trigger] iter_pick(n, ops, i) == k
}

/// The positions the calls pick: fronts from the low end up, backs from the
/// high end down, each position once, and `None` only once the window is
/// empty, after which it stays empty.
proof fn lemma_picks(n: int, ops: Seq<bool>)
    requires
        n >= 0,
    ensures
        0 <= iter_window(n, ops).0 <= iter_window(n, ops).1 <= n,
        forall|i: int|
            0 <= i < ops.len() && ops[i] && #[trigger] iter_pick(n, ops, i) >= 0 ==> iter_pick(
                n,
                ops,
                i,
            ) < iter_window(n, ops).0,
        forall|i: int|
            0 <= i < ops.len() && !ops[i] && #[trigger] iter_pick(n, ops, i) >= 0
                ==> iter_window(n, ops).1 <= iter_pick(n, ops, i) < n,
        forall|i: int, j: int|
            0 <= i < j < ops.len() && ops[i] && ops[j] && #[trigger] iter_pick(n, ops, i) >= 0
                && #[trigger] iter_pick(n, ops, j) >= 0 ==> iter_pick(n, ops, i) < iter_pick(
                n,
                ops,
                j,
            ),
        forall|i: int, j: int|
            0 <= i < j < ops.len() && !ops[i] && !ops[j] && #[trigger] iter_pick(n, ops, i) >= 0
                && #[trigger] iter_pick(n, ops, j) >= 0 ==> iter_pick(n, ops, i) > iter_pick(
                n,
                ops,
                j,
            ),
        forall|i: int|
            0 <= i < ops.len() && #[trigger] iter_pick(n, ops, i) == -1 ==> iter_window(n, ops).0
                == iter_window(n, ops).1,
        forall|i: int, j: int|
            0 <= i < j < ops.len() && #[trigger] iter_pick(n, ops, i) == -1 ==> #[trigger] iter_pick(
                n,
                ops,
                j,
            ) == -1,
        forall|k: int|
            0 <= k < n && !(iter_window(n, ops).0 <= k < iter_window(n, ops).1)
                ==> #[trigger] picked(n, ops, k),
    decreases ops.len(),
{
    if ops.len() > 0 {
        let m = ops.len() - 1;
        let prev = ops.drop_last();
        lemma_picks(n, prev);
        let w0 = iter_window(n, prev);
        let w = iter_window(n, ops);
        assert(ops.subrange(0, m) == prev);
        assert forall|i: int| 0 <= i < m implies #[trigger] iter_pick(n, ops, i) == iter_pick(
            n,
            prev,
            i,
        ) by {
            assert(ops.subrange(0, i) == prev.subrange(0, i));
        }
        assert(iter_pick(n, ops, m) == if w0.0 < w0.1 {
            if ops[m] {
                w0.0
            } else {
                w0.1 - 1
            }
        } else {
            -1
        });
        assert forall|k: int| 0 <= k < n && !(w.0 <= k < w.1) implies #[trigger] picked(
            n,
            ops,
            k,
        ) by {
            if w0.0 <= k < w0.1 {
                assert(iter_pick(n, ops, m) == k);
            } else {
                assert(picked(n, prev, k));
                let i = choose|i: int| 0 <= i < prev.len() && #[trigger] iter_pick(n, prev, i) == k;
                assert(iter_pick(n, ops, i) == k);
            }
        }
        assert forall|i: int, j: int|
            0 <= i < j < ops.len() && #[trigger] iter_pick(n, ops, i) == -1 implies #[trigger] iter_pick(
            n,
            ops,
            j,
        ) == -1 by {
            assert(iter_pick(n, prev, i) == -1);
            if j < m {
                assert(iter_pick(n, prev, j) == -1);
            }
        }
    }
}

/// Iterating a set from both ends in any interleaving of `next` and
/// `next_back` (`ops`, `true` for `next`): every slot comes out once, the
/// fronts in ascending order, the backs in descending order, every front
/// below every back; once a call gives `None` all later calls do; and the
/// slots not produced yet are the rest of the listing, as many as `len`
/// reports.
pub proof fn lemma_iter_interleaving(s: IndexSet, ops: Seq<bool>)
    ensures
        forall|i: int|
            0 <= i < ops.len() ==> (#[trigger] iter_output(s, ops, i) matches Some(v)
                ==> s@.contains(v)),
        forall|i: int, j: int|
            0 <= i < j < ops.len() && #[trigger] iter_output(s, ops, i) is Some && #[trigger] iter_output(
                s,
                ops,
                j,
            ) is Some ==> {
                let a = iter_output(s, ops, i)->0;
                let b = iter_output(s, ops, j)->0;
                &&& a != b
                &&& ops[i] && ops[j] ==> a < b
                &&& !ops[i] && !ops[j] ==> a > b
                &&& ops[i] && !ops[j] ==> a < b
                &&& !ops[i] && ops[j] ==> a > b
            },
        forall|i: int, j: int|
            0 <= i < j < ops.len() && #[trigger] iter_output(s, ops, i) is None
                ==> #[trigger] iter_output(s, ops, j) is None,
        forall|v: nat|
            #[trigger] s@.contains(v) ==> iter_rest(s, ops).contains(v) || exists|i: int|
                0 <= i < ops.len() && #[trigger] iter_output(s, ops, i) == Some(v),
        forall|i: int|
            0 <= i < ops.len() && #[trigger] iter_output(s, ops, i) is Some ==> !iter_rest(
                s,
                ops,
            ).contains(iter_output(s, ops, i)->0),
        ascending(iter_rest(s, ops)),
{
    let e = s.elems();
    let n = e.len() as int;
    s.lemma_elems_view();
    lemma_picks(n, ops);
    let w = iter_window(n, ops);
    let r = iter_rest(s, ops);
    assert forall|i: int, j: int|
        0 <= i < j < ops.len() && #[trigger] iter_output(s, ops, i) is Some && #[trigger] iter_output(
            s,
            ops,
            j,
        ) is Some implies {
        let a = iter_output(s, ops, i)->0;
        let b = iter_output(s, ops, j)->0;
        &&& a != b
        &&& ops[i] && ops[j] ==> a < b
        &&& !ops[i] && !ops[j] ==> a > b
        &&& ops[i] && !ops[j] ==> a < b
        &&& !ops[i] && ops[j] ==> a > b
    } by {
        let p = iter_pick(n, ops, i);
        let q = iter_pick(n, ops, j);
        assert(p >= 0 && q >= 0);
        assert(p != q);
        if p < q {
            assert(e[p] < e[q]);
        } else {
            assert(e[q] < e[p]);
        }
    }
    assert forall|i: int, j: int|
        0 <= i < j < ops.len() && #[trigger] iter_output(s, ops, i) is None implies #[trigger] iter_output(
        s,
        ops,
        j,
    ) is None by {
        lemma_picks(n, ops.subrange(0, i));
        assert(iter_pick(n, ops, i) == -1);
        assert(iter_pick(n, ops, j) == -1);
    }
    assert forall|v: nat| #[trigger] s@.contains(v) implies r.contains(v) || exists|i: int|
        0 <= i < ops.len() && #[trigger] iter_output(s, ops, i) == Some(v) by {
        assert(e.contains(v));
        let k = choose|k: int| 0 <= k < n && e[k] == v;
        if w.0 <= k < w.1 {
            assert(r[k - w.0] == v);
        } else {
            assert(picked(n, ops, k));
            let i = choose|i: int| 0 <= i < ops.len() && #[trigger] iter_pick(n, ops, i) == k;
            assert(iter_output(s, ops, i) == Some(v));
        }
    }
    assert forall|i: int|
        0 <= i < ops.len() && #[trigger] iter_output(s, ops, i) is Some implies !r.contains(
        iter_output(s, ops, i)->0,
    ) by {
        let p = iter_pick(n, ops, i);
        let v = e[p];
        if r.contains(v) {
            let t = choose|t: int| 0 <= t < r.len() && r[t] == v;
            assert(e[w.0 + t] == e[p]);
            assert(w.0 + t == p) by {
                if w.0 + t < p {
                    assert(e[w.0 + t] < e[p]);
                } else if w.0 + t > p {
                    assert(e[p] < e[w.0 + t]);
                }
            }
        }
    }
    assert forall|a: int, b: int| 0 <= a < b < r.len() implies #[trigger] r[a] < #[trigger] r[b] by {
        assert(r[a] == e[w.0 + a] && r[b] == e[w.0 + b]);
    }
}

/// The iterator follows the model above: before the calls `ops` it holds
/// `iter_rest(s, ops)`; a call `op` that meets the contract of `next`
/// (`op`) or `next_back` (`!op`) returns `iter_output` and leaves
/// `iter_rest` of the longer list of calls. `IndexSet::iter` starts with
/// `iter_rest(s, [])`, the whole listing.
pub proof fn lemma_iter_follows(
    s: IndexSet,
    ops: Seq<bool>,
    op: bool,
    before: Seq<nat>,
    after: Seq<nat>,
    r: Option<nat>,
)
    requires
        before == iter_rest(s, ops),
        before.len() == 0 ==> r is None && after == before,
        before.len() > 0 ==> r == Some(
            if op {
                before[0]
            } else {
                before.last()
            },
        ) && after == if op {
            before.drop_first()
        } else {
            before.drop_last()
        },
    ensures
        after == iter_rest(s, ops.push(op)),
        r == iter_output(s, ops.push(op), ops.len() as int),
        iter_rest(s, Seq::empty()) == s.elems(),
{
    let e = s.elems();
    let n = e.len() as int;
    let ops2 = ops.push(op);
    lemma_picks(n, ops);
    assert(ops2.drop_last() == ops);
    assert(ops2.subrange(0, ops.len() as int) == ops);
    let w = iter_window(n, ops);
    if w.0 < w.1 {
        if op {
            assert(before.drop_first() == e.subrange(w.0 + 1, w.1));
        } else {
            assert(before.drop_last() == e.subrange(w.0, w.1 - 1));
        }
    }
    assert(e.subrange(0, n) == e);
}
} // verus!
