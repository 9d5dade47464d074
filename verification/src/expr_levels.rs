//! The invariance masks of multi-level evaluation over spatial dimensions.
//!
//! With spatial dimensions `d0, d1, ..., dn` (the innermost axis first), a
//! mask is a set of dimensions that holds `d0` and some of the others; a
//! sub-expression that depends on none of the dimensions of a mask can be
//! evaluated outside the loops over them. The masks are visited from the
//! largest to the smallest, the set of all the dimensions left out.
use vstd::prelude::*;
use crate::bits::bit64;
use crate::index_set::IndexSet;
use crate::expr_tree::{chain_of, folded, hoist_pieces, hoist_slot, hoist_tree, slots_needed, Node};

verus! {

/// The mask for the number `b`: `d0`, and `rest[i]` for every bit `i` of `b`
/// among the first `k`.
pub open spec fn mask_upto(d0: usize, rest: Seq<usize>, b: u64, k: int) -> Set<nat> {
    set![d0 as nat].union(
        Set::new(|x: nat| exists|i: int| 0 <= i < k && bit64(b, i as nat) && rest[i] as nat == x),
    )
}

/// The mask for the number `b`.
pub open spec fn mask_of(d0: usize, rest: Seq<usize>, b: u64) -> Set<nat> {
    mask_upto(d0, rest, b, rest.len() as int)
}

/// The masks of size `c` among the numbers below `hi`, from the highest
/// number down.
pub open spec fn bucket(d0: usize, rest: Seq<usize>, c: nat, hi: nat) -> Seq<Set<nat>>
    decreases hi,
{
    if hi == 0 {
        Seq::empty()
    } else {
        let m = mask_of(d0, rest, (hi - 1) as u64);
        (if m.len() == c {
            seq![m]
        } else {
            Seq::empty()
        }) + bucket(d0, rest, c, (hi - 1) as nat)
    }
}

/// The masks of sizes `k - 1` down to `0`, size after size, among the
/// numbers below `hi`.
pub open spec fn masks_by_size(d0: usize, rest: Seq<usize>, k: nat, hi: nat) -> Seq<Set<nat>>
    decreases k,
{
    if k == 0 {
        Seq::empty()
    } else {
        bucket(d0, rest, (k - 1) as nat, hi) + masks_by_size(d0, rest, (k - 1) as nat, hi)
    }
}

/// The masks of the spatial dimensions `dims`: all numbers below
/// `2^n - 1` (every subset of the `n` outer dimensions but the full one),
/// largest mask first, and within one size from the highest number down.
pub open spec fn invariant_masks_spec(dims: Seq<usize>) -> Seq<Set<nat>> {
    let rest = dims.subrange(1, dims.len() as int);
    let n = rest.len();
    masks_by_size(dims[0], rest, n + 2, (vstd::arithmetic::power2::pow2(n) - 1) as nat)
}

proof fn lemma_pow2_bound(n: nat)
    requires
        n < 63,
    ensures
        vstd::arithmetic::power2::pow2(n) <= 0x4000_0000_0000_0000,
        vstd::arithmetic::power2::pow2(n) >= 1,
{
    vstd::arithmetic::power2::lemma_pow2_pos(n);
    if n < 62 {
        vstd::arithmetic::power2::lemma_pow2_strictly_increases(n, 62);
    }
    vstd::arithmetic::power2::lemma2_to64();
    vstd::arithmetic::power2::lemma2_to64_rest();
}

/// Builds the mask for the number `b`.
fn build_mask(d0: usize, rest: &[usize], b: u64) -> (r: IndexSet)
    requires
        rest@.len() < 64,
    ensures
        r@ == mask_of(d0, rest@, b),
        r@.finite(),
        r@.len() <= rest@.len() + 1,
        r.fits(),
{
    let mut msk = IndexSet::singleton(d0);
    assert(msk@ =~= mask_upto(d0, rest@, b, 0));
    let mut i: usize = 0;
    while i < rest.len()
        invariant
            rest@.len() < 64,
            0 <= i <= rest@.len(),
            msk@ == mask_upto(d0, rest@, b, i as int),
            msk@.finite(),
            msk@.len() <= i + 1,
            msk.fits(),
        decreases rest@.len() - i,
    {
        let bit = (b >> (i as u64)) & 1 == 1;
        assert(bit == bit64(b, i as nat));
        if bit {
            msk.insert(rest[i], true);
        }
        proof {
            assert(msk@ =~= mask_upto(d0, rest@, b, i + 1));
        }
        i = i + 1;
    }
    msk
}

/// The masks of multi-level evaluation over the spatial dimensions `dims`
/// (see the module's description), largest first.
pub fn invariant_masks(dims: &[usize]) -> (r: Vec<IndexSet>)
    requires
        1 <= dims@.len() <= 63,
    ensures
        r@.len() == invariant_masks_spec(dims@).len(),
        forall|i: int| 0 <= i < r@.len() ==> (#[trigger] r@[i])@ == invariant_masks_spec(dims@)[i],
{
    let d0 = dims[0];
    let rest = dims.split_at(1).1;
    let ghost rs = dims@.subrange(1, dims@.len() as int);
    assert(rest@ == rs);
    let n = rest.len();
    proof {
        lemma_pow2_bound(n as nat);
    }
    let mut p: u64 = 1;
    let mut k: usize = 0;
    proof {
        vstd::arithmetic::power2::lemma2_to64();
    }
    while k < n
        invariant
            n < 63,
            k <= n,
            p == vstd::arithmetic::power2::pow2(k as nat),
        decreases n - k,
    {
        proof {
            vstd::arithmetic::power2::lemma_pow2_unfold((k + 1) as nat);
            lemma_pow2_bound(k as nat);
        }
        p = p * 2;
        k = k + 1;
    }
    let total: u64 = p - 1;
    let mut out: Vec<IndexSet> = Vec::new();
    let ghost mut spec_out: Seq<Set<nat>> = Seq::empty();
    let mut c: usize = n + 2;
    while c > 0
        invariant
            rest@ == rs,
            n == rs.len(),
            n < 63,
            c <= n + 2,
            spec_out + masks_by_size(d0, rs, c as nat, total as nat) == invariant_masks_spec(dims@),
            out@.len() == spec_out.len(),
            forall|i: int| 0 <= i < out@.len() ==> (#[trigger] out@[i])@ == spec_out[i],
            d0 == dims@[0],
            rs == dims@.subrange(1, dims@.len() as int),
            total == vstd::arithmetic::power2::pow2(n as nat) - 1,
        decreases c,
    {
        c = c - 1;
        let ghost before = spec_out;
        let mut b: u64 = total;
        while b > 0
            invariant
                rest@ == rs,
                n == rs.len(),
                n < 63,
                c < n + 2,
                before + bucket(d0, rs, c as nat, total as nat) == spec_out + bucket(
                    d0,
                    rs,
                    c as nat,
                    b as nat,
                ),
                out@.len() == spec_out.len(),
                forall|i: int| 0 <= i < out@.len() ==> (#[trigger] out@[i])@ == spec_out[i],
                b <= total,
            decreases b,
        {
            b = b - 1;
            let msk = build_mask(d0, rest, b);
            let cnt = msk.count_ones();
            proof {
                let m = mask_of(d0, rs, b);
                assert(bucket(d0, rs, c as nat, (b + 1) as nat) == (if m.len() == c {
                    seq![m]
                } else {
                    Seq::empty()
                }) + bucket(d0, rs, c as nat, b as nat));
            }
            if cnt == c {
                out.push(msk);
                proof {
                    let m = mask_of(d0, rs, b);
                    assert(spec_out + (seq![m] + bucket(d0, rs, c as nat, b as nat)) == spec_out.push(
                        m,
                    ) + bucket(d0, rs, c as nat, b as nat));
                    spec_out = spec_out.push(m);
                }
            } else {
                proof {
                    assert(Seq::<Set<nat>>::empty() + bucket(d0, rs, c as nat, b as nat) == bucket(
                        d0,
                        rs,
                        c as nat,
                        b as nat,
                    ));
                }
            }
        }
        proof {
            assert(bucket(d0, rs, c as nat, 0) == Seq::<Set<nat>>::empty());
            assert(spec_out + Seq::<Set<nat>>::empty() == spec_out);
            assert(masks_by_size(d0, rs, (c + 1) as nat, total as nat) == bucket(
                d0,
                rs,
                c as nat,
                total as nat,
            ) + masks_by_size(d0, rs, c as nat, total as nat));
        }
    }
    proof {
        assert(masks_by_size(d0, rs, 0, total as nat) == Seq::<Set<nat>>::empty());
    }
    out
}

/// How many of the dimensions `dims`, from the first on, lie in `m`.
pub open spec fn level_of(dims: Seq<usize>, m: Set<nat>) -> nat
    decreases dims.len(),
{
    if dims.len() > 0 && m.contains(dims[0] as nat) {
        1 + level_of(dims.drop_first(), m)
    } else {
        0
    }
}

/// How many of the spatial dimensions, from the innermost on, lie in the
/// mask: the nesting level at which the mask's invariants are evaluated.
pub fn group_level(dims: &[usize], mask: &IndexSet) -> (r: usize)
    ensures
        r == level_of(dims@, mask@),
        r <= dims@.len(),
        forall|i: int| 0 <= i < r ==> mask@.contains(#[trigger] dims@[i] as nat),
        r < dims@.len() ==> !mask@.contains(dims@[r as int] as nat),
{
    let ghost d = dims@;
    let ghost m = mask@;
    let mut i: usize = 0;
    assert(d.subrange(0, d.len() as int) == d);
    while i < dims.len() && mask.contains(dims[i])
        invariant
            d == dims@,
            m == mask@,
            i <= dims@.len(),
            forall|j: int| 0 <= j < i ==> mask@.contains(#[trigger] dims@[j] as nat),
            level_of(d, m) == i + level_of(d.subrange(i as int, d.len() as int), m),
        decreases dims@.len() - i,
    {
        let ghost sub = d.subrange(i as int, d.len() as int);
        assert(sub[0] == d[i as int]);
        assert(sub.drop_first() == d.subrange(i + 1, d.len() as int));
        i = i + 1;
    }
    if i < dims.len() {
        assert(d.subrange(i as int, d.len() as int)[0] == d[i as int]);
    }
    i
}

/// The value of [`Node::cse_slots`]: the slots the tree needs, saturating
/// at `usize::MAX`.
pub open spec fn slot_count(n: Node) -> usize {
    if slots_needed(n) <= usize::MAX {
        slots_needed(n) as usize
    } else {
        usize::MAX
    }
}

/// `trees` and `slots` are the first `k` stages of hoisting over `masks` in
/// turn: tree `i + 1` is tree `i` with the invariants of mask `i` hoisted
/// from slot `i` (see [`hoist_tree`]), and slot `i + 1` is the next free one.
pub open spec fn hoist_run(masks: Seq<Set<nat>>, trees: Seq<Node>, slots: Seq<usize>, k: nat) -> bool {
    &&& k <= masks.len()
    &&& trees.len() == k + 1
    &&& slots.len() == k + 1
    &&& forall|i: int|
        0 <= i < k ==> hoist_tree(#[trigger] trees[i], trees[i + 1], masks[i], slots[i])
            && slots[i + 1] == hoist_slot(trees[i], masks[i], slots[i])
}

/// The groups of the first `k` stages: for each mask whose stage hoisted
/// something, its level over `dims` and the tree that fills its slots.
pub open spec fn hoist_groups(
    dims: Seq<usize>,
    masks: Seq<Set<nat>>,
    trees: Seq<Node>,
    slots: Seq<usize>,
    k: nat,
) -> Seq<(usize, Node)>
    decreases k,
{
    if k == 0 {
        Seq::empty()
    } else {
        let i = (k - 1) as int;
        let pieces = hoist_pieces(trees[i], masks[i], slots[i]);
        hoist_groups(dims, masks, trees, slots, (k - 1) as nat) + if pieces.len() > 0 {
            seq![(level_of(dims, masks[i]) as usize, chain_of(pieces))]
        } else {
            Seq::empty()
        }
    }
}

proof fn lemma_hoist_groups_prefix(
    dims: Seq<usize>,
    masks: Seq<Set<nat>>,
    t1: Seq<Node>,
    s1: Seq<usize>,
    t2: Seq<Node>,
    s2: Seq<usize>,
    k: nat,
)
    requires
        forall|i: int| 0 <= i < k ==> t1[i] == t2[i] && s1[i] == s2[i],
    ensures
        hoist_groups(dims, masks, t1, s1, k) == hoist_groups(dims, masks, t2, s2, k),
    decreases k,
{
    if k > 0 {
        lemma_hoist_groups_prefix(dims, masks, t1, s1, t2, s2, (k - 1) as nat);
        assert(t1[k - 1] == t2[k - 1] && s1[k - 1] == s2[k - 1]);
    }
}

impl Node {
    /// Hoists the invariants of every mask of [`invariant_masks`] in turn,
    /// from the first free slot on; for each mask that hoisted something,
    /// returns its level (see [`group_level`]) with the tree that fills its
    /// slots. Then folds the aliases left in the tree, and returns the slots
    /// it needs with the groups. Without spatial dimensions nothing is
    /// hoisted and the tree stays as it is.
    pub fn hoist_levels(&mut self, spatial_dims: &[usize]) -> (r: (Vec<(usize, Node)>, usize))
        requires
            spatial_dims@.len() <= 63,
        ensures
            spatial_dims@.len() == 0 ==> r.0@.len() == 0 && *final(self) == *old(self),
            spatial_dims@.len() > 0 ==> exists|trees: Seq<Node>, slots: Seq<usize>|
                {
                    &&& #[trigger] hoist_run(
                        invariant_masks_spec(spatial_dims@),
                        trees,
                        slots,
                        invariant_masks_spec(spatial_dims@).len(),
                    )
                    &&& trees[0] == *old(self)
                    &&& slots[0] == slot_count(*old(self))
                    &&& r.0@ == hoist_groups(
                        spatial_dims@,
                        invariant_masks_spec(spatial_dims@),
                        trees,
                        slots,
                        invariant_masks_spec(spatial_dims@).len(),
                    )
                    &&& *final(self) == folded(trees.last())
                },
            r.1 == slot_count(*final(self)),
    {
        if spatial_dims.len() == 0 {
            let c = self.cse_slots();
            return (Vec::new(), c);
        }
        let ghost dims = spatial_dims@;
        let ghost ms = invariant_masks_spec(dims);
        let ghost start = *self;
        let masks = invariant_masks(spatial_dims);
        let mut slot = self.cse_slots();
        let ghost mut trees: Seq<Node> = seq![*self];
        let ghost mut slots: Seq<usize> = seq![slot];
        let mut groups: Vec<(usize, Node)> = Vec::new();
        let mut i: usize = 0;
        while i < masks.len()
            invariant
                dims == spatial_dims@,
                ms == invariant_masks_spec(dims),
                masks@.len() == ms.len(),
                forall|k: int| 0 <= k < masks@.len() ==> (#[trigger] masks@[k])@ == ms[k],
                i <= masks@.len(),
                trees[0] == start,
                slots[0] == slot_count(start),
                hoist_run(ms, trees, slots, i as nat),
                trees.last() == *self,
                slots.last() == slot,
                groups@ == hoist_groups(dims, ms, trees, slots, i as nat),
            decreases masks@.len() - i,
        {
            let ghost before = *self;
            let ghost s_before = slot;
            let chain = self.collect_invariant_chain(&masks[i], &mut slot);
            let ghost t2 = trees.push(*self);
            let ghost s2 = slots.push(slot);
            proof {
                lemma_hoist_groups_prefix(dims, ms, trees, slots, t2, s2, i as nat);
                assert(t2[i as int] == before && s2[i as int] == s_before);
            }
            match chain {
                Some(c) => {
                    let level = group_level(spatial_dims, &masks[i]);
                    groups.push((level, c));
                },
                None => {},
            }
            proof {
                assert forall|k: int| 0 <= k < i + 1 implies hoist_tree(
                    #[trigger] t2[k],
                    t2[k + 1],
                    ms[k],
                    s2[k],
                ) && s2[k + 1] == hoist_slot(t2[k], ms[k], s2[k]) by {
                    if k < i {
                        assert(t2[k] == trees[k] && t2[k + 1] == trees[k + 1]);
                        assert(s2[k] == slots[k] && s2[k + 1] == slots[k + 1]);
                    }
                }
                trees = t2;
                slots = s2;
            }
            i = i + 1;
        }
        self.fold_cse_aliases();
        let c = self.cse_slots();
        proof {
            assert(hoist_run(ms, trees, slots, ms.len()));
            assert(*self == folded(trees.last()));
        }
        (groups, c)
    }
}

} // verus!
