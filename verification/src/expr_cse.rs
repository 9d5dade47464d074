//! Common-subexpression elimination on expression trees.
//!
//! A candidate is a sub-tree that is not a leaf nor a `Let`, and reads no
//! slot it does not bind itself. A pass lists the candidates in post-order
//! (children first), takes the first one equal to a later one, binds it to a
//! new slot around the whole tree and replaces every sub-tree equal to it by
//! a read of that slot. Equality compares constants as `f64` values: `0.0`
//! equals `-0.0`, and `NaN` equals nothing.
use vstd::prelude::*;
use crate::expr_tree::{deps, next_slot, size, Node};
use crate::index_set::IndexSet;

verus! {

/// The bits are a `NaN`.
pub open spec fn is_nan_bits(b: u64) -> bool {
    b & 0x7FF0_0000_0000_0000 == 0x7FF0_0000_0000_0000 && b & 0x000F_FFFF_FFFF_FFFF != 0
}

/// The bits are `0.0` or `-0.0`.
pub open spec fn is_zero_bits(b: u64) -> bool {
    b & 0x7FFF_FFFF_FFFF_FFFF == 0
}

/// `f64` equality of two constants given by their bits.
pub open spec fn float_eq(a: u64, b: u64) -> bool {
    !is_nan_bits(a) && !is_nan_bits(b) && (a == b || (is_zero_bits(a) && is_zero_bits(b)))
}

/// Number of children: 0 for leaves, 1 for `Neg`, `F1`, `ExtF1`, 2 otherwise.
pub open spec fn arity(n: Node) -> nat {
    match n {
        Node::Num(_) | Node::Var(_) | Node::CseRef(_, _) => 0,
        Node::Neg(_) | Node::F1(_, _) | Node::ExtF1(_, _) => 1,
        _ => 2,
    }
}

/// Child `i` of the tree.
pub open spec fn kid(n: Node, i: nat) -> Node {
    match n {
        Node::Neg(a) | Node::F1(_, a) | Node::ExtF1(_, a) => *a,
        Node::Add(a, b) | Node::Sub(a, b) | Node::Mul(a, b) | Node::Div(a, b) | Node::Pow(a, b)
        | Node::Mod(a, b) | Node::F2(_, a, b) | Node::ExtF2(_, a, b) | Node::Let(_, a, b) => if i
            == 0 {
            *a
        } else {
            *b
        },
        _ => n,
    }
}

/// The operator of an inner node and what it carries besides its children.
pub open spec fn label(n: Node) -> (nat, int) {
    match n {
        Node::Neg(_) => (1, 0),
        Node::Add(_, _) => (2, 0),
        Node::Sub(_, _) => (3, 0),
        Node::Mul(_, _) => (4, 0),
        Node::Div(_, _) => (5, 0),
        Node::Pow(_, _) => (6, 0),
        Node::Mod(_, _) => (7, 0),
        Node::F1(f, _) => (8, f as int),
        Node::F2(f, _, _) => (9, f as int),
        Node::ExtF1(f, _) => (10, f as int),
        Node::ExtF2(f, _, _) => (11, f as int),
        Node::Let(s, _, _) => (12, s as int),
        _ => (0, 0),
    }
}

/// The inner node with its children replaced by `x` (and `y`).
pub open spec fn with_kids(n: Node, x: Node, y: Node) -> Node {
    match n {
        Node::Neg(_) => Node::Neg(Box::new(x)),
        Node::F1(f, _) => Node::F1(f, Box::new(x)),
        Node::ExtF1(f, _) => Node::ExtF1(f, Box::new(x)),
        Node::Add(_, _) => Node::Add(Box::new(x), Box::new(y)),
        Node::Sub(_, _) => Node::Sub(Box::new(x), Box::new(y)),
        Node::Mul(_, _) => Node::Mul(Box::new(x), Box::new(y)),
        Node::Div(_, _) => Node::Div(Box::new(x), Box::new(y)),
        Node::Pow(_, _) => Node::Pow(Box::new(x), Box::new(y)),
        Node::Mod(_, _) => Node::Mod(Box::new(x), Box::new(y)),
        Node::F2(f, _, _) => Node::F2(f, Box::new(x), Box::new(y)),
        Node::ExtF2(f, _, _) => Node::ExtF2(f, Box::new(x), Box::new(y)),
        Node::Let(s, _, _) => Node::Let(s, Box::new(x), Box::new(y)),
        _ => n,
    }
}

/// The shape of a tree in terms of its children.
pub proof fn lemma_shape(n: Node)
    ensures
        arity(n) <= 2,
        size(n) >= 1,
        arity(n) == 0 ==> size(n) == 1,
        arity(n) == 1 ==> size(n) == 1 + size(kid(n, 0)),
        arity(n) == 2 ==> size(n) == 1 + size(kid(n, 0)) + size(kid(n, 1)),
        arity(n) >= 1 ==> size(kid(n, 0)) < size(n),
        arity(n) == 2 ==> size(kid(n, 1)) < size(n),
        arity(n) >= 1 ==> with_kids(n, kid(n, 0), kid(n, 1)) == n,
        forall|x: Node, y: Node|
            #![trigger with_kids(n, x, y)]
            arity(n) >= 1 ==> arity(with_kids(n, x, y)) == arity(n) && label(with_kids(n, x, y))
                == label(n) && kid(with_kids(n, x, y), 0) == x && (arity(n) == 2 ==> kid(
                with_kids(n, x, y),
                1,
            ) == y) && (n is Let <==> with_kids(n, x, y) is Let),
        arity(n) >= 1 ==> deps(n) == if arity(n) == 1 {
            deps(kid(n, 0))
        } else {
            deps(kid(n, 0)).union(deps(kid(n, 1)))
        },
        forall|x: Node, y: Node|
            #![trigger with_kids(n, x, y)]
            arity(n) >= 1 ==> deps(with_kids(n, x, y)) == if arity(n) == 1 {
                deps(x)
            } else {
                deps(x).union(deps(y))
            },
        forall|x: Node, y: Node|
            #![trigger with_kids(n, x, y)]
            arity(n) >= 1 ==> size(with_kids(n, x, y)) == 1 + size(x) + if arity(n) == 2 {
                size(y)
            } else {
                0
            },
{
    match n {
        Node::Num(_) | Node::Var(_) | Node::CseRef(_, _) => {},
        _ => {},
    }
}

/// The slots the tree reads without binding them.
pub open spec fn unbound(n: Node) -> Set<nat>
    decreases size(n),
{
    if arity(n) == 0 {
        match n {
            Node::CseRef(s, _) => set![s as nat],
            _ => Set::empty(),
        }
    } else {
        proof {
            lemma_shape(n);
        }
        let u0 = unbound(kid(n, 0));
        let u = if arity(n) == 2 {
            u0.union(unbound(kid(n, 1)))
        } else {
            u0
        };
        match n {
            Node::Let(s, _, _) => u.remove(s as nat),
            _ => u,
        }
    }
}

/// The tree can be bound to a slot of its own.
pub open spec fn is_cand(n: Node) -> bool {
    arity(n) > 0 && !(n is Let) && unbound(n) == Set::<nat>::empty()
}

/// The candidates of the tree, children before parents.
pub open spec fn cands(n: Node) -> Seq<Node>
    decreases size(n),
{
    if arity(n) == 0 {
        Seq::empty()
    } else {
        proof {
            lemma_shape(n);
        }
        let c = if arity(n) == 2 {
            cands(kid(n, 0)) + cands(kid(n, 1))
        } else {
            cands(kid(n, 0))
        };
        if is_cand(n) {
            c.push(n)
        } else {
            c
        }
    }
}

/// Equality of leaves: constants as `f64`, variables and slot reads exactly
/// (a read's dependencies by their slots).
pub open spec fn leaf_eq(a: Node, b: Node, exact: bool) -> bool {
    match a {
        Node::Num(x) => b matches Node::Num(y) && if exact {
            x == y
        } else {
            float_eq(x, y)
        },
        Node::Var(i) => b matches Node::Var(j) && i == j,
        Node::CseRef(s, d) => b matches Node::CseRef(t, e) && s == t && d@ == e@,
        _ => false,
    }
}

/// Structural equality, constants compared as `f64` values (`exact ==
/// false`) or by their bits (`exact == true`).
pub open spec fn tree_eq(a: Node, b: Node, exact: bool) -> bool
    decreases size(a),
{
    if arity(a) == 0 {
        leaf_eq(a, b, exact)
    } else {
        proof {
            lemma_shape(a);
        }
        &&& arity(b) == arity(a)
        &&& label(b) == label(a)
        &&& tree_eq(kid(a, 0), kid(b, 0), exact)
        &&& arity(a) == 2 ==> tree_eq(kid(a, 1), kid(b, 1), exact)
    }
}

/// Equality of trees as the engine compares them.
pub open spec fn node_eq(a: Node, b: Node) -> bool {
    tree_eq(a, b, false)
}

/// The same tree, up to how each read's dependencies are stored.
pub open spec fn same_tree(a: Node, b: Node) -> bool {
    tree_eq(a, b, true)
}

/// The first entry of `c`, from `i` on, equal to a later entry.
pub open spec fn first_from(c: Seq<Node>, i: nat) -> Option<Node>
    decreases c.len() - i,
{
    if i >= c.len() {
        None
    } else if exists|j: int| i < j < c.len() && node_eq(c[i as int], #[trigger] c[j]) {
        Some(c[i as int])
    } else {
        first_from(c, i + 1)
    }
}

/// The sub-tree a pass extracts: the first candidate, in post-order, equal
/// to a later candidate.
pub open spec fn first_repeat(n: Node) -> Option<Node> {
    first_from(cands(n), 0)
}

/// A dependency set stored for the pattern `p`.
pub open spec fn dep_value(p: Node) -> IndexSet {
    choose|d: IndexSet| d@ == deps(p)
}

/// The tree with every sub-tree equal to `p` (outermost first) replaced by
/// a read of `slot` recording `p`'s dependencies.
pub open spec fn replaced(n: Node, p: Node, slot: usize) -> Node
    decreases size(n),
{
    if node_eq(n, p) {
        Node::CseRef(slot, dep_value(p))
    } else if arity(n) == 0 {
        n
    } else {
        proof {
            lemma_shape(n);
        }
        with_kids(
            n,
            replaced(kid(n, 0), p, slot),
            if arity(n) == 2 {
                replaced(kid(n, 1), p, slot)
            } else {
                kid(n, 1)
            },
        )
    }
}

/// One pass extracting `p` into `slot`.
pub open spec fn pass_spec(n: Node, slot: usize, p: Node) -> Node {
    Node::Let(slot, Box::new(p), Box::new(replaced(n, p, slot)))
}

/// Number of sub-trees equal to `p` that a replacement meets.
pub open spec fn occ(n: Node, p: Node) -> nat
    decreases size(n),
{
    if node_eq(n, p) {
        1
    } else if arity(n) == 0 {
        0
    } else {
        proof {
            lemma_shape(n);
        }
        occ(kid(n, 0), p) + if arity(n) == 2 {
            occ(kid(n, 1), p)
        } else {
            0
        }
    }
}

/// Number of entries of `s` equal to `p`.
pub open spec fn count_eq(s: Seq<Node>, p: Node) -> nat
    decreases s.len(),
{
    if s.len() == 0 {
        0
    } else {
        count_eq(s.drop_last(), p) + if node_eq(s.last(), p) {
            1nat
        } else {
            0nat
        }
    }
}

/// Trees equal under `tree_eq` agree on everything the passes look at.
pub proof fn lemma_tree_eq(a: Node, b: Node, exact: bool)
    requires
        tree_eq(a, b, exact),
    ensures
        tree_eq(b, a, exact),
        tree_eq(a, a, exact),
        arity(a) == arity(b),
        (a is Let) == (b is Let),
        size(a) == size(b),
        deps(a) == deps(b),
        unbound(a) == unbound(b),
        is_cand(a) == is_cand(b),
        cands(a).len() == cands(b).len(),
    decreases size(a),
{
    lemma_shape(a);
    lemma_shape(b);
    if arity(a) == 0 {
        match a {
            Node::CseRef(s, d) => {
                assert(unbound(a) == set![s as nat]);
            },
            _ => {},
        }
    } else {
        lemma_tree_eq(kid(a, 0), kid(b, 0), exact);
        if arity(a) == 2 {
            lemma_tree_eq(kid(a, 1), kid(b, 1), exact);
        }
        assert(unbound(a) == unbound(b));
    }
}

/// Every tree is the same tree as itself.
pub proof fn lemma_same_tree_refl(a: Node)
    ensures
        same_tree(a, a),
    decreases size(a),
{
    lemma_shape(a);
    if arity(a) > 0 {
        lemma_same_tree_refl(kid(a, 0));
        lemma_same_tree_refl(kid(a, 1));
    }
}

/// Comparing with one of two same trees gives the same answer.
pub proof fn lemma_node_eq_congruent(x: Node, a: Node, b: Node)
    requires
        same_tree(a, b),
    ensures
        node_eq(x, a) == node_eq(x, b),
    decreases size(x),
{
    lemma_shape(x);
    lemma_shape(a);
    lemma_tree_eq(a, b, true);
    if arity(x) > 0 && arity(x) == arity(a) {
        lemma_node_eq_congruent(kid(x, 0), kid(a, 0), kid(b, 0));
        if arity(x) == 2 {
            lemma_node_eq_congruent(kid(x, 1), kid(a, 1), kid(b, 1));
        }
    }
}

/// The candidates of a tree are no larger than the tree.
pub proof fn lemma_cands_size(t: Node)
    ensures
        forall|i: int|
            0 <= i < cands(t).len() ==> size(#[trigger] cands(t)[i]) <= size(t) && is_cand(
                cands(t)[i],
            ),
        is_cand(t) ==> cands(t).len() >= 1,
    decreases size(t),
{
    lemma_shape(t);
    if arity(t) > 0 {
        let k0 = kid(t, 0);
        let k1 = kid(t, 1);
        lemma_cands_size(k0);
        let c = if arity(t) == 2 {
            lemma_cands_size(k1);
            cands(k0) + cands(k1)
        } else {
            cands(k0)
        };
        assert forall|i: int| 0 <= i < c.len() implies size(#[trigger] c[i]) < size(t) && is_cand(
            c[i],
        ) by {
            if arity(t) == 2 && i >= cands(k0).len() {
                assert(c[i] == cands(k1)[i - cands(k0).len()]);
            }
        }
        if is_cand(t) {
            assert(cands(t) == c.push(t));
            assert forall|i: int| 0 <= i < cands(t).len() implies size(#[trigger] cands(t)[i])
                <= size(t) && is_cand(cands(t)[i]) by {
                if i < c.len() {
                    assert(cands(t)[i] == c[i]);
                }
            }
        } else {
            assert(cands(t) == c);
        }
    }
}

/// Counting over two sequences one after the other.
pub proof fn lemma_count_concat(a: Seq<Node>, b: Seq<Node>, p: Node)
    ensures
        count_eq(a + b, p) == count_eq(a, p) + count_eq(b, p),
    decreases b.len(),
{
    if b.len() == 0 {
        assert(a + b == a);
    } else {
        assert((a + b).drop_last() == a + b.drop_last());
        assert((a + b).last() == b.last());
        lemma_count_concat(a, b.drop_last(), p);
    }
}

/// No entry smaller than `p` is equal to it.
pub proof fn lemma_count_smaller(s: Seq<Node>, p: Node)
    requires
        forall|i: int| 0 <= i < s.len() ==> size(#[trigger] s[i]) < size(p),
    ensures
        count_eq(s, p) == 0,
    decreases s.len(),
{
    if s.len() > 0 {
        assert(s.drop_last().len() == s.len() - 1);
        assert forall|i: int| 0 <= i < s.drop_last().len() implies size(
            #[trigger] s.drop_last()[i],
        ) < size(p) by {
            assert(s.drop_last()[i] == s[i]);
        }
        lemma_count_smaller(s.drop_last(), p);
        if node_eq(s.last(), p) {
            lemma_tree_eq(s.last(), p, false);
        }
    }
}

/// Two entries equal to `p` count twice.
pub proof fn lemma_count_two(s: Seq<Node>, p: Node, i: int, j: int)
    requires
        0 <= i < j < s.len(),
        node_eq(s[i], p),
        node_eq(s[j], p),
    ensures
        count_eq(s, p) >= 2,
    decreases s.len(),
{
    let d = s.drop_last();
    if j < s.len() - 1 {
        assert(d[i] == s[i] && d[j] == s[j]);
        lemma_count_two(d, p, i, j);
    } else {
        assert(d[i] == s[i]);
        lemma_count_one(d, p, i);
    }
}

/// An entry equal to `p` counts.
pub proof fn lemma_count_one(s: Seq<Node>, p: Node, i: int)
    requires
        0 <= i < s.len(),
        node_eq(s[i], p),
    ensures
        count_eq(s, p) >= 1,
    decreases s.len(),
{
    let d = s.drop_last();
    if i < s.len() - 1 {
        assert(d[i] == s[i]);
        lemma_count_one(d, p, i);
    }
}

/// What the search for a repeat finds is an entry equal to a later one.
pub proof fn lemma_first_from(c: Seq<Node>, i: nat)
    requires
        first_from(c, i) is Some,
    ensures
        exists|k: int, j: int|
            i <= k < j < c.len() && c[k] == first_from(c, i)->0 && #[trigger] node_eq(c[k], c[j]),
    decreases c.len() - i,
{
    if i < c.len() {
        if exists|j: int| i < j < c.len() && node_eq(c[i as int], #[trigger] c[j]) {
            let j = choose|j: int| i < j < c.len() && node_eq(c[i as int], #[trigger] c[j]);
            assert(i <= i < j < c.len() && c[i as int] == first_from(c, i)->0 && node_eq(
                c[i as int],
                c[j],
            ));
        } else {
            lemma_first_from(c, i + 1);
        }
    }
}

/// What replacing the candidate `p` by a read of `slot` does to a tree: it
/// reads no fewer slots, loses the candidates of every replaced sub-tree,
/// keeps its dependencies, and replaces at least as many sub-trees as its
/// candidates equal to `p`.
pub proof fn lemma_replaced(t: Node, p: Node, slot: usize)
    requires
        is_cand(p),
    ensures
        unbound(t).subset_of(unbound(replaced(t, p, slot))),
        cands(replaced(t, p, slot)).len() + occ(t, p) * cands(p).len() <= cands(t).len(),
        count_eq(cands(t), p) <= occ(t, p),
        (exists|d: IndexSet| d@ == deps(p)) ==> deps(replaced(t, p, slot)) == deps(t),
        occ(t, p) >= 1 ==> deps(p).subset_of(deps(t)),
    decreases size(t),
{
    lemma_shape(t);
    let r = replaced(t, p, slot);
    if node_eq(t, p) {
        lemma_tree_eq(t, p, false);
        lemma_cands_size(t);
        if exists|d: IndexSet| d@ == deps(p) {
            assert(dep_value(p)@ == deps(p));
        }
        let k0 = kid(t, 0);
        let k1 = kid(t, 1);
        lemma_cands_size(k0);
        let c = if arity(t) == 2 {
            lemma_cands_size(k1);
            cands(k0) + cands(k1)
        } else {
            cands(k0)
        };
        assert forall|i: int| 0 <= i < c.len() implies size(#[trigger] c[i]) < size(p) by {
            if arity(t) == 2 && i >= cands(k0).len() {
                assert(c[i] == cands(k1)[i - cands(k0).len()]);
            }
        }
        lemma_count_smaller(c, p);
        assert(cands(t) == c.push(t));
        assert(cands(t).drop_last() == c);
        assert(r == Node::CseRef(slot, dep_value(p)));
        assert(cands(r).len() == 0);
        assert(occ(t, p) == 1);
        assert(cands(t).len() == cands(p).len());
        assert(occ(t, p) * cands(p).len() == cands(p).len());
    } else if arity(t) == 0 {
        assert(cands(r).len() == 0);
        assert(occ(t, p) == 0);
    } else {
        let k0 = kid(t, 0);
        let k1 = kid(t, 1);
        lemma_replaced(k0, p, slot);
        let r0 = replaced(k0, p, slot);
        let r1 = if arity(t) == 2 {
            replaced(k1, p, slot)
        } else {
            k1
        };
        assert(r == with_kids(t, r0, r1));
        let lp = cands(p).len();
        if arity(t) == 2 {
            lemma_replaced(k1, p, slot);
            let o0 = occ(k0, p);
            let o1 = occ(k1, p);
            assert((o0 + o1) * lp == o0 * lp + o1 * lp) by (nonlinear_arith);
            lemma_count_concat(cands(k0), cands(k1), p);
            assert(unbound(t) == unbound(k0).union(unbound(k1)) || unbound(t) == unbound(
                k0,
            ).union(unbound(k1)).remove(label(t).1 as nat));
        }
        assert(unbound(t).subset_of(unbound(r)));
        let c = if arity(t) == 2 {
            cands(k0) + cands(k1)
        } else {
            cands(k0)
        };
        let cr = if arity(t) == 2 {
            cands(r0) + cands(r1)
        } else {
            cands(r0)
        };
        assert(arity(r) == arity(t) && kid(r, 0) == r0);
        assert(arity(t) == 2 ==> kid(r, 1) == r1);
        if is_cand(r) {
            assert(unbound(t) =~= Set::<nat>::empty());
        }
        assert(is_cand(r) ==> is_cand(t));
        assert(cands(r).len() <= cr.len() + if is_cand(r) {
            1int
        } else {
            0int
        });
        assert(occ(t, p) == occ(k0, p) + if arity(t) == 2 {
            occ(k1, p)
        } else {
            0
        });
        if is_cand(t) {
            assert(cands(t) == c.push(t));
            assert(cands(t).drop_last() == c);
        }
        if arity(t) == 2 {
            assert(occ(t, p) * lp == occ(k0, p) * lp + occ(k1, p) * lp);
            assert(cr.len() == cands(r0).len() + cands(r1).len());
            assert(c.len() == cands(k0).len() + cands(k1).len());
        } else {
            assert(occ(t, p) * lp == occ(k0, p) * lp);
            assert(cr.len() == cands(r0).len());
        }
        assert(cands(r).len() + occ(t, p) * lp <= cands(t).len());
    }
}

/// A pass extracts a repeated candidate: the tree keeps its dependencies
/// and has fewer candidates after it.
pub proof fn lemma_pass(n: Node, slot: usize)
    requires
        first_repeat(n) is Some,
    ensures
        cands(pass_spec(n, slot, first_repeat(n)->0)).len() < cands(n).len(),
        (exists|d: IndexSet| d@ == deps(first_repeat(n)->0)) ==> deps(
            pass_spec(n, slot, first_repeat(n)->0),
        ) == deps(n),
{
    let p = first_repeat(n)->0;
    let c = cands(n);
    lemma_first_from(c, 0);
    let (k, j) = choose|k: int, j: int|
        0 <= k < j < c.len() && c[k] == p && #[trigger] node_eq(c[k], c[j]);
    lemma_cands_size(n);
    assert(is_cand(c[k]));
    lemma_tree_eq(c[k], c[j], false);
    lemma_count_two(c, p, k, j);
    lemma_replaced(n, p, slot);
    lemma_cands_size(p);
    let r = replaced(n, p, slot);
    let lp = cands(p).len();
    let o = occ(n, p);
    assert(o * lp >= 2 * lp) by (nonlinear_arith)
        requires
            o >= 2,
    ;
    let q = pass_spec(n, slot, p);
    lemma_shape(q);
    assert(cands(q) == cands(p) + cands(r));
    if exists|d: IndexSet| d@ == deps(p) {
        assert(deps(q) =~= deps(n));
    }
}

/// `f64` equality of two constants given by their bits.
fn float_eq_bits(a: u64, b: u64) -> (r: bool)
    ensures
        r == float_eq(a, b),
{
    let a_nan = a & 0x7FF0_0000_0000_0000 == 0x7FF0_0000_0000_0000 && a & 0x000F_FFFF_FFFF_FFFF
        != 0;
    let b_nan = b & 0x7FF0_0000_0000_0000 == 0x7FF0_0000_0000_0000 && b & 0x000F_FFFF_FFFF_FFFF
        != 0;
    let zeros = a & 0x7FFF_FFFF_FFFF_FFFF == 0 && b & 0x7FFF_FFFF_FFFF_FFFF == 0;
    !a_nan && !b_nan && (a == b || zeros)
}

/// Compares two trees (see [`tree_eq`]).
fn tree_eq_exec(a: &Node, b: &Node, exact: bool) -> (r: bool)
    ensures
        r == tree_eq(*a, *b, exact),
    decreases a,
{
    match (a, b) {
        (Node::Num(x), Node::Num(y)) => if exact {
            *x == *y
        } else {
            float_eq_bits(*x, *y)
        },
        (Node::Var(i), Node::Var(j)) => *i == *j,
        (Node::CseRef(s, d), Node::CseRef(t, e)) => *s == *t && d.eq(e),
        (Node::Neg(x), Node::Neg(y)) => tree_eq_exec(x, y, exact),
        (Node::F1(f, x), Node::F1(g, y)) | (Node::ExtF1(f, x), Node::ExtF1(g, y)) => *f == *g
            && tree_eq_exec(x, y, exact),
        (Node::Add(x0, x1), Node::Add(y0, y1))
        | (Node::Sub(x0, x1), Node::Sub(y0, y1))
        | (Node::Mul(x0, x1), Node::Mul(y0, y1))
        | (Node::Div(x0, x1), Node::Div(y0, y1))
        | (Node::Pow(x0, x1), Node::Pow(y0, y1))
        | (Node::Mod(x0, x1), Node::Mod(y0, y1)) => tree_eq_exec(x0, y0, exact) && tree_eq_exec(
            x1,
            y1,
            exact,
        ),
        (Node::F2(f, x0, x1), Node::F2(g, y0, y1))
        | (Node::ExtF2(f, x0, x1), Node::ExtF2(g, y0, y1)) => *f == *g && tree_eq_exec(
            x0,
            y0,
            exact,
        ) && tree_eq_exec(x1, y1, exact),
        (Node::Let(s, x0, x1), Node::Let(t, y0, y1)) => *s == *t && tree_eq_exec(x0, y0, exact)
            && tree_eq_exec(x1, y1, exact),
        _ => false,
    }
}

/// A copy of the tree.
fn clone_node(n: &Node) -> (r: Node)
    ensures
        same_tree(r, *n),
    decreases n,
{
    match n {
        Node::Num(x) => Node::Num(*x),
        Node::Var(i) => Node::Var(*i),
        Node::CseRef(s, d) => Node::CseRef(*s, d.clone()),
        Node::Neg(a) => Node::Neg(Box::new(clone_node(a))),
        Node::F1(f, a) => Node::F1(*f, Box::new(clone_node(a))),
        Node::ExtF1(f, a) => Node::ExtF1(*f, Box::new(clone_node(a))),
        Node::Add(a, b) => Node::Add(Box::new(clone_node(a)), Box::new(clone_node(b))),
        Node::Sub(a, b) => Node::Sub(Box::new(clone_node(a)), Box::new(clone_node(b))),
        Node::Mul(a, b) => Node::Mul(Box::new(clone_node(a)), Box::new(clone_node(b))),
        Node::Div(a, b) => Node::Div(Box::new(clone_node(a)), Box::new(clone_node(b))),
        Node::Pow(a, b) => Node::Pow(Box::new(clone_node(a)), Box::new(clone_node(b))),
        Node::Mod(a, b) => Node::Mod(Box::new(clone_node(a)), Box::new(clone_node(b))),
        Node::F2(f, a, b) => Node::F2(*f, Box::new(clone_node(a)), Box::new(clone_node(b))),
        Node::ExtF2(f, a, b) => Node::ExtF2(*f, Box::new(clone_node(a)), Box::new(clone_node(b))),
        Node::Let(s, a, b) => Node::Let(*s, Box::new(clone_node(a)), Box::new(clone_node(b))),
    }
}

/// The trees a list of references points to.
pub open spec fn derefs(s: Seq<&Node>) -> Seq<Node> {
    s.map_values(|x: &Node| *x)
}

/// Appends the candidates of `n` to `out`, children first, and returns the
/// slots `n` reads without binding them.
fn collect_cands<'a>(n: &'a Node, out: &mut Vec<&'a Node>) -> (r: IndexSet)
    ensures
        r@ == unbound(*n),
        r.fits(),
        derefs(final(out)@) == derefs(old(out)@) + cands(*n),
    decreases n,
{
    proof {
        lemma_shape(*n);
    }
    let ghost start = derefs(out@);
    match n {
        Node::CseRef(slot, _) => {
            assert(derefs(out@) == start + cands(*n));
            IndexSet::singleton(*slot)
        },
        Node::Num(_) | Node::Var(_) => {
            assert(derefs(out@) == start + cands(*n));
            IndexSet::default()
        },
        Node::Let(slot, e, b) => {
            let sa = collect_cands(e, out);
            let sb = collect_cands(b, out);
            let mut s = sa | sb;
            s.insert(*slot, false);
            assert(derefs(out@) == start + cands(*n));
            s
        },
        Node::Neg(a) | Node::F1(_, a) | Node::ExtF1(_, a) => {
            let s = collect_cands(a, out);
            let ghost mid = derefs(out@);
            if s.is_empty() {
                out.push(n);
                assert(derefs(out@) == mid.push(*n));
            }
            assert(derefs(out@) == start + cands(*n));
            s
        },
        Node::Add(a, b)
        | Node::Sub(a, b)
        | Node::Mul(a, b)
        | Node::Div(a, b)
        | Node::Pow(a, b)
        | Node::Mod(a, b)
        | Node::F2(_, a, b)
        | Node::ExtF2(_, a, b) => {
            let sa = collect_cands(a, out);
            let sb = collect_cands(b, out);
            let s = sa | sb;
            let ghost mid = derefs(out@);
            if s.is_empty() {
                out.push(n);
                assert(derefs(out@) == mid.push(*n));
            }
            assert(derefs(out@) == start + cands(*n));
            s
        },
    }
}

/// The index of the first entry equal to a later one.
fn find_repeat(nodes: &Vec<&Node>) -> (r: Option<usize>)
    ensures
        match r {
            Some(i) => i < nodes@.len() && first_from(derefs(nodes@), 0) == Some(*nodes@[i as int]),
            None => first_from(derefs(nodes@), 0) is None,
        },
{
    let ghost c = derefs(nodes@);
    let mut i: usize = 0;
    while i < nodes.len()
        invariant
            i <= nodes@.len(),
            c == derefs(nodes@),
            first_from(c, 0) == first_from(c, i as nat),
        decreases nodes@.len() - i,
    {
        let mut j: usize = i + 1;
        while j < nodes.len()
            invariant
                i < nodes@.len(),
                i < j <= nodes@.len(),
                c == derefs(nodes@),
                first_from(c, 0) == first_from(c, i as nat),
                forall|k: int| i < k < j ==> !node_eq(c[i as int], #[trigger] c[k]),
            decreases nodes@.len() - j,
        {
            if tree_eq_exec(nodes[i], nodes[j], false) {
                assert(node_eq(c[i as int], c[j as int]));
                assert(c[i as int] == *nodes@[i as int]);
                assert(first_from(c, i as nat) == Some(c[i as int]));
                return Some(i);
            }
            j = j + 1;
        }
        i = i + 1;
    }
    None
}

/// Replaces, outermost first, every sub-tree equal to `p` (the same tree
/// as `pat`) by a read of `slot` recording `d`.
fn replace_owned(n: Node, p: &Node, slot: usize, d: &IndexSet, Ghost(pat): Ghost<Node>) -> (r: Node)
    requires
        same_tree(*p, pat),
        d@ == deps(pat),
    ensures
        same_tree(r, replaced(n, pat, slot)),
    decreases n,
{
    proof {
        lemma_node_eq_congruent(n, *p, pat);
        lemma_shape(n);
    }
    if tree_eq_exec(&n, p, false) {
        proof {
            assert(dep_value(pat)@ == deps(pat));
        }
        return Node::CseRef(slot, d.clone());
    }
    proof {
        lemma_same_tree_refl(n);
    }
    match n {
        Node::Num(x) => Node::Num(x),
        Node::Var(i) => Node::Var(i),
        Node::CseRef(s, e) => Node::CseRef(s, e),
        Node::Neg(a) => Node::Neg(Box::new(replace_owned(*a, p, slot, d, Ghost(pat)))),
        Node::F1(f, a) => Node::F1(f, Box::new(replace_owned(*a, p, slot, d, Ghost(pat)))),
        Node::ExtF1(f, a) => Node::ExtF1(f, Box::new(replace_owned(*a, p, slot, d, Ghost(pat)))),
        Node::Add(a, b) => {
            let x = replace_owned(*a, p, slot, d, Ghost(pat));
            let y = replace_owned(*b, p, slot, d, Ghost(pat));
            Node::Add(Box::new(x), Box::new(y))
        },
        Node::Sub(a, b) => {
            let x = replace_owned(*a, p, slot, d, Ghost(pat));
            let y = replace_owned(*b, p, slot, d, Ghost(pat));
            Node::Sub(Box::new(x), Box::new(y))
        },
        Node::Mul(a, b) => {
            let x = replace_owned(*a, p, slot, d, Ghost(pat));
            let y = replace_owned(*b, p, slot, d, Ghost(pat));
            Node::Mul(Box::new(x), Box::new(y))
        },
        Node::Div(a, b) => {
            let x = replace_owned(*a, p, slot, d, Ghost(pat));
            let y = replace_owned(*b, p, slot, d, Ghost(pat));
            Node::Div(Box::new(x), Box::new(y))
        },
        Node::Pow(a, b) => {
            let x = replace_owned(*a, p, slot, d, Ghost(pat));
            let y = replace_owned(*b, p, slot, d, Ghost(pat));
            Node::Pow(Box::new(x), Box::new(y))
        },
        Node::Mod(a, b) => {
            let x = replace_owned(*a, p, slot, d, Ghost(pat));
            let y = replace_owned(*b, p, slot, d, Ghost(pat));
            Node::Mod(Box::new(x), Box::new(y))
        },
        Node::F2(f, a, b) => {
            let x = replace_owned(*a, p, slot, d, Ghost(pat));
            let y = replace_owned(*b, p, slot, d, Ghost(pat));
            Node::F2(f, Box::new(x), Box::new(y))
        },
        Node::ExtF2(f, a, b) => {
            let x = replace_owned(*a, p, slot, d, Ghost(pat));
            let y = replace_owned(*b, p, slot, d, Ghost(pat));
            Node::ExtF2(f, Box::new(x), Box::new(y))
        },
        Node::Let(s, a, b) => {
            let x = replace_owned(*a, p, slot, d, Ghost(pat));
            let y = replace_owned(*b, p, slot, d, Ghost(pat));
            Node::Let(s, Box::new(x), Box::new(y))
        },
    }
}

/// The tree that elimination from slot `slot` ends with: passes into
/// `slot`, the next slot and so on (wrapping after `usize::MAX`), until no
/// candidate repeats.
pub open spec fn cse_spec(n: Node, slot: usize) -> Node
    decreases cands(n).len(),
{
    if first_repeat(n) is Some {
        proof {
            lemma_pass(n, slot);
        }
        cse_spec(pass_spec(n, slot, first_repeat(n)->0), next_slot(slot))
    } else {
        n
    }
}

impl Node {
    /// Extracts one repeated sub-tree into `slot`: the first candidate (see
    /// [`cands`]) equal to a later one is bound by a `Let` around the whole
    /// tree, and every sub-tree equal to it is replaced by a read of `slot`.
    /// Returns `false`, leaving the tree as it is, when no candidate repeats.
    pub fn cse_one_pass(&mut self, slot: usize) -> (r: bool)
        ensures
            r == (first_repeat(*old(self)) is Some),
            r ==> same_tree(
                *final(self),
                pass_spec(*old(self), slot, first_repeat(*old(self))->0),
            ),
            r ==> deps(*final(self)) == deps(*old(self)),
            r ==> cands(*final(self)).len() < cands(*old(self)).len(),
            !r ==> *final(self) == *old(self),
    {
        let ghost n0 = *self;
        let found = {
            let mut nodes: Vec<&Node> = Vec::new();
            let _ = collect_cands(&*self, &mut nodes);
            assert(derefs(nodes@) == cands(n0));
            match find_repeat(&nodes) {
                Some(i) => Some(clone_node(nodes[i])),
                None => None,
            }
        };
        match found {
            Some(pattern) => {
                let ghost p = first_repeat(n0)->0;
                let d = pattern.depends_on();
                proof {
                    lemma_tree_eq(pattern, p, true);
                    assert(exists|x: IndexSet| x@ == deps(p));
                    lemma_pass(n0, slot);
                }
                let mut n = Node::Num(0);
                std::mem::swap(&mut n, self);
                let body = replace_owned(n, &pattern, slot, &d, Ghost(p));
                *self = Node::Let(slot, Box::new(pattern), Box::new(body));
                proof {
                    let q = pass_spec(n0, slot, p);
                    lemma_tree_eq(*self, q, true);
                }
                true
            },
            None => false,
        }
    }

    /// Extracts repeated sub-trees, one pass at a time into slots `0, 1,
    /// ...`, until no candidate repeats (see [`Node::cse_one_pass`]).
    pub fn cse(&mut self)
        ensures
            same_tree(*final(self), cse_spec(*old(self), 0)),
            first_repeat(*final(self)) is None,
            deps(*final(self)) == deps(*old(self)),
    {
        let ghost start = *self;
        let ghost mut t: Node = *self;
        let mut slot: usize = 0;
        proof {
            lemma_same_tree_refl(t);
        }
        loop
            invariant
                same_tree(*self, t),
                cse_spec(start, 0) == cse_spec(t, slot),
                deps(*self) == deps(start),
            ensures
                first_repeat(*self) is None,
                same_tree(*self, cse_spec(start, 0)),
            decreases cands(*self).len(),
        {
            let ghost before = *self;
            let go = self.cse_one_pass(slot);
            proof {
                lemma_cands_same(before, t);
                lemma_first_from_same(cands(before), cands(t), 0);
            }
            if !go {
                break;
            }
            proof {
                let p1 = first_repeat(before)->0;
                let p2 = first_repeat(t)->0;
                lemma_replaced_same(before, t, p1, p2, slot);
                lemma_tree_eq(p1, p2, true);
                let q1 = pass_spec(before, slot, p1);
                let q2 = pass_spec(t, slot, p2);
                lemma_shape(q1);
                lemma_shape(q2);
                assert(same_tree(q1, q2));
                lemma_same_tree_trans(*self, q1, q2);
                t = q2;
            }
            slot = slot.wrapping_add(1);
        }
    }
}

/// Elimination ends with a tree in which no candidate repeats, so
/// eliminating again changes nothing.
pub proof fn lemma_cse_spec_done(n: Node, slot: usize, again: usize)
    ensures
        first_repeat(cse_spec(n, slot)) is None,
        cse_spec(cse_spec(n, slot), again) == cse_spec(n, slot),
    decreases cands(n).len(),
{
    if first_repeat(n) is Some {
        lemma_pass(n, slot);
        lemma_cse_spec_done(pass_spec(n, slot, first_repeat(n)->0), next_slot(slot), again);
    }
}

impl Node {
    /// Whether two trees are equal as the elimination compares them (see
    /// [`node_eq`]): constants as `f64` values, so `0.0` equals `-0.0` and
    /// a tree holding `NaN` equals nothing.
    pub fn node_eq(&self, other: &Node) -> (r: bool)
        ensures
            r == node_eq(*self, *other),
    {
        tree_eq_exec(self, other, false)
    }
}

/// Being the same tree is transitive.
pub proof fn lemma_same_tree_trans(a: Node, b: Node, c: Node)
    requires
        same_tree(a, b),
        same_tree(b, c),
    ensures
        same_tree(a, c),
    decreases size(a),
{
    lemma_shape(a);
    lemma_tree_eq(a, b, true);
    if arity(a) > 0 {
        lemma_same_tree_trans(kid(a, 0), kid(b, 0), kid(c, 0));
        if arity(a) == 2 {
            lemma_same_tree_trans(kid(a, 1), kid(b, 1), kid(c, 1));
        }
    }
}

/// Same trees list the same candidates, entry by entry.
pub proof fn lemma_cands_same(a: Node, b: Node)
    requires
        same_tree(a, b),
    ensures
        cands(a).len() == cands(b).len(),
        forall|i: int| 0 <= i < cands(a).len() ==> same_tree(#[trigger] cands(a)[i], cands(b)[i]),
    decreases size(a),
{
    lemma_shape(a);
    lemma_shape(b);
    lemma_tree_eq(a, b, true);
    if arity(a) > 0 {
        let (a0, a1, b0, b1) = (kid(a, 0), kid(a, 1), kid(b, 0), kid(b, 1));
        lemma_cands_same(a0, b0);
        let ca = if arity(a) == 2 {
            cands(a0) + cands(a1)
        } else {
            cands(a0)
        };
        let cb = if arity(a) == 2 {
            cands(b0) + cands(b1)
        } else {
            cands(b0)
        };
        if arity(a) == 2 {
            lemma_cands_same(a1, b1);
        }
        assert forall|i: int| 0 <= i < ca.len() implies same_tree(#[trigger] ca[i], cb[i]) by {
            if arity(a) == 2 && i >= cands(a0).len() {
                assert(ca[i] == cands(a1)[i - cands(a0).len()]);
                assert(cb[i] == cands(b1)[i - cands(b0).len()]);
            } else {
                assert(ca[i] == cands(a0)[i]);
                assert(cb[i] == cands(b0)[i]);
            }
        }
        if is_cand(a) {
            assert(cands(a) == ca.push(a));
            assert(cands(b) == cb.push(b));
            assert forall|i: int| 0 <= i < cands(a).len() implies same_tree(
                #[trigger] cands(a)[i],
                cands(b)[i],
            ) by {
                if i < ca.len() {
                    assert(cands(a)[i] == ca[i] && cands(b)[i] == cb[i]);
                }
            }
        } else {
            assert(cands(a) == ca);
            assert(cands(b) == cb);
        }
    }
}

/// Equality as the passes compare is the same between same trees.
pub proof fn lemma_node_eq_same(a1: Node, b1: Node, a2: Node, b2: Node)
    requires
        same_tree(a1, a2),
        same_tree(b1, b2),
    ensures
        node_eq(a1, b1) == node_eq(a2, b2),
{
    lemma_node_eq_congruent(a1, b1, b2);
    lemma_node_eq_congruent(b2, a1, a2);
    lemma_node_eq_congruent(a2, b1, b2);
    if node_eq(a1, b1) {
        lemma_tree_eq(a1, b2, false);
        lemma_tree_eq(b2, a2, false);
    }
    if node_eq(a2, b2) {
        lemma_tree_eq(a2, b2, false);
        lemma_tree_eq(a1, a2, true);
        lemma_node_eq_congruent(b2, a2, a1);
        lemma_tree_eq(b2, a1, false);
    }
}

/// The search for a repeat finds the same entry in entry-by-entry same lists.
pub proof fn lemma_first_from_same(c1: Seq<Node>, c2: Seq<Node>, k: nat)
    requires
        c1.len() == c2.len(),
        forall|i: int| 0 <= i < c1.len() ==> same_tree(#[trigger] c1[i], c2[i]),
    ensures
        (first_from(c1, k) is Some) == (first_from(c2, k) is Some),
        first_from(c1, k) is Some ==> same_tree(first_from(c1, k)->0, first_from(c2, k)->0),
    decreases c1.len() - k,
{
    if k < c1.len() {
        let e1 = exists|j: int| k < j < c1.len() && node_eq(c1[k as int], #[trigger] c1[j]);
        let e2 = exists|j: int| k < j < c2.len() && node_eq(c2[k as int], #[trigger] c2[j]);
        if e1 {
            let j = choose|j: int| k < j < c1.len() && node_eq(c1[k as int], #[trigger] c1[j]);
            lemma_node_eq_same(c1[k as int], c1[j], c2[k as int], c2[j]);
            assert(node_eq(c2[k as int], c2[j]));
        }
        if e2 {
            let j = choose|j: int| k < j < c2.len() && node_eq(c2[k as int], #[trigger] c2[j]);
            lemma_node_eq_same(c1[k as int], c1[j], c2[k as int], c2[j]);
            assert(node_eq(c1[k as int], c1[j]));
        }
        if !e1 {
            lemma_first_from_same(c1, c2, k + 1);
        }
    }
}

/// Replacing same patterns in same trees gives same trees.
pub proof fn lemma_replaced_same(t1: Node, t2: Node, p1: Node, p2: Node, slot: usize)
    requires
        same_tree(t1, t2),
        same_tree(p1, p2),
    ensures
        same_tree(replaced(t1, p1, slot), replaced(t2, p2, slot)),
    decreases size(t1),
{
    lemma_shape(t1);
    lemma_shape(t2);
    lemma_tree_eq(t1, t2, true);
    lemma_tree_eq(p1, p2, true);
    lemma_node_eq_same(t1, p1, t2, p2);
    if node_eq(t1, p1) {
    } else if arity(t1) == 0 {
    } else {
        lemma_replaced_same(kid(t1, 0), kid(t2, 0), p1, p2, slot);
        if arity(t1) == 2 {
            lemma_replaced_same(kid(t1, 1), kid(t2, 1), p1, p2, slot);
        }
        let r1 = replaced(t1, p1, slot);
        let r2 = replaced(t2, p2, slot);
        lemma_shape(r1);
        lemma_shape(r2);
    }
}


/// Two constants are equal as the passes compare them exactly when neither
/// is a `NaN` (all exponent bits set, some fraction bit set) and they have
/// the same bits or are both zeros (`0.0` and `-0.0`): constants of
/// different values are never merged.
pub proof fn lemma_node_eq_constants(a: u64, b: u64)
    ensures
        node_eq(Node::Num(a), Node::Num(b)) ==> a == b || (a & 0x7FFF_FFFF_FFFF_FFFF == 0 && b
            & 0x7FFF_FFFF_FFFF_FFFF == 0),
        node_eq(Node::Num(a), Node::Num(b)) ==> !(a & 0x7FF0_0000_0000_0000
            == 0x7FF0_0000_0000_0000 && a & 0x000F_FFFF_FFFF_FFFF != 0),
        a & 0x7FF0_0000_0000_0000 != 0x7FF0_0000_0000_0000 ==> node_eq(
            Node::Num(a),
            Node::Num(a),
        ),
        a & 0x7FFF_FFFF_FFFF_FFFF == 0 && b & 0x7FFF_FFFF_FFFF_FFFF == 0 ==> node_eq(
            Node::Num(a),
            Node::Num(b),
        ),
{
    assert(a & 0x7FFF_FFFF_FFFF_FFFF == 0 ==> !(a & 0x7FF0_0000_0000_0000
        == 0x7FF0_0000_0000_0000)) by (bit_vector);
    assert(b & 0x7FFF_FFFF_FFFF_FFFF == 0 ==> !(b & 0x7FF0_0000_0000_0000
        == 0x7FF0_0000_0000_0000)) by (bit_vector);
}

} // verus!
