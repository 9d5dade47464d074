//! The structure of expression trees: which variables a tree depends on, how
//! many shared-subexpression slots it uses, and the rewrites of those slots.
//!
//! A number leaf holds the bits of its `f64` value; built-in and extension
//! functions are named by their index. Nothing here reads a number: the
//! arithmetic of the tree is evaluated elsewhere.
use vstd::prelude::*;
use crate::index_set::IndexSet;

verus! {

/// An expression tree. `Let(slot, expr, body)` evaluates `expr` once into
/// the shared slot `slot`, then `body`; `CseRef(slot, deps)` reads the slot,
/// whose expression depends on the variables `deps`.
#[derive(Debug, PartialEq)]
pub enum Node {
    /// A constant, by the bits of its `f64` value.
    Num(u64),
    Var(usize),
    Neg(Box<Node>),
    Add(Box<Node>, Box<Node>),
    Sub(Box<Node>, Box<Node>),
    Mul(Box<Node>, Box<Node>),
    Div(Box<Node>, Box<Node>),
    Pow(Box<Node>, Box<Node>),
    Mod(Box<Node>, Box<Node>),
    /// A built-in function of one argument, by its index.
    F1(u32, Box<Node>),
    /// A built-in function of two arguments, by its index.
    F2(u32, Box<Node>, Box<Node>),
    /// An extension function of one argument, by its index.
    ExtF1(u32, Box<Node>),
    /// An extension function of two arguments, by its index.
    ExtF2(u32, Box<Node>, Box<Node>),
    Let(usize, Box<Node>, Box<Node>),
    CseRef(usize, IndexSet),
}

/// The variables the tree depends on: its `Var` leaves, and the recorded
/// dependencies of the slots it reads.
pub open spec fn deps(n: Node) -> Set<nat>
    decreases n,
{
    match n {
        Node::Num(_) => Set::empty(),
        Node::Var(i) => set![i as nat],
        Node::Neg(a) => deps(*a),
        Node::F1(_, a) => deps(*a),
        Node::ExtF1(_, a) => deps(*a),
        Node::Add(a, b) => deps(*a).union(deps(*b)),
        Node::Sub(a, b) => deps(*a).union(deps(*b)),
        Node::Mul(a, b) => deps(*a).union(deps(*b)),
        Node::Div(a, b) => deps(*a).union(deps(*b)),
        Node::Pow(a, b) => deps(*a).union(deps(*b)),
        Node::Mod(a, b) => deps(*a).union(deps(*b)),
        Node::F2(_, a, b) => deps(*a).union(deps(*b)),
        Node::ExtF2(_, a, b) => deps(*a).union(deps(*b)),
        Node::Let(_, e, b) => deps(*e).union(deps(*b)),
        Node::CseRef(_, d) => d@,
    }
}

pub open spec fn max2(a: nat, b: nat) -> nat {
    if a >= b {
        a
    } else {
        b
    }
}

/// The number of shared slots the tree uses: one more than the highest slot
/// it binds or reads, or 0.
pub open spec fn slots_needed(n: Node) -> nat
    decreases n,
{
    match n {
        Node::Num(_) => 0,
        Node::Var(_) => 0,
        Node::Neg(a) => slots_needed(*a),
        Node::F1(_, a) => slots_needed(*a),
        Node::ExtF1(_, a) => slots_needed(*a),
        Node::Add(a, b) => max2(slots_needed(*a), slots_needed(*b)),
        Node::Sub(a, b) => max2(slots_needed(*a), slots_needed(*b)),
        Node::Mul(a, b) => max2(slots_needed(*a), slots_needed(*b)),
        Node::Div(a, b) => max2(slots_needed(*a), slots_needed(*b)),
        Node::Pow(a, b) => max2(slots_needed(*a), slots_needed(*b)),
        Node::Mod(a, b) => max2(slots_needed(*a), slots_needed(*b)),
        Node::F2(_, a, b) => max2(slots_needed(*a), slots_needed(*b)),
        Node::ExtF2(_, a, b) => max2(slots_needed(*a), slots_needed(*b)),
        Node::Let(s, e, b) => max2(s as nat + 1, max2(slots_needed(*e), slots_needed(*b))),
        Node::CseRef(s, _) => s as nat + 1,
    }
}

/// The tree with every read of slot `old_slot` turned into a read of
/// `new_slot`; bindings are left as they are.
pub open spec fn remapped(n: Node, old_slot: usize, new_slot: usize) -> Node
    decreases n,
{
    match n {
        Node::CseRef(s, d) => if s == old_slot {
            Node::CseRef(new_slot, d)
        } else {
            Node::CseRef(s, d)
        },
        Node::Num(v) => Node::Num(v),
        Node::Var(i) => Node::Var(i),
        Node::Neg(a) => Node::Neg(Box::new(remapped(*a, old_slot, new_slot))),
        Node::F1(f, a) => Node::F1(f, Box::new(remapped(*a, old_slot, new_slot))),
        Node::ExtF1(f, a) => Node::ExtF1(f, Box::new(remapped(*a, old_slot, new_slot))),
        Node::Add(a, b) => Node::Add(
            Box::new(remapped(*a, old_slot, new_slot)),
            Box::new(remapped(*b, old_slot, new_slot)),
        ),
        Node::Sub(a, b) => Node::Sub(
            Box::new(remapped(*a, old_slot, new_slot)),
            Box::new(remapped(*b, old_slot, new_slot)),
        ),
        Node::Mul(a, b) => Node::Mul(
            Box::new(remapped(*a, old_slot, new_slot)),
            Box::new(remapped(*b, old_slot, new_slot)),
        ),
        Node::Div(a, b) => Node::Div(
            Box::new(remapped(*a, old_slot, new_slot)),
            Box::new(remapped(*b, old_slot, new_slot)),
        ),
        Node::Pow(a, b) => Node::Pow(
            Box::new(remapped(*a, old_slot, new_slot)),
            Box::new(remapped(*b, old_slot, new_slot)),
        ),
        Node::Mod(a, b) => Node::Mod(
            Box::new(remapped(*a, old_slot, new_slot)),
            Box::new(remapped(*b, old_slot, new_slot)),
        ),
        Node::F2(f, a, b) => Node::F2(
            f,
            Box::new(remapped(*a, old_slot, new_slot)),
            Box::new(remapped(*b, old_slot, new_slot)),
        ),
        Node::ExtF2(f, a, b) => Node::ExtF2(
            f,
            Box::new(remapped(*a, old_slot, new_slot)),
            Box::new(remapped(*b, old_slot, new_slot)),
        ),
        Node::Let(s, e, b) => Node::Let(
            s,
            Box::new(remapped(*e, old_slot, new_slot)),
            Box::new(remapped(*b, old_slot, new_slot)),
        ),
    }
}

/// Number of nodes of the tree.
pub open spec fn size(n: Node) -> nat
    decreases n,
{
    match n {
        Node::Num(_) => 1,
        Node::Var(_) => 1,
        Node::CseRef(_, _) => 1,
        Node::Neg(a) => 1 + size(*a),
        Node::F1(_, a) => 1 + size(*a),
        Node::ExtF1(_, a) => 1 + size(*a),
        Node::Add(a, b) => 1 + size(*a) + size(*b),
        Node::Sub(a, b) => 1 + size(*a) + size(*b),
        Node::Mul(a, b) => 1 + size(*a) + size(*b),
        Node::Div(a, b) => 1 + size(*a) + size(*b),
        Node::Pow(a, b) => 1 + size(*a) + size(*b),
        Node::Mod(a, b) => 1 + size(*a) + size(*b),
        Node::F2(_, a, b) => 1 + size(*a) + size(*b),
        Node::ExtF2(_, a, b) => 1 + size(*a) + size(*b),
        Node::Let(_, e, b) => 1 + size(*e) + size(*b),
    }
}

/// Renaming a slot keeps the shape of the tree.
pub proof fn lemma_remapped_size(n: Node, old_slot: usize, new_slot: usize)
    ensures
        size(remapped(n, old_slot, new_slot)) == size(n),
    decreases n,
{
    match n {
        Node::Neg(a) => lemma_remapped_size(*a, old_slot, new_slot),
        Node::F1(_, a) => lemma_remapped_size(*a, old_slot, new_slot),
        Node::ExtF1(_, a) => lemma_remapped_size(*a, old_slot, new_slot),
        Node::Add(a, b) | Node::Sub(a, b) | Node::Mul(a, b) | Node::Div(a, b) | Node::Pow(a, b)
        | Node::Mod(a, b) | Node::F2(_, a, b) | Node::ExtF2(_, a, b) | Node::Let(_, a, b) => {
            lemma_remapped_size(*a, old_slot, new_slot);
            lemma_remapped_size(*b, old_slot, new_slot);
        },
        _ => {},
    }
}

/// The tree with every alias binding `Let(slot, CseRef(other, _), body)`,
/// `slot != other`, dropped and the reads of `slot` in its body turned into
/// reads of `other`.
pub open spec fn folded(n: Node) -> Node
    decreases size(n),
{
    match n {
        Node::Let(s, e, b) => {
            match *e {
                Node::CseRef(other, _) if s != other => {
                    proof {
                        lemma_remapped_size(*b, s, other);
                    }
                    folded(remapped(*b, s, other))
                },
                _ => Node::Let(s, Box::new(folded(*e)), Box::new(folded(*b))),
            }
        },
        Node::Num(v) => Node::Num(v),
        Node::Var(i) => Node::Var(i),
        Node::CseRef(s, d) => Node::CseRef(s, d),
        Node::Neg(a) => Node::Neg(Box::new(folded(*a))),
        Node::F1(f, a) => Node::F1(f, Box::new(folded(*a))),
        Node::ExtF1(f, a) => Node::ExtF1(f, Box::new(folded(*a))),
        Node::Add(a, b) => Node::Add(Box::new(folded(*a)), Box::new(folded(*b))),
        Node::Sub(a, b) => Node::Sub(Box::new(folded(*a)), Box::new(folded(*b))),
        Node::Mul(a, b) => Node::Mul(Box::new(folded(*a)), Box::new(folded(*b))),
        Node::Div(a, b) => Node::Div(Box::new(folded(*a)), Box::new(folded(*b))),
        Node::Pow(a, b) => Node::Pow(Box::new(folded(*a)), Box::new(folded(*b))),
        Node::Mod(a, b) => Node::Mod(Box::new(folded(*a)), Box::new(folded(*b))),
        Node::F2(f, a, b) => Node::F2(f, Box::new(folded(*a)), Box::new(folded(*b))),
        Node::ExtF2(f, a, b) => Node::ExtF2(f, Box::new(folded(*a)), Box::new(folded(*b))),
    }
}

impl Node {
    /// The number of shared slots the tree needs (one more than the highest
    /// slot it binds or reads), saturating at `usize::MAX`.
    pub fn cse_slots(&self) -> (r: usize)
        ensures
            r == if slots_needed(*self) <= usize::MAX {
                slots_needed(*self)
            } else {
                usize::MAX as nat
            },
        decreases self,
    {
        match self {
            Node::Let(slot, expr, body) => {
                let a = slot.saturating_add(1);
                let b = expr.cse_slots();
                let c = body.cse_slots();
                let m = if b >= c {
                    b
                } else {
                    c
                };
                if a >= m {
                    a
                } else {
                    m
                }
            },
            Node::CseRef(slot, _) => slot.saturating_add(1),
            Node::Neg(a) | Node::F1(_, a) | Node::ExtF1(_, a) => a.cse_slots(),
            Node::Add(a, b)
            | Node::Sub(a, b)
            | Node::Mul(a, b)
            | Node::Div(a, b)
            | Node::Pow(a, b)
            | Node::Mod(a, b)
            | Node::F2(_, a, b)
            | Node::ExtF2(_, a, b) => {
                let x = a.cse_slots();
                let y = b.cse_slots();
                if x >= y {
                    x
                } else {
                    y
                }
            },
            Node::Num(_) | Node::Var(_) => 0,
        }
    }

    /// The set of variables the tree depends on.
    pub fn depends_on(&self) -> (r: IndexSet)
        ensures
            r@ == deps(*self),
        decreases self,
    {
        match self {
            Node::Num(_) => IndexSet::default(),
            Node::Var(i) => IndexSet::singleton(*i),
            Node::Neg(a) | Node::F1(_, a) | Node::ExtF1(_, a) => a.depends_on(),
            Node::Add(a, b)
            | Node::Sub(a, b)
            | Node::Mul(a, b)
            | Node::Div(a, b)
            | Node::Pow(a, b)
            | Node::Mod(a, b)
            | Node::F2(_, a, b)
            | Node::ExtF2(_, a, b)
            | Node::Let(_, a, b) => a.depends_on() | b.depends_on(),
            Node::CseRef(_, d) => d.clone(),
        }
    }

    /// Turns every read of slot `old_slot` into a read of `new_slot`.
    pub fn remap_cse_slot(&mut self, old_slot: usize, new_slot: usize)
        ensures
            *final(self) == remapped(*old(self), old_slot, new_slot),
    {
        let mut n = Node::Num(0);
        std::mem::swap(&mut n, self);
        *self = remap_owned(n, old_slot, new_slot);
    }

    /// Drops every alias binding `Let(slot, CseRef(other, _), body)` with
    /// `slot != other`, reading `other` in its body in place of `slot`.
    pub fn fold_cse_aliases(&mut self)
        ensures
            *final(self) == folded(*old(self)),
    {
        let mut n = Node::Num(0);
        std::mem::swap(&mut n, self);
        *self = fold_owned(n);
    }
}

fn remap_owned(n: Node, old_slot: usize, new_slot: usize) -> (r: Node)
    ensures
        r == remapped(n, old_slot, new_slot),
    decreases n,
{
    match n {
        Node::CseRef(s, d) => if s == old_slot {
            Node::CseRef(new_slot, d)
        } else {
            Node::CseRef(s, d)
        },
        Node::Num(v) => Node::Num(v),
        Node::Var(i) => Node::Var(i),
        Node::Neg(a) => Node::Neg(Box::new(remap_owned(*a, old_slot, new_slot))),
        Node::F1(f, a) => Node::F1(f, Box::new(remap_owned(*a, old_slot, new_slot))),
        Node::ExtF1(f, a) => Node::ExtF1(f, Box::new(remap_owned(*a, old_slot, new_slot))),
        Node::Add(a, b) => Node::Add(
            Box::new(remap_owned(*a, old_slot, new_slot)),
            Box::new(remap_owned(*b, old_slot, new_slot)),
        ),
        Node::Sub(a, b) => Node::Sub(
            Box::new(remap_owned(*a, old_slot, new_slot)),
            Box::new(remap_owned(*b, old_slot, new_slot)),
        ),
        Node::Mul(a, b) => Node::Mul(
            Box::new(remap_owned(*a, old_slot, new_slot)),
            Box::new(remap_owned(*b, old_slot, new_slot)),
        ),
        Node::Div(a, b) => Node::Div(
            Box::new(remap_owned(*a, old_slot, new_slot)),
            Box::new(remap_owned(*b, old_slot, new_slot)),
        ),
        Node::Pow(a, b) => Node::Pow(
            Box::new(remap_owned(*a, old_slot, new_slot)),
            Box::new(remap_owned(*b, old_slot, new_slot)),
        ),
        Node::Mod(a, b) => Node::Mod(
            Box::new(remap_owned(*a, old_slot, new_slot)),
            Box::new(remap_owned(*b, old_slot, new_slot)),
        ),
        Node::F2(f, a, b) => Node::F2(
            f,
            Box::new(remap_owned(*a, old_slot, new_slot)),
            Box::new(remap_owned(*b, old_slot, new_slot)),
        ),
        Node::ExtF2(f, a, b) => Node::ExtF2(
            f,
            Box::new(remap_owned(*a, old_slot, new_slot)),
            Box::new(remap_owned(*b, old_slot, new_slot)),
        ),
        Node::Let(s, e, b) => Node::Let(
            s,
            Box::new(remap_owned(*e, old_slot, new_slot)),
            Box::new(remap_owned(*b, old_slot, new_slot)),
        ),
    }
}

fn fold_owned(n: Node) -> (r: Node)
    ensures
        r == folded(n),
    decreases size(n),
{
    match n {
        Node::Let(s, e, b) => {
            let alias = match &*e {
                Node::CseRef(other, _) => if s != *other {
                    Some(*other)
                } else {
                    None
                },
                _ => None,
            };
            match alias {
                Some(other) => {
                    proof {
                        lemma_remapped_size(*b, s, other);
                    }
                    fold_owned(remap_owned(*b, s, other))
                },
                None => Node::Let(s, Box::new(fold_owned(*e)), Box::new(fold_owned(*b))),
            }
        },
        Node::Num(v) => Node::Num(v),
        Node::Var(i) => Node::Var(i),
        Node::CseRef(s, d) => Node::CseRef(s, d),
        Node::Neg(a) => Node::Neg(Box::new(fold_owned(*a))),
        Node::F1(f, a) => Node::F1(f, Box::new(fold_owned(*a))),
        Node::ExtF1(f, a) => Node::ExtF1(f, Box::new(fold_owned(*a))),
        Node::Add(a, b) => Node::Add(Box::new(fold_owned(*a)), Box::new(fold_owned(*b))),
        Node::Sub(a, b) => Node::Sub(Box::new(fold_owned(*a)), Box::new(fold_owned(*b))),
        Node::Mul(a, b) => Node::Mul(Box::new(fold_owned(*a)), Box::new(fold_owned(*b))),
        Node::Div(a, b) => Node::Div(Box::new(fold_owned(*a)), Box::new(fold_owned(*b))),
        Node::Pow(a, b) => Node::Pow(Box::new(fold_owned(*a)), Box::new(fold_owned(*b))),
        Node::Mod(a, b) => Node::Mod(Box::new(fold_owned(*a)), Box::new(fold_owned(*b))),
        Node::F2(f, a, b) => Node::F2(f, Box::new(fold_owned(*a)), Box::new(fold_owned(*b))),
        Node::ExtF2(f, a, b) => Node::ExtF2(f, Box::new(fold_owned(*a)), Box::new(fold_owned(*b))),
    }
}


/// A leaf: a constant, a variable or a read of a slot.
pub open spec fn is_leaf(n: Node) -> bool {
    n is Num || n is Var || n is CseRef
}

/// The sub-tree depends on none of the variables of `mask` and is worth a
/// slot of its own: it is no leaf.
pub open spec fn hoistable(n: Node, mask: Set<nat>) -> bool {
    deps(n).disjoint(mask) && !is_leaf(n)
}

/// The slot after `s`, wrapping at `usize::MAX`.
pub open spec fn next_slot(s: usize) -> usize {
    if s == usize::MAX {
        0
    } else {
        (s + 1) as usize
    }
}

/// The slot an alias `Let(ls, e, _)` folds onto once `e` is processed from
/// slot `s0`: the slot `e` then reads, when it is a read of a slot other than
/// `ls` whose dependencies avoid `mask`.
pub open spec fn alias_slot(e: Node, ls: usize, mask: Set<nat>, s0: usize) -> Option<usize>
    decreases size(e), 1nat,
{
    match hoist_top(e, mask, s0) {
        Some((rs, d)) => if d.disjoint(mask) && rs != ls {
            Some(rs)
        } else {
            None
        },
        None => None,
    }
}

/// When the processed tree is a read of a slot: that slot and the recorded
/// dependencies.
pub open spec fn hoist_top(n: Node, mask: Set<nat>, s0: usize) -> Option<(usize, Set<nat>)>
    decreases size(n), 0nat,
{
    if hoistable(n, mask) {
        Some((s0, deps(n)))
    } else {
        match n {
            Node::CseRef(rs, d) => Some((rs, d@)),
            Node::Let(ls, e, b) => {
                let s1 = hoist_slot(*e, mask, s0);
                match alias_slot(*e, ls, mask, s0) {
                    Some(rs) => {
                        proof {
                            lemma_remapped_size(*b, ls, rs);
                        }
                        hoist_top(remapped(*b, ls, rs), mask, s1)
                    },
                    None => None,
                }
            },
            _ => None,
        }
    }
}

/// The next free slot once the tree is processed from slot `s0`.
pub open spec fn hoist_slot(n: Node, mask: Set<nat>, s0: usize) -> usize
    decreases size(n), 0nat,
{
    if hoistable(n, mask) {
        next_slot(s0)
    } else {
        match n {
            Node::Neg(a) => hoist_slot(*a, mask, s0),
            Node::F1(_, a) => hoist_slot(*a, mask, s0),
            Node::ExtF1(_, a) => hoist_slot(*a, mask, s0),
            Node::Add(a, b) => hoist_slot(*b, mask, hoist_slot(*a, mask, s0)),
            Node::Sub(a, b) => hoist_slot(*b, mask, hoist_slot(*a, mask, s0)),
            Node::Mul(a, b) => hoist_slot(*b, mask, hoist_slot(*a, mask, s0)),
            Node::Div(a, b) => hoist_slot(*b, mask, hoist_slot(*a, mask, s0)),
            Node::Pow(a, b) => hoist_slot(*b, mask, hoist_slot(*a, mask, s0)),
            Node::Mod(a, b) => hoist_slot(*b, mask, hoist_slot(*a, mask, s0)),
            Node::F2(_, a, b) => hoist_slot(*b, mask, hoist_slot(*a, mask, s0)),
            Node::ExtF2(_, a, b) => hoist_slot(*b, mask, hoist_slot(*a, mask, s0)),
            Node::Let(ls, e, b) => {
                let s1 = hoist_slot(*e, mask, s0);
                match alias_slot(*e, ls, mask, s0) {
                    Some(rs) => {
                        proof {
                            lemma_remapped_size(*b, ls, rs);
                        }
                        hoist_slot(remapped(*b, ls, rs), mask, s1)
                    },
                    None => hoist_slot(*b, mask, s1),
                }
            },
            _ => s0,
        }
    }
}

/// The hoisted sub-trees, with their slots, in the order they are taken
/// when the tree is processed from slot `s0`.
pub open spec fn hoist_pieces(n: Node, mask: Set<nat>, s0: usize) -> Seq<(usize, Node)>
    decreases size(n),
{
    if hoistable(n, mask) {
        seq![(s0, n)]
    } else {
        match n {
            Node::Neg(a) => hoist_pieces(*a, mask, s0),
            Node::F1(_, a) => hoist_pieces(*a, mask, s0),
            Node::ExtF1(_, a) => hoist_pieces(*a, mask, s0),
            Node::Add(a, b) => hoist_pieces(*a, mask, s0) + hoist_pieces(
                *b,
                mask,
                hoist_slot(*a, mask, s0),
            ),
            Node::Sub(a, b) => hoist_pieces(*a, mask, s0) + hoist_pieces(
                *b,
                mask,
                hoist_slot(*a, mask, s0),
            ),
            Node::Mul(a, b) => hoist_pieces(*a, mask, s0) + hoist_pieces(
                *b,
                mask,
                hoist_slot(*a, mask, s0),
            ),
            Node::Div(a, b) => hoist_pieces(*a, mask, s0) + hoist_pieces(
                *b,
                mask,
                hoist_slot(*a, mask, s0),
            ),
            Node::Pow(a, b) => hoist_pieces(*a, mask, s0) + hoist_pieces(
                *b,
                mask,
                hoist_slot(*a, mask, s0),
            ),
            Node::Mod(a, b) => hoist_pieces(*a, mask, s0) + hoist_pieces(
                *b,
                mask,
                hoist_slot(*a, mask, s0),
            ),
            Node::F2(_, a, b) => hoist_pieces(*a, mask, s0) + hoist_pieces(
                *b,
                mask,
                hoist_slot(*a, mask, s0),
            ),
            Node::ExtF2(_, a, b) => hoist_pieces(*a, mask, s0) + hoist_pieces(
                *b,
                mask,
                hoist_slot(*a, mask, s0),
            ),
            Node::Let(ls, e, b) => {
                let s1 = hoist_slot(*e, mask, s0);
                match alias_slot(*e, ls, mask, s0) {
                    Some(rs) => {
                        proof {
                            lemma_remapped_size(*b, ls, rs);
                        }
                        hoist_pieces(*e, mask, s0) + hoist_pieces(remapped(*b, ls, rs), mask, s1)
                    },
                    None => hoist_pieces(*e, mask, s0) + hoist_pieces(*b, mask, s1),
                }
            },
            _ => Seq::empty(),
        }
    }
}

/// `out` is the tree `n` processed from slot `s0`: every hoistable sub-tree,
/// outermost first, replaced by a read of the next slot recording its
/// dependencies; and every alias `Let(ls, e, b)` whose processed `e` reads
/// another slot, free of `mask`, replaced by its body reading that slot.
pub open spec fn hoist_tree(n: Node, out: Node, mask: Set<nat>, s0: usize) -> bool
    decreases size(n),
{
    if hoistable(n, mask) {
        out matches Node::CseRef(s, d) && s == s0 && d@ == deps(n)
    } else {
        match n {
            Node::Neg(a) => out matches Node::Neg(x) && hoist_tree(*a, *x, mask, s0),
            Node::F1(f, a) => out matches Node::F1(g, x) && g == f && hoist_tree(*a, *x, mask, s0),
            Node::ExtF1(f, a) => out matches Node::ExtF1(g, x) && g == f && hoist_tree(
                *a,
                *x,
                mask,
                s0,
            ),
            Node::Add(a, b) => out matches Node::Add(x, y) && hoist_tree(*a, *x, mask, s0)
                && hoist_tree(*b, *y, mask, hoist_slot(*a, mask, s0)),
            Node::Sub(a, b) => out matches Node::Sub(x, y) && hoist_tree(*a, *x, mask, s0)
                && hoist_tree(*b, *y, mask, hoist_slot(*a, mask, s0)),
            Node::Mul(a, b) => out matches Node::Mul(x, y) && hoist_tree(*a, *x, mask, s0)
                && hoist_tree(*b, *y, mask, hoist_slot(*a, mask, s0)),
            Node::Div(a, b) => out matches Node::Div(x, y) && hoist_tree(*a, *x, mask, s0)
                && hoist_tree(*b, *y, mask, hoist_slot(*a, mask, s0)),
            Node::Pow(a, b) => out matches Node::Pow(x, y) && hoist_tree(*a, *x, mask, s0)
                && hoist_tree(*b, *y, mask, hoist_slot(*a, mask, s0)),
            Node::Mod(a, b) => out matches Node::Mod(x, y) && hoist_tree(*a, *x, mask, s0)
                && hoist_tree(*b, *y, mask, hoist_slot(*a, mask, s0)),
            Node::F2(f, a, b) => out matches Node::F2(g, x, y) && g == f && hoist_tree(
                *a,
                *x,
                mask,
                s0,
            ) && hoist_tree(*b, *y, mask, hoist_slot(*a, mask, s0)),
            Node::ExtF2(f, a, b) => out matches Node::ExtF2(g, x, y) && g == f && hoist_tree(
                *a,
                *x,
                mask,
                s0,
            ) && hoist_tree(*b, *y, mask, hoist_slot(*a, mask, s0)),
            Node::Let(ls, e, b) => {
                let s1 = hoist_slot(*e, mask, s0);
                match alias_slot(*e, ls, mask, s0) {
                    Some(rs) => {
                        proof {
                            lemma_remapped_size(*b, ls, rs);
                        }
                        hoist_tree(remapped(*b, ls, rs), out, mask, s1)
                    },
                    None => out matches Node::Let(l2, x, y) && l2 == ls && hoist_tree(
                        *e,
                        *x,
                        mask,
                        s0,
                    ) && hoist_tree(*b, *y, mask, s1),
                }
            },
            _ => out == n,
        }
    }
}

fn is_leaf_node(n: &Node) -> (r: bool)
    ensures
        r == is_leaf(*n),
{
    match n {
        Node::Num(_) | Node::Var(_) | Node::CseRef(_, _) => true,
        _ => false,
    }
}

/// Processes a tree from slot `*slot` (see [`hoist_tree`]), appending the
/// hoisted sub-trees to `pieces`.
fn hoist_owned(
    n: Node,
    mask: &IndexSet,
    slot: &mut usize,
    pieces: &mut Vec<(usize, Node)>,
) -> (r: Node)
    ensures
        hoist_tree(n, r, mask@, *old(slot)),
        *final(slot) == hoist_slot(n, mask@, *old(slot)),
        final(pieces)@ == old(pieces)@ + hoist_pieces(n, mask@, *old(slot)),
        match r {
            Node::CseRef(rs, d) => hoist_top(n, mask@, *old(slot)) == Some((rs, d@)),
            _ => hoist_top(n, mask@, *old(slot)) is None,
        },
    decreases size(n),
{
    let ghost m = mask@;
    let ghost s0 = *slot;
    let deps_set = n.depends_on();
    if deps_set.is_disjoint(mask) && !is_leaf_node(&n) {
        let here = *slot;
        pieces.push((here, n));
        *slot = slot.wrapping_add(1);
        return Node::CseRef(here, deps_set);
    }
    match n {
        Node::Num(v) => Node::Num(v),
        Node::Var(i) => Node::Var(i),
        Node::CseRef(s, d) => Node::CseRef(s, d),
        Node::Neg(a) => Node::Neg(Box::new(hoist_owned(*a, mask, slot, pieces))),
        Node::F1(f, a) => Node::F1(f, Box::new(hoist_owned(*a, mask, slot, pieces))),
        Node::ExtF1(f, a) => Node::ExtF1(f, Box::new(hoist_owned(*a, mask, slot, pieces))),
        Node::Add(a, b) => {
            let x = hoist_owned(*a, mask, slot, pieces);
            let y = hoist_owned(*b, mask, slot, pieces);
            Node::Add(Box::new(x), Box::new(y))
        },
        Node::Sub(a, b) => {
            let x = hoist_owned(*a, mask, slot, pieces);
            let y = hoist_owned(*b, mask, slot, pieces);
            Node::Sub(Box::new(x), Box::new(y))
        },
        Node::Mul(a, b) => {
            let x = hoist_owned(*a, mask, slot, pieces);
            let y = hoist_owned(*b, mask, slot, pieces);
            Node::Mul(Box::new(x), Box::new(y))
        },
        Node::Div(a, b) => {
            let x = hoist_owned(*a, mask, slot, pieces);
            let y = hoist_owned(*b, mask, slot, pieces);
            Node::Div(Box::new(x), Box::new(y))
        },
        Node::Pow(a, b) => {
            let x = hoist_owned(*a, mask, slot, pieces);
            let y = hoist_owned(*b, mask, slot, pieces);
            Node::Pow(Box::new(x), Box::new(y))
        },
        Node::Mod(a, b) => {
            let x = hoist_owned(*a, mask, slot, pieces);
            let y = hoist_owned(*b, mask, slot, pieces);
            Node::Mod(Box::new(x), Box::new(y))
        },
        Node::F2(f, a, b) => {
            let x = hoist_owned(*a, mask, slot, pieces);
            let y = hoist_owned(*b, mask, slot, pieces);
            Node::F2(f, Box::new(x), Box::new(y))
        },
        Node::ExtF2(f, a, b) => {
            let x = hoist_owned(*a, mask, slot, pieces);
            let y = hoist_owned(*b, mask, slot, pieces);
            Node::ExtF2(f, Box::new(x), Box::new(y))
        },
        Node::Let(ls, e, b) => {
            let x = hoist_owned(*e, mask, slot, pieces);
            let alias = match &x {
                Node::CseRef(rs, d) => if d.is_disjoint(mask) && *rs != ls {
                    Some(*rs)
                } else {
                    None
                },
                _ => None,
            };
            match alias {
                Some(rs) => {
                    proof {
                        lemma_remapped_size(*b, ls, rs);
                    }
                    let body = remap_owned(*b, ls, rs);
                    hoist_owned(body, mask, slot, pieces)
                },
                None => {
                    let y = hoist_owned(*b, mask, slot, pieces);
                    Node::Let(ls, Box::new(x), Box::new(y))
                },
            }
        },
    }
}

impl Node {
    /// Replaces, outermost first, every sub-tree that depends on none of the
    /// variables of `invariant_mask` (and is no leaf) by a read of slot
    /// `*slot`, then the next slots, appending the sub-trees with their slots
    /// to `pieces`; folds the aliases that this leaves (see [`hoist_tree`]).
    pub fn collect_invariants(
        &mut self,
        invariant_mask: &IndexSet,
        slot: &mut usize,
        pieces: &mut Vec<(usize, Node)>,
    )
        ensures
            hoist_tree(*old(self), *final(self), invariant_mask@, *old(slot)),
            *final(slot) == hoist_slot(*old(self), invariant_mask@, *old(slot)),
            final(pieces)@ == old(pieces)@ + hoist_pieces(
                *old(self),
                invariant_mask@,
                *old(slot),
            ),
    {
        let mut n = Node::Num(0);
        std::mem::swap(&mut n, self);
        *self = hoist_owned(n, invariant_mask, slot, pieces);
    }
}

/// The hoisted pieces bound one after the other, in order, around the
/// constant `0.0` (bits `0`): the tree that evaluates them all into their
/// slots.
pub open spec fn chain_of(pieces: Seq<(usize, Node)>) -> Node
    decreases pieces.len(),
{
    if pieces.len() == 0 {
        Node::Num(0)
    } else {
        Node::Let(pieces[0].0, Box::new(pieces[0].1), Box::new(chain_of(pieces.drop_first())))
    }
}

impl Node {
    /// Hoists the sub-trees that depend on none of the variables of
    /// `invariant_mask` (see [`Node::collect_invariants`]) and binds them,
    /// in the order they were taken, in one tree that fills their slots; or
    /// `None` when nothing was hoisted.
    pub fn collect_invariant_chain(
        &mut self,
        invariant_mask: &IndexSet,
        slot: &mut usize,
    ) -> (r: Option<Node>)
        ensures
            hoist_tree(*old(self), *final(self), invariant_mask@, *old(slot)),
            *final(slot) == hoist_slot(*old(self), invariant_mask@, *old(slot)),
            hoist_pieces(*old(self), invariant_mask@, *old(slot)).len() == 0 ==> r is None,
            hoist_pieces(*old(self), invariant_mask@, *old(slot)).len() > 0 ==> r == Some(
                chain_of(hoist_pieces(*old(self), invariant_mask@, *old(slot))),
            ),
    {
        let mut pieces: Vec<(usize, Node)> = Vec::new();
        self.collect_invariants(invariant_mask, slot, &mut pieces);
        if pieces.len() == 0 {
            return None;
        }
        let ghost all = pieces@;
        let mut chain = Node::Num(0);
        assert(all.subrange(all.len() as int, all.len() as int) =~= Seq::<(usize, Node)>::empty());
        while pieces.len() > 0
            invariant
                all.len() > 0,
                pieces@.len() <= all.len(),
                pieces@ == all.subrange(0, pieces@.len() as int),
                chain == chain_of(all.subrange(pieces@.len() as int, all.len() as int)),
            decreases pieces@.len(),
        {
            let ghost before = pieces@;
            let (s, node) = pieces.pop().unwrap();
            proof {
                let k = pieces@.len() as int;
                assert(before[k] == all[k]);
                assert((s, node) == before[k]);
                let tail = all.subrange(k, all.len() as int);
                assert(tail[0] == (s, node));
                assert(tail.drop_first() =~= all.subrange(k + 1, all.len() as int));
                assert(pieces@ =~= all.subrange(0, k));
            }
            chain = Node::Let(s, Box::new(node), Box::new(chain));
        }
        assert(all.subrange(0, all.len() as int) =~= all);
        Some(chain)
    }
}

/// Slot numbers wrap around after `usize::MAX`.
pub open spec fn slot_after(s0: usize, k: nat) -> int {
    (s0 + k) % (usize::MAX + 1)
}

proof fn lemma_slot_after_step(s0: usize, k: nat)
    ensures
        next_slot(slot_after(s0, k) as usize) == slot_after(s0, k + 1),
        0 <= slot_after(s0, k) <= usize::MAX,
{
    let m = usize::MAX + 1;
    vstd::arithmetic::div_mod::lemma_mod_bound(s0 + k, m);
    vstd::arithmetic::div_mod::lemma_add_mod_noop(s0 + k, 1, m);
    vstd::arithmetic::div_mod::lemma_mod_bound(s0 + k + 1, m);
    vstd::arithmetic::div_mod::lemma_small_mod(1, m as nat);
    let a = slot_after(s0, k);
    if a == usize::MAX {
        vstd::arithmetic::div_mod::lemma_mod_self_0(m);
    } else {
        vstd::arithmetic::div_mod::lemma_small_mod((a + 1) as nat, m as nat);
    }
}

proof fn lemma_slot_after_add(s0: usize, k: nat, l: nat)
    ensures
        slot_after(slot_after(s0, k) as usize, l) == slot_after(s0, k + l),
        0 <= slot_after(s0, k) <= usize::MAX,
{
    let m = usize::MAX + 1;
    vstd::arithmetic::div_mod::lemma_mod_bound(s0 + k, m);
    vstd::arithmetic::div_mod::lemma_add_mod_noop(s0 + k, l as int, m);
    vstd::arithmetic::div_mod::lemma_mod_twice(s0 + k, m);
    vstd::arithmetic::div_mod::lemma_add_mod_noop(slot_after(s0, k), l as int, m);
}

/// Hoisting takes only sub-trees that depend on none of the variables of
/// the mask, and no leaf; it numbers them with consecutive slots from `s0`
/// (wrapping after `usize::MAX`), and the next free slot follows the last.
pub proof fn lemma_hoist_pieces(n: Node, mask: Set<nat>, s0: usize)
    ensures
        forall|i: int|
            0 <= i < hoist_pieces(n, mask, s0).len() ==> hoistable(
                (#[trigger] hoist_pieces(n, mask, s0)[i]).1,
                mask,
            ) && hoist_pieces(n, mask, s0)[i].0 == slot_after(s0, i as nat),
        hoist_slot(n, mask, s0) == slot_after(s0, hoist_pieces(n, mask, s0).len()),
    decreases size(n),
{
    let p = hoist_pieces(n, mask, s0);
    if hoistable(n, mask) {
        lemma_slot_after_step(s0, 0);
        vstd::arithmetic::div_mod::lemma_small_mod(s0 as nat, (usize::MAX + 1) as nat);
    } else {
        match n {
            Node::Neg(a) => lemma_hoist_pieces(*a, mask, s0),
            Node::F1(_, a) => lemma_hoist_pieces(*a, mask, s0),
            Node::ExtF1(_, a) => lemma_hoist_pieces(*a, mask, s0),
            Node::Add(a, b) | Node::Sub(a, b) | Node::Mul(a, b) | Node::Div(a, b) | Node::Pow(a, b)
            | Node::Mod(a, b) | Node::F2(_, a, b) | Node::ExtF2(_, a, b) => {
                lemma_hoist_two(*a, *b, mask, s0);
                let pa = hoist_pieces(*a, mask, s0);
                let pb = hoist_pieces(*b, mask, hoist_slot(*a, mask, s0));
                assert(p == pa + pb);
            },
            Node::Let(ls, e, b) => {
                match alias_slot(*e, ls, mask, s0) {
                    Some(rs) => {
                        lemma_remapped_size(*b, ls, rs);
                        lemma_hoist_two(*e, remapped(*b, ls, rs), mask, s0);
                    },
                    None => {
                        lemma_hoist_two(*e, *b, mask, s0);
                    },
                }
            },
            _ => {
                vstd::arithmetic::div_mod::lemma_small_mod(s0 as nat, (usize::MAX + 1) as nat);
            },
        }
    }
}

/// Two trees processed one after the other.
proof fn lemma_hoist_two(a: Node, b: Node, mask: Set<nat>, s0: usize)
    ensures
        ({
            let pa = hoist_pieces(a, mask, s0);
            let s1 = hoist_slot(a, mask, s0);
            let pb = hoist_pieces(b, mask, s1);
            &&& forall|i: int|
                0 <= i < (pa + pb).len() ==> hoistable((#[trigger] (pa + pb)[i]).1, mask) && (pa
                    + pb)[i].0 == slot_after(s0, i as nat)
            &&& hoist_slot(b, mask, s1) == slot_after(s0, (pa + pb).len())
        }),
    decreases size(a) + size(b),
{
    let pa = hoist_pieces(a, mask, s0);
    let s1 = hoist_slot(a, mask, s0);
    let pb = hoist_pieces(b, mask, s1);
    assert(size(a) >= 1 && size(b) >= 1);
    lemma_hoist_pieces(a, mask, s0);
    lemma_hoist_pieces(b, mask, s1);
    assert forall|i: int| 0 <= i < (pa + pb).len() implies hoistable(
        (#[trigger] (pa + pb)[i]).1,
        mask,
    ) && (pa + pb)[i].0 == slot_after(s0, i as nat) by {
        if i < pa.len() {
            assert((pa + pb)[i] == pa[i]);
        } else {
            assert((pa + pb)[i] == pb[i - pa.len()]);
            lemma_slot_after_add(s0, pa.len(), (i - pa.len()) as nat);
        }
    }
    lemma_slot_after_add(s0, pa.len(), pb.len());
}
} // verus!
