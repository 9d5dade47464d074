use hypervox::expr_levels::{group_level, invariant_masks};
use hypervox::expr_tree::Node;
use hypervox::index_set::IndexSet;

fn var(i: usize) -> Box<Node> {
    Box::new(Node::Var(i))
}

fn set_of(slots: &[usize]) -> IndexSet {
    let mut s = IndexSet::default();
    for &i in slots {
        s.insert(i, true);
    }
    s
}

#[test]
fn cse_slots_counts_bound_and_read_slots() {
    let node = Node::Let(0, Box::new(Node::Num(1.0f64.to_bits())), var(0));
    assert_eq!(node.cse_slots(), 1);
    let node = Node::Add(Box::new(Node::CseRef(4, IndexSet::default())), var(9));
    assert_eq!(node.cse_slots(), 5);
    assert_eq!(Node::Var(3).cse_slots(), 0);
    let node = Node::Let(usize::MAX, var(0), var(1));
    assert_eq!(node.cse_slots(), usize::MAX);
}

#[test]
fn depends_on_lists_variables() {
    let node = Node::Add(var(0), var(2));
    let deps = node.depends_on();
    assert!(deps.contains(0));
    assert!(!deps.contains(1));
    assert!(deps.contains(2));
    let node = Node::F2(3, Box::new(Node::CseRef(0, set_of(&[5, 200]))), Box::new(Node::Neg(var(7))));
    assert!(node.depends_on() == set_of(&[5, 7, 200]));
    assert!(Node::Num(0).depends_on().is_empty());
}

#[test]
fn remap_changes_reads_only() {
    let mut node = Node::Let(
        1,
        Box::new(Node::CseRef(1, IndexSet::default())),
        Box::new(Node::Mul(Box::new(Node::CseRef(1, IndexSet::default())), var(0))),
    );
    node.remap_cse_slot(1, 3);
    assert_eq!(
        node,
        Node::Let(
            1,
            Box::new(Node::CseRef(3, IndexSet::default())),
            Box::new(Node::Mul(Box::new(Node::CseRef(3, IndexSet::default())), var(0))),
        )
    );
}

#[test]
fn fold_drops_alias_bindings() {
    let d = set_of(&[1]);
    let mut node = Node::Sub(
        Box::new(Node::Let(
            1,
            Box::new(Node::CseRef(0, d.clone())),
            Box::new(Node::Add(Box::new(Node::CseRef(1, d.clone())), var(0))),
        )),
        Box::new(Node::Let(2, Box::new(Node::CseRef(2, d.clone())), var(4))),
    );
    node.fold_cse_aliases();
    assert_eq!(
        node,
        Node::Sub(
            Box::new(Node::Add(Box::new(Node::CseRef(0, d.clone())), var(0))),
            Box::new(Node::Let(2, Box::new(Node::CseRef(2, d.clone())), var(4))),
        )
    );
}

#[test]
fn collect_invariants_hoists_outermost_free_subtrees() {
    // (y * z) + x, with x the inner dimension: y * z is hoisted.
    let mut node = Node::Add(Box::new(Node::Mul(var(1), var(2))), var(0));
    let mut slot = 5;
    let mut pieces = Vec::new();
    node.collect_invariants(&set_of(&[0]), &mut slot, &mut pieces);
    assert_eq!(node, Node::Add(Box::new(Node::CseRef(5, set_of(&[1, 2]))), var(0)));
    assert_eq!(slot, 6);
    assert_eq!(pieces, vec![(5, Node::Mul(var(1), var(2)))]);
}

#[test]
fn collect_invariants_keeps_leaves_and_dependent_trees() {
    let mut node = Node::Mul(var(0), Box::new(Node::Num(2.0f64.to_bits())));
    let mut slot = 0;
    let mut pieces = Vec::new();
    node.collect_invariants(&set_of(&[0]), &mut slot, &mut pieces);
    assert_eq!(node, Node::Mul(var(0), Box::new(Node::Num(2.0f64.to_bits()))));
    assert_eq!(slot, 0);
    assert!(pieces.is_empty());
}

#[test]
fn collect_invariants_folds_the_aliases_it_makes() {
    // let s3 = sin(y) in s3 * x: sin(y) is hoisted into slot 7, the binding
    // becomes an alias of slot 7 and is folded away.
    let mut node = Node::Let(
        3,
        Box::new(Node::F1(0, var(1))),
        Box::new(Node::Mul(Box::new(Node::CseRef(3, set_of(&[1]))), var(0))),
    );
    let mut slot = 7;
    let chain = node.collect_invariant_chain(&set_of(&[0]), &mut slot);
    assert_eq!(node, Node::Mul(Box::new(Node::CseRef(7, set_of(&[1]))), var(0)));
    assert_eq!(slot, 8);
    assert_eq!(chain, Some(Node::Let(7, Box::new(Node::F1(0, var(1))), Box::new(Node::Num(0)))));

    let mut plain = Node::Var(0);
    let mut slot = 0;
    assert_eq!(plain.collect_invariant_chain(&set_of(&[0]), &mut slot), None);
}

#[test]
fn masks_largest_first() {
    let masks = invariant_masks(&[0, 1, 2]);
    let expected = [set_of(&[0, 2]), set_of(&[0, 1]), set_of(&[0])];
    assert_eq!(masks.len(), expected.len());
    for (m, e) in masks.iter().zip(expected.iter()) {
        assert!(m == e);
    }
    assert!(invariant_masks(&[4]).is_empty());
    assert_eq!(invariant_masks(&[0, 1, 2, 3]).len(), 7);
}

#[test]
fn group_level_counts_leading_dimensions() {
    assert_eq!(group_level(&[0, 1, 2], &set_of(&[0, 1])), 2);
    assert_eq!(group_level(&[0, 1, 2], &set_of(&[0, 2])), 1);
    assert_eq!(group_level(&[0, 1, 2], &set_of(&[1, 2])), 0);
    assert_eq!(group_level(&[0, 1, 2], &set_of(&[0, 1, 2])), 3);
}

#[test]
fn hoisted_pieces_take_consecutive_slots() {
    let tree = || {
        Node::Add(
            Box::new(Node::Mul(var(1), var(2))),
            Box::new(Node::Sub(var(0), Box::new(Node::F1(4, var(1))))),
        )
    };
    let mut node = tree();
    let mut slot = 5;
    let mut pieces = Vec::new();
    node.collect_invariants(&set_of(&[0]), &mut slot, &mut pieces);
    assert_eq!(
        pieces,
        vec![(5, Node::Mul(var(1), var(2))), (6, Node::F1(4, var(1)))]
    );
    assert_eq!(slot, 7);

    let mut node = tree();
    let mut slot = usize::MAX;
    let mut pieces = Vec::new();
    node.collect_invariants(&set_of(&[0]), &mut slot, &mut pieces);
    assert_eq!(pieces[0].0, usize::MAX);
    assert_eq!(pieces[1].0, 0);
    assert_eq!(slot, 1);
}
