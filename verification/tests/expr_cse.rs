use hypervox::expr_tree::Node;
use hypervox::index_set::IndexSet;

fn var(i: usize) -> Box<Node> {
    Box::new(Node::Var(i))
}

fn num(v: f64) -> Box<Node> {
    Box::new(Node::Num(v.to_bits()))
}

fn set_of(slots: &[usize]) -> IndexSet {
    let mut s = IndexSet::default();
    for &i in slots {
        s.insert(i, true);
    }
    s
}

fn read(slot: usize, deps: &[usize]) -> Box<Node> {
    Box::new(Node::CseRef(slot, set_of(deps)))
}

fn add(a: Box<Node>, b: Box<Node>) -> Box<Node> {
    Box::new(Node::Add(a, b))
}

fn mul(a: Box<Node>, b: Box<Node>) -> Box<Node> {
    Box::new(Node::Mul(a, b))
}

#[test]
fn cse_extracts_repeated_sum() {
    // (x+1)*(x+1)
    let mut node = *mul(add(var(0), num(1.0)), add(var(0), num(1.0)));
    node.cse();
    let expected = Node::Let(0, add(var(0), num(1.0)), mul(read(0, &[0]), read(0, &[0])));
    assert_eq!(node, expected);
    assert_eq!(node.cse_slots(), 1);
}

#[test]
fn cse_extracts_repeated_product() {
    // x*x + x*x
    let mut node = *add(mul(var(0), var(0)), mul(var(0), var(0)));
    node.cse();
    let expected = Node::Let(0, mul(var(0), var(0)), add(read(0, &[0]), read(0, &[0])));
    assert_eq!(node, expected);
}

#[test]
fn cse_first_candidate_in_post_order() {
    // (x+1)*(x+1) + (x+1)
    let mut node = *add(mul(add(var(0), num(1.0)), add(var(0), num(1.0))), add(var(0), num(1.0)));
    node.cse();
    let expected = Node::Let(
        0,
        add(var(0), num(1.0)),
        add(mul(read(0, &[0]), read(0, &[0])), read(0, &[0])),
    );
    assert_eq!(node, expected);
}

#[test]
fn cse_nested_takes_innermost_first() {
    // sin(x*x + y*y) + cos(x*x + y*y), with sin and cos as functions 0 and 1
    let inner = || add(mul(var(0), var(0)), mul(var(1), var(1)));
    let mut node = *add(Box::new(Node::F1(0, inner())), Box::new(Node::F1(1, inner())));
    node.cse();
    let shared = || add(read(0, &[0]), read(1, &[1]));
    let expected = Node::Let(
        1,
        mul(var(1), var(1)),
        Box::new(Node::Let(
            0,
            mul(var(0), var(0)),
            add(Box::new(Node::F1(0, shared())), Box::new(Node::F1(1, shared()))),
        )),
    );
    assert_eq!(node, expected);
    assert_eq!(node.cse_slots(), 2);
}

#[test]
fn cse_treats_signed_zeros_as_equal() {
    let mut node = *mul(add(var(0), num(0.0)), add(var(0), num(-0.0)));
    node.cse();
    let expected = Node::Let(0, add(var(0), num(0.0)), mul(read(0, &[0]), read(0, &[0])));
    assert_eq!(node, expected);
}

#[test]
fn cse_never_extracts_nan() {
    let original = *mul(add(var(0), num(f64::NAN)), add(var(0), num(f64::NAN)));
    let mut node = *mul(add(var(0), num(f64::NAN)), add(var(0), num(f64::NAN)));
    assert!(!node.cse_one_pass(0));
    assert_eq!(node, original);
    node.cse();
    assert_eq!(node, original);
}

#[test]
fn cse_leaves_unique_tree_alone() {
    // x + y + z
    let original = *add(add(var(0), var(1)), var(2));
    let mut node = *add(add(var(0), var(1)), var(2));
    assert!(!node.cse_one_pass(3));
    assert_eq!(node, original);
    node.cse();
    assert_eq!(node, original);
    assert_eq!(node.cse_slots(), 0);
}

#[test]
fn cse_one_pass_binds_given_slot() {
    let mut node = *add(mul(var(2), var(3)), mul(var(2), var(3)));
    assert!(node.cse_one_pass(7));
    let expected = Node::Let(7, mul(var(2), var(3)), add(read(7, &[2, 3]), read(7, &[2, 3])));
    assert_eq!(node, expected);
    assert!(!node.cse_one_pass(8));
    assert_eq!(node, expected);
}

#[test]
fn cse_twice_changes_nothing() {
    let mut node = *add(mul(var(0), var(1)), mul(var(0), var(1)));
    node.cse();
    let once = Node::Let(0, mul(var(0), var(1)), add(read(0, &[0, 1]), read(0, &[0, 1])));
    assert_eq!(node, once);
    node.cse();
    assert_eq!(node, once);
}

#[test]
fn cse_keeps_dependencies() {
    let mut node = *add(mul(var(0), var(4)), add(mul(var(0), var(4)), var(2)));
    let before = node.depends_on();
    node.cse();
    assert_eq!(node.depends_on(), before);
    assert_eq!(before, set_of(&[0, 2, 4]));
}

#[test]
fn hoist_levels_without_invariants() {
    // x*y + z over x, y, z: every sub-tree reads the innermost axis or is a leaf
    let original = *add(mul(var(0), var(1)), var(2));
    let mut node = *add(mul(var(0), var(1)), var(2));
    let (groups, slots) = node.hoist_levels(&[0, 1, 2]);
    assert!(groups.is_empty());
    assert_eq!(slots, 0);
    assert_eq!(node, original);
}

#[test]
fn hoist_levels_two_levels() {
    // sin(z)*y + x over x, y, z
    let mut node = *add(mul(Box::new(Node::F1(0, var(2))), var(1)), var(0));
    let (groups, slots) = node.hoist_levels(&[0, 1, 2]);
    assert_eq!(groups.len(), 2);
    assert_eq!(groups[0].0, 2);
    assert_eq!(groups[0].1, Node::Let(0, Box::new(Node::F1(0, var(2))), num(0.0)));
    assert_eq!(groups[1].0, 1);
    assert_eq!(groups[1].1, Node::Let(1, mul(read(0, &[2]), var(1)), num(0.0)));
    assert_eq!(node, *add(read(1, &[1, 2]), var(0)));
    assert_eq!(slots, 2);
}

#[test]
fn hoist_levels_starts_after_used_slots() {
    // Let(0, x*x, y*z + slot 0) over x, y: y*z is hoisted into slot 1
    let mut node = Node::Let(0, mul(var(0), var(0)), add(mul(var(1), var(2)), read(0, &[0])));
    let (groups, slots) = node.hoist_levels(&[0, 1]);
    assert_eq!(groups.len(), 1);
    assert_eq!(groups[0].0, 1);
    assert_eq!(groups[0].1, Node::Let(1, mul(var(1), var(2)), num(0.0)));
    assert_eq!(node, Node::Let(0, mul(var(0), var(0)), add(read(1, &[1, 2]), read(0, &[0]))));
    assert_eq!(slots, 2);
}

#[test]
fn hoist_levels_no_spatial_dims() {
    let original = *add(mul(var(1), var(2)), var(0));
    let mut node = *add(mul(var(1), var(2)), var(0));
    let (groups, slots) = node.hoist_levels(&[]);
    assert!(groups.is_empty());
    assert_eq!(slots, 0);
    assert_eq!(node, original);
}

#[test]
fn node_eq_compares_constants_as_floats() {
    let a = *add(var(0), num(0.0));
    let b = *add(var(0), num(-0.0));
    assert!(a.node_eq(&b));
    assert_ne!(a, b);
    let n = *add(var(0), num(f64::NAN));
    assert!(!n.node_eq(&n));
    assert!(!a.node_eq(&*add(var(1), num(0.0))));
    assert!(Node::CseRef(2, set_of(&[1])).node_eq(&Node::CseRef(2, set_of(&[1]))));
    assert!(!Node::CseRef(2, set_of(&[1])).node_eq(&Node::CseRef(2, set_of(&[0]))));
}
