use std::cmp::Ordering;

use hypervox::index_set::IndexSet;

fn elements(s: &IndexSet) -> Vec<usize> {
    let mut it = s.iter();
    let mut out = Vec::new();
    while let Some(x) = it.next() {
        out.push(x);
    }
    out
}

fn set_of(slots: &[usize]) -> IndexSet {
    let mut s = IndexSet::default();
    for &i in slots {
        s.insert(i, true);
    }
    s
}

#[test]
fn elements_are_ascending_and_complete() {
    let s = set_of(&[200, 3, 64, 0, 127]);
    assert_eq!(elements(&s), vec![0, 3, 64, 127, 200]);
    assert_eq!(s.count_ones(), 5);
}

#[test]
fn equal_sets_list_the_same_elements() {
    let a = IndexSet::Heap(vec![0b1010, 0, 0, 0]);
    let b = IndexSet::Small(0b1010);
    assert!(a == b);
    assert_eq!(elements(&a), elements(&b));
}

#[test]
fn order_follows_the_numbers_of_the_words() {
    assert_eq!(IndexSet::Medium(5).cmp(&IndexSet::Medium(9)), Ordering::Less);
    assert_eq!(IndexSet::Medium(9).cmp(&IndexSet::Medium(5)), Ordering::Greater);
    assert_eq!(IndexSet::Medium(7).cmp(&IndexSet::Small(7)), Ordering::Equal);
    assert_eq!(IndexSet::Small(u32::MAX).cmp(&IndexSet::Medium(1 << 32)), Ordering::Less);
}

#[test]
fn order_is_transitive_and_antisymmetric() {
    let a = set_of(&[1, 2]);
    let b = set_of(&[3]);
    let c = set_of(&[0, 150]);
    assert_eq!(a.cmp(&b), Ordering::Less);
    assert_eq!(b.cmp(&c), Ordering::Less);
    assert_eq!(a.cmp(&c), Ordering::Less);
    assert_eq!(c.cmp(&a), Ordering::Greater);
    assert_eq!(a.cmp(&a), Ordering::Equal);
    assert!(a < c);
    assert_eq!(a.partial_cmp(&b), Some(Ordering::Less));
}

#[test]
fn shift_up_then_down_is_identity() {
    let s = set_of(&[0, 5, 63, 64, 129]);
    for r in [0, 1, 31, 64, 65, 200] {
        assert!(((s.clone() << r) >> r) == s);
    }
}

#[test]
fn shift_down_then_up_keeps_high_slots() {
    let s = set_of(&[0, 5, 63, 64, 129]);
    assert!(((s.clone() >> 6) << 6) == set_of(&[63, 64, 129]));
    assert!(((s.clone() >> 200) << 200).is_empty());
}

#[test]
fn iterator_ends_meet_without_repeating() {
    let s = set_of(&[1, 2, 3]);
    let mut it = s.iter();
    assert_eq!(it.len(), 3);
    assert_eq!(it.next(), Some(1));
    assert_eq!(it.next_back(), Some(3));
    assert_eq!(it.len(), 1);
    assert_eq!(it.next(), Some(2));
    assert_eq!(it.next_back(), None);
    assert_eq!(it.next(), None);

    let s = set_of(&[1, 70]);
    let mut it = s.iter();
    assert_eq!(it.next(), Some(1));
    assert_eq!(it.next_back(), Some(70));
    assert_eq!(it.next(), None);
    assert_eq!(it.size_hint(), (0, Some(0)));

    let s = set_of(&[5, 300]);
    let mut it = s.iter();
    assert_eq!(it.next_back(), Some(300));
    assert_eq!(it.next_back(), Some(5));
    assert_eq!(it.next(), None);
}

#[test]
fn chunks_of_each_representation() {
    assert_eq!(Vec::<u64>::from(IndexSet::Small(7)), vec![7]);
    assert_eq!(Vec::<u64>::from(IndexSet::Medium(1 << 40)), vec![1 << 40]);
    assert_eq!(Vec::<u64>::from(IndexSet::Large((3u128 << 64) | 1)), vec![1, 3]);
    assert_eq!(Vec::<u64>::from(IndexSet::Heap(vec![1, 2, 3])), vec![1, 2, 3]);
}

#[test]
fn insert_then_contains_and_remove() {
    let mut s = IndexSet::default();
    for i in [0, 31, 32, 63, 64, 127, 128, 500] {
        s.insert(i, true);
        assert!(s.contains(i));
    }
    assert_eq!(s.count_ones(), 8);
    s.insert(500, false);
    assert!(!s.contains(500));
    assert!(!s.contains(1000));
    assert_eq!(s.count_ones(), 7);
}

#[test]
fn union_and_intersection_of_sets() {
    let a = set_of(&[1, 100, 300]);
    let b = set_of(&[100, 2]);
    assert!((a.clone() | b.clone()) == set_of(&[1, 2, 100, 300]));
    assert!((a.clone() & b.clone()) == set_of(&[100]));
    assert!(matches!(a & b, IndexSet::Large(_)));
}

#[test]
fn minimize_keeps_the_slots() {
    let s = IndexSet::Heap(vec![0, 1, 0, 0]).minimized();
    assert!(matches!(s, IndexSet::Large(_)));
    assert!(s.contains(64));
    assert_eq!(s.count_ones(), 1);
}

#[test]
fn cloned_iterator_goes_on_from_the_same_place() {
    let s = set_of(&[4, 90, 130]);
    let mut it = s.iter();
    assert_eq!(it.next(), Some(4));
    let mut copy = it.clone();
    assert_eq!(copy.next(), Some(90));
    assert_eq!(copy.next_back(), Some(130));
    assert_eq!(copy.next(), None);
    assert_eq!(it.len(), 2);
    assert_eq!(it.next(), Some(90));
}

#[test]
fn shift_up_keeps_or_grows_the_variant() {
    assert!(matches!(IndexSet::Small(1) << 40, IndexSet::Medium(_)));
    assert!(matches!(IndexSet::Medium(1) << 10, IndexSet::Medium(_)));
    assert!(matches!(IndexSet::Small(1) << 100, IndexSet::Large(_)));
    assert!(matches!(IndexSet::Large(1) << 1, IndexSet::Large(_)));
    match IndexSet::Small(1) << 200 {
        IndexSet::Heap(v) => assert_eq!(v, vec![0, 0, 0, 1 << 8]),
        _ => panic!("expected Heap variant"),
    }
    match IndexSet::Heap(vec![u64::MAX, 0, 0]) << 1 {
        IndexSet::Heap(v) => assert_eq!(v, vec![u64::MAX - 1, 1, 0]),
        _ => panic!("expected Heap variant"),
    }
    match IndexSet::Heap(vec![0, 0, 1 << 63]) << 1 {
        IndexSet::Heap(v) => assert_eq!(v, vec![0, 0, 0, 1]),
        _ => panic!("expected Heap variant"),
    }
}

#[test]
fn minimal_form_depends_on_the_slots_only() {
    let forms = [
        IndexSet::Heap(vec![1 << 40, 0, 0, 0]),
        IndexSet::Large(1 << 40),
        IndexSet::Medium(1 << 40),
    ];
    for f in forms {
        let m = f.minimized();
        assert!(matches!(m, IndexSet::Medium(x) if x == 1 << 40));
    }
    let a = IndexSet::Heap(vec![0, 0, 5, 0, 0]).minimized();
    let b = (IndexSet::Small(5) << 128).minimized();
    assert_eq!(Vec::<u64>::from(a), vec![0, 0, 5]);
    assert_eq!(Vec::<u64>::from(b), vec![0, 0, 5]);
}

#[test]
fn each_variant_holds_only_its_slots() {
    let small = IndexSet::Small(u32::MAX);
    assert!(small.contains(31) && !small.contains(32));
    let medium = IndexSet::Medium(u64::MAX);
    assert!(medium.contains(63) && !medium.contains(64));
    let large = IndexSet::Large(u128::MAX);
    assert!(large.contains(127) && !large.contains(128));
    assert_eq!(large.count_ones(), 128);
}

#[test]
fn interleaved_iteration_yields_each_slot_once() {
    let slots = [0usize, 3, 31, 32, 64, 100, 127, 128, 200, 255];
    let s = set_of(&slots);
    for pattern in 0u32..1024 {
        let mut it = s.iter();
        let mut fronts = Vec::new();
        let mut backs = Vec::new();
        let mut ended = false;
        for step in 0..12 {
            let front = (pattern >> (step % 10)) & 1 == 1;
            let got = if front { it.next() } else { it.next_back() };
            match got {
                Some(v) => {
                    assert!(!ended);
                    if front {
                        fronts.push(v);
                    } else {
                        backs.push(v);
                    }
                }
                None => ended = true,
            }
            assert_eq!(it.len(), slots.len() - fronts.len() - backs.len());
        }
        assert!(fronts.windows(2).all(|w| w[0] < w[1]));
        assert!(backs.windows(2).all(|w| w[0] > w[1]));
        let mut all: Vec<usize> = fronts.iter().chain(backs.iter().rev()).copied().collect();
        assert_eq!(all, slots.to_vec());
        all.dedup();
        assert_eq!(all.len(), slots.len());
    }
}
