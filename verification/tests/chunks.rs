use hypervox::chunks::{chunk_ranges, worker_chunks};

#[test]
fn chunk_ranges_rounds_run_length_up() {
    assert_eq!(chunk_ranges(10, 3), vec![(0, 4), (4, 8), (8, 10)]);
    assert_eq!(chunk_ranges(9, 3), vec![(0, 3), (3, 6), (6, 9)]);
}

#[test]
fn chunk_ranges_more_parts_than_items() {
    assert_eq!(chunk_ranges(2, 4), vec![(0, 1), (1, 2)]);
    assert_eq!(chunk_ranges(1, 8), vec![(0, 1)]);
}

#[test]
fn chunk_ranges_single_part() {
    assert_eq!(chunk_ranges(7, 1), vec![(0, 7)]);
}

#[test]
fn worker_chunks_cover_the_range_in_order() {
    let r = worker_chunks(1000);
    assert!(!r.is_empty());
    assert_eq!(r[0].0, 0);
    assert_eq!(r[r.len() - 1].1, 1000);
    for w in r.windows(2) {
        assert_eq!(w[0].1, w[1].0);
    }
    for &(a, b) in &r {
        assert!(a < b);
    }
}
