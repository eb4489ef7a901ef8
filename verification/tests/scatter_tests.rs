use workpool::scatter::{chunk_ranges, even_ranges};

#[test]
fn chunks_cover_the_whole_input() {
    let r = chunk_ranges(10, 3);
    assert_eq!(r, vec![(0, 3), (3, 6), (6, 9), (9, 10)]);
}

#[test]
fn exact_division_has_no_short_chunk() {
    let r = chunk_ranges(9, 3);
    assert_eq!(r, vec![(0, 3), (3, 6), (6, 9)]);
}

#[test]
fn empty_input_has_no_chunks() {
    assert_eq!(chunk_ranges(0, 4), Vec::new());
}

#[test]
fn input_smaller_than_chunk_is_one_chunk() {
    assert_eq!(chunk_ranges(2, 100), vec![(0, 2)]);
}

#[test]
fn even_ranges_deal_equal_shares() {
    let r = even_ranges(1_000_000, 5);
    assert_eq!(r.len(), 5);
    for (i, (lo, hi)) in r.iter().enumerate() {
        assert_eq!(*lo, i * 200_000);
        assert_eq!(hi - lo, 200_000);
    }
}

#[test]
fn even_ranges_drop_the_remainder() {
    assert_eq!(even_ranges(10, 3), vec![(0, 3), (3, 6), (6, 9)]);
}
