use workpool::gather::{add_all, gather_by_index};

#[test]
fn places_results_by_tag_whatever_the_order() {
    let results = vec![(2usize, "c"), (0usize, "a"), (1usize, "b")];
    let out = gather_by_index(results, 3).unwrap();
    assert_eq!(out, vec!["a", "b", "c"]);
}

#[test]
fn in_order_arrival_places_the_same() {
    let r1 = vec![(0usize, 10), (1usize, 20), (2usize, 30)];
    let r2 = vec![(2usize, 30), (1usize, 20), (0usize, 10)];
    assert_eq!(gather_by_index(r1, 3), gather_by_index(r2, 3));
}

#[test]
fn missing_result_fails() {
    let results = vec![(0usize, 1), (1usize, 2)];
    assert_eq!(gather_by_index(results, 3), None);
}

#[test]
fn duplicate_tag_fails() {
    let results = vec![(0usize, 1), (0usize, 2), (1usize, 3)];
    assert_eq!(gather_by_index(results, 3), None);
}

#[test]
fn out_of_range_tag_fails() {
    let results = vec![(0usize, 1), (5usize, 2), (1usize, 3)];
    assert_eq!(gather_by_index(results, 3), None);
}

#[test]
fn gathering_nothing_succeeds() {
    let results: Vec<(usize, u32)> = Vec::new();
    assert_eq!(gather_by_index(results, 0), Some(Vec::new()));
}

#[test]
fn counter_increments_sum_in_any_order() {
    // three jobs add 10, 20 and 30 to a shared counter; the result is 60
    // whatever interleaving the scheduler picks
    let orders = [[10u64, 20, 30], [10, 30, 20], [20, 10, 30], [20, 30, 10], [30, 10, 20], [30, 20, 10]];
    for order in orders {
        assert_eq!(add_all(0, &order.to_vec()), 60);
    }
}

#[test]
fn counter_starts_from_its_old_value() {
    assert_eq!(add_all(7, &vec![1, 2, 3]), 13);
    assert_eq!(add_all(7, &Vec::new()), 7);
}
