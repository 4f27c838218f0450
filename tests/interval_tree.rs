use offer_search::interval_tree::{Interval, IntervalTree};

#[test]
fn test_interval_insertion_and_query_contained() {
    let mut tree = IntervalTree::<&str>::new();

    tree.insert(Interval::new(10, 20), "Event A");
    tree.insert(Interval::new(15, 25), "Event B");
    tree.insert(Interval::new(17, 19), "Event C");
    tree.insert(Interval::new(30, 40), "Event D");

    // Query for intervals fully contained within [14, 18].
    let query_interval = Interval::new(14, 18);
    let results: Vec<&str> = tree.query(&query_interval).collect_vec();

    let expected: Vec<&str> = vec![];
    assert_eq!(results, expected);
}

#[test]
fn test_no_contained_intervals() {
    let mut tree = IntervalTree::<&str>::new();

    tree.insert(Interval::new(1, 5), "Interval 1");
    tree.insert(Interval::new(6, 10), "Interval 2");
    tree.insert(Interval::new(11, 15), "Interval 3");

    let query_interval = Interval::new(16, 20);
    let results: Vec<&str> = tree.query(&query_interval).collect_vec();

    assert!(results.is_empty());
}

#[test]
fn test_fully_contained_intervals() {
    let mut tree = IntervalTree::<&str>::new();

    tree.insert(Interval::new(10, 20), "Interval A");
    tree.insert(Interval::new(12, 18), "Interval B");
    tree.insert(Interval::new(15, 25), "Interval C");
    tree.insert(Interval::new(30, 40), "Interval D");

    let query_interval = Interval::new(10, 25);
    let results: Vec<&str> = tree.query(&query_interval).collect_vec();

    let mut expected = vec!["Interval A", "Interval B", "Interval C"];
    expected.sort();
    let mut results_sorted = results.clone();
    results_sorted.sort();

    assert_eq!(results_sorted, expected);
}

#[test]
fn test_exact_match() {
    let mut tree = IntervalTree::<&str>::new();

    tree.insert(Interval::new(10, 20), "Interval A");

    let query_interval = Interval::new(10, 20);
    let results: Vec<&str> = tree.query(&query_interval).collect_vec();

    assert_eq!(results, vec!["Interval A"]);
}

#[test]
fn test_zero_length_interval_containment() {
    let mut tree = IntervalTree::<&str>::new();

    tree.insert(Interval::new(10, 10), "Zero-Length Interval");

    let query_interval = Interval::new(5, 15);
    let results: Vec<&str> = tree.query(&query_interval).collect_vec();

    assert_eq!(results, vec!["Zero-Length Interval"]);
}

#[test]
fn test_large_interval_contains_smaller_intervals() {
    let mut tree = IntervalTree::<i64>::new();

    for i in 0..100 {
        tree.insert(Interval::new(i * 10, i * 10 + 5), i);
    }

    let query_interval = Interval::new(200, 500);
    let results: Vec<i64> = tree.query(&query_interval).collect_vec();

    // Expected intervals are those where (i*10 >= 200) && (i*10+5 <= 500)
    let expected: Vec<i64> = (20..50).collect();

    assert_eq!(results, expected);
}

#[test]
fn query_results_come_out_one_by_one() {
    let mut tree = IntervalTree::<i64>::new();
    tree.insert(Interval::new(5, 6), 2);
    tree.insert(Interval::new(1, 2), 1);
    tree.insert(Interval::new(9, 30), 3);
    let mut it = tree.query(&Interval::new(0, 10));
    assert_eq!(it.next(), Some(1));
    assert_eq!(it.next(), Some(2));
    assert_eq!(it.next(), None);
}

#[test]
fn clear_empties_the_tree() {
    let mut tree = IntervalTree::<i64>::new();
    tree.insert(Interval::new(1, 2), 1);
    tree.clear();
    assert!(tree.query(&Interval::new(0, 10)).collect_vec().is_empty());
}
