use operation_research::notes::{fibonacci, knapsack_daynamic_programming, knapsack_max_value};

#[test]
fn fibonacci_small_values() {
    assert_eq!(fibonacci(0), 0);
    assert_eq!(fibonacci(1), 1);
    assert_eq!(fibonacci(2), 1);
    assert_eq!(fibonacci(10), 55);
}

#[test]
fn fibonacci_large_value() {
    assert_eq!(fibonacci(50), 12586269025);
    assert_eq!(fibonacci(93), 12200160415121876738);
}

#[test]
fn knapsack_sample_instance() {
    assert_eq!(knapsack_daynamic_programming(), 13);
}

#[test]
fn knapsack_smaller_capacity() {
    let items = vec![(2, 3), (3, 4), (4, 5), (5, 8)];
    assert_eq!(knapsack_max_value(&items, 5), 8);
    assert_eq!(knapsack_max_value(&items, 9), 13);
}

#[test]
fn knapsack_item_too_heavy() {
    assert_eq!(knapsack_max_value(&vec![(5, 10)], 4), 0);
}

#[test]
fn knapsack_no_items() {
    assert_eq!(knapsack_max_value(&vec![], 7), 0);
}

#[test]
fn knapsack_best_selection_is_not_greedy() {
    let items = vec![(1, 1), (3, 4), (4, 5), (5, 7)];
    assert_eq!(knapsack_max_value(&items, 7), 9);
}
