use algos::knapsack::{knapsack, try_knapsack};

#[test]
fn test_knapsack() {
    assert_eq!(knapsack(&[2, 5, 6], &[5, 5, 5], 10), (11, vec![2, 1]));

    assert_eq!(knapsack(&[2, 5, 6], &[5, 5, 5], 15), (13, vec![2, 1, 0]));

    assert_eq!(knapsack(&[2, 5, 6], &[5, 5, 5], 9), (6, vec![2]));

    assert_eq!(knapsack(&[3, 5, 6, 9], &[1, 5, 5, 9], 10), (12, vec![3, 0]));
}

#[test]
fn test_knapsack_zero_capacity() {
    assert_eq!(knapsack(&[2, 5, 6], &[5, 5, 5], 0), (0, vec![]));
}

#[test]
fn test_try_knapsack_rejects_mismatched_lengths() {
    assert_eq!(try_knapsack(&[1, 2], &[1], 5), None);
    assert_eq!(try_knapsack(&[], &[1], 5), None);
}

#[test]
fn test_try_knapsack_rejects_zero_weight() {
    assert_eq!(try_knapsack(&[4, 2], &[1, 0], 5), None);
}

#[test]
fn test_try_knapsack_accepts_valid_input() {
    assert_eq!(try_knapsack(&[2, 5, 6], &[5, 5, 5], 10), Some((11, vec![2, 1])));
}

#[test]
fn test_knapsack_value_monotone_in_capacity() {
    let v = [3, 5, 6, 9];
    let w = [1, 5, 5, 9];
    let mut previous = 0;
    for capacity in 0..21 {
        let (value, _) = knapsack(&v, &w, capacity);
        assert!(value >= previous);
        previous = value;
    }
}

#[test]
fn test_knapsack_keeps_earlier_item_on_tie() {
    // Both items have the same value and weight; only one fits. The
    // earlier item wins the tie, and a later equal candidate never
    // displaces it.
    assert_eq!(knapsack(&[5, 5], &[4, 4], 4), (5, vec![0]));
}

#[test]
fn test_knapsack_uses_each_item_at_most_once() {
    // Capacity would admit the single item three times over, but the
    // 0/1 rule allows it only once.
    assert_eq!(knapsack(&[5], &[3], 9), (5, vec![0]));
}
