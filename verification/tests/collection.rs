use algos::collection::uniq;

#[test]
fn test() {
    assert_eq!(uniq(vec![3, 2, 1, 2, 3, 1]), vec![1, 2, 3]);
}

#[test]
fn test_uniq_empty() {
    assert_eq!(uniq(vec![]), vec![]);
}

#[test]
fn test_uniq_all_equal() {
    assert_eq!(uniq(vec![7, 7, 7, 7]), vec![7]);
}

#[test]
fn test_uniq_already_sorted() {
    assert_eq!(uniq(vec![1, 2, 3]), vec![1, 2, 3]);
}
