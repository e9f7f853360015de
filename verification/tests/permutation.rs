use algos::permutation::{next_permutation, permute};

fn expected_list() -> Vec<Vec<usize>> {
    vec![
        vec![1, 2, 3, 4],
        vec![1, 2, 4, 3],
        vec![1, 3, 2, 4],
        vec![1, 3, 4, 2],
        vec![1, 4, 2, 3],
        vec![1, 4, 3, 2],
        vec![2, 1, 3, 4],
        vec![2, 1, 4, 3],
        vec![2, 3, 1, 4],
        vec![2, 3, 4, 1],
        vec![2, 4, 1, 3],
        vec![2, 4, 3, 1],
        vec![3, 1, 2, 4],
        vec![3, 1, 4, 2],
        vec![3, 2, 1, 4],
        vec![3, 2, 4, 1],
        vec![3, 4, 1, 2],
        vec![3, 4, 2, 1],
        vec![4, 1, 2, 3],
        vec![4, 1, 3, 2],
        vec![4, 2, 1, 3],
        vec![4, 2, 3, 1],
        vec![4, 3, 1, 2],
        vec![4, 3, 2, 1],
    ]
}

#[test]
fn test_permute() {
    let mut xs = vec![1, 2, 3, 4];
    for expected in expected_list().iter().skip(1) {
        permute(&mut xs);
        assert_eq!(*expected, xs);
    }
}

#[test]
fn test_next_permutation() {
    let list = expected_list();
    for (a, b) in list.iter().zip(list.iter().skip(1)) {
        assert_eq!(next_permutation(a), b.to_vec());
    }
}
