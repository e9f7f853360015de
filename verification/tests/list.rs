use algos::list::{cons, iter, nil, List};
use std::rc::Rc;

fn collect_list<T>(xs: Rc<List<T>>) -> Vec<Rc<T>> {
    let mut it = iter(xs);
    let mut v = Vec::new();
    while let Some(x) = it.next() {
        v.push(x);
    }
    v
}

#[test]
fn test_cons() {
    let mut my_list = vec![nil(); 4];
    my_list[2] = cons(99, my_list[1].clone());
    my_list[3] = cons(100, my_list[2].clone());
    println!("{:?}", my_list[3]);
    assert_eq!(my_list[3], cons(100, cons(99, nil())));
}

#[test]
fn test_collect() {
    let xs: Rc<List<u32>> = cons(100, cons(99, nil()));
    let v = collect_list(xs);
    println!("{:?}", v);
    assert_eq!(v, vec![Rc::new(100), Rc::new(99)]);
}

#[test]
fn test_prepend_shares_tail() {
    let tail = cons(99, nil());
    let a = cons(100, tail.clone());
    let b = cons(7, tail.clone());
    assert_eq!(collect_list(a), vec![Rc::new(100), Rc::new(99)]);
    assert_eq!(collect_list(b), vec![Rc::new(7), Rc::new(99)]);
    assert_eq!(collect_list(tail.clone()), vec![Rc::new(99)]);
    assert_eq!(collect_list(tail), vec![Rc::new(99)]);
}

#[test]
fn test_iter_restartable() {
    let xs: Rc<List<u32>> = cons(1, cons(2, cons(3, nil())));
    let first = collect_list(xs.clone());
    let second = collect_list(xs);
    assert_eq!(first, second);
}

#[test]
fn test_empty_list_iterates_to_nothing() {
    let xs: Rc<List<u32>> = nil();
    assert!(collect_list(xs).is_empty());
}
