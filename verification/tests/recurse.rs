use algos::recurse::{CountUp, Factorial, Fibonacci, Rec, Resumable};

fn fact(count: usize, acc: usize) -> Rec<Factorial, usize> {
    Rec::go(Factorial { count, acc })
}

fn fib(n: usize, a: usize, b: usize) -> Rec<Fibonacci, usize> {
    Rec::go(Fibonacci { n, a, b })
}

fn take(i: usize, acc: usize) -> Rec<CountUp, usize> {
    Rec::go(CountUp { remaining: i, acc })
}

#[test]
fn test_factorial_with_rec() {
    assert_eq!(fact(12, 1).run(), 479001600);
    assert_eq!(fact(13, 1).run(), 6227020800);
    assert_eq!(fact(14, 1).run(), 87178291200);
}

#[test]
fn test_fib_with_rec() {
    assert_eq!(fib(12, 1, 1).run(), 144);
}

#[test]
fn test_rec_stack() {
    assert_eq!(take(1000000, 0).run(), 1000000);
}

#[test]
fn test_factorial_of_zero() {
    assert_eq!(fact(0, 1).run(), 1);
}

#[test]
fn test_done_is_immediate() {
    let r: Rec<CountUp, usize> = Rec::done(5);
    assert_eq!(r.run(), 5);
}

#[test]
fn test_single_step() {
    let s = CountUp { remaining: 0, acc: 42 };
    match s.step() {
        Rec::Done(x) => assert_eq!(x, 42),
        Rec::Go(_) => panic!(),
    }
}
