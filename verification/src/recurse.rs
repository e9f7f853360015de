//! A trampoline: recursion expressed as data. A recursion-shaped
//! algorithm is written as a resumable state with a single-step
//! transition; a driver loop runs steps until a finished value appears,
//! so the call stack never grows with the recursion depth.

use vstd::prelude::*;

verus! {

/// One state of a recursion-shaped computation. `step` runs the body
/// once and either finishes or hands back the state of the next call.
///
/// `inv` names the states the computation can actually be in, `value`
/// the result driving the state yields, and `fuel` a bound on the steps
/// left; together they let the driver promise its result and its own
/// termination. A step that never made progress could not satisfy
/// `step`'s contract, so non-termination is the implementor's burden,
/// never the driver's.
pub trait Resumable<T>: Sized {
    /// Whether this state is a reachable state of the computation.
    spec fn inv(self) -> bool;

    /// The value the computation yields when driven from this state.
    spec fn value(self) -> T;

    /// An upper bound on the number of steps left from this state.
    spec fn fuel(self) -> nat;

    /// Runs one step: the final value, or the state of the next call.
    fn step(self) -> (r: Rec<Self, T>)
        requires
            self.inv(),
        ensures
            (match r {
                Rec::Done(x) => x == self.value(),
                Rec::Go(s) => s.inv() && s.value() == self.value() && s.fuel() < self.fuel(),
            }),
    ;
}

/// A trampolined computation: a finished value, or a suspended state
/// whose next step has yet to run. Driving it to completion consumes it.
pub enum Rec<S, T> {
    Done(T),
    Go(S),
}

impl<S, T> Rec<S, T> {
    /// Wraps an already-finished value.
    pub fn done(x: T) -> (r: Rec<S, T>)
        ensures
            r == Rec::<S, T>::Done(x),
    {
        Rec::Done(x)
    }

    /// Suspends `s` as the state of the next step to run.
    pub fn go(s: S) -> (r: Rec<S, T>)
        ensures
            r == Rec::<S, T>::Go(s),
    {
        Rec::Go(s)
    }
}

impl<S: Resumable<T>, T> Rec<S, T> {
    /// Whether the computation is in a reachable state.
    pub open spec fn inv(self) -> bool {
        match self {
            Rec::Done(_) => true,
            Rec::Go(s) => s.inv(),
        }
    }

    /// The value driving this computation yields.
    pub open spec fn value(self) -> T {
        match self {
            Rec::Done(x) => x,
            Rec::Go(s) => s.value(),
        }
    }

    /// A bound on the number of steps left.
    pub open spec fn fuel(self) -> nat {
        match self {
            Rec::Done(_) => 0,
            Rec::Go(s) => s.fuel() + 1,
        }
    }

    /// Drives the computation to its value with a loop: one live state
    /// at a time, in constant stack depth however many steps are chained.
    pub fn run(self) -> (r: T)
        requires
            self.inv(),
        ensures
            r == self.value(),
    {
        let mut cur = self;
        loop
            invariant
                cur.inv(),
                cur.value() == self.value(),
            decreases cur.fuel(),
        {
            match cur {
                Rec::Done(x) => {
                    return x;
                }
                Rec::Go(s) => {
                    cur = s.step();
                }
            }
        }
    }
}

/// The mathematical factorial.
pub open spec fn fact(n: nat) -> nat
    decreases n,
{
    if n == 0 {
        1
    } else {
        n * fact((n - 1) as nat)
    }
}

/// The value of the two-term recurrence that, from `(a, b)`, replaces the
/// pair with `(b, a + b)` until `n` counts down to 1, then yields `a`.
pub open spec fn fib_from(n: nat, a: nat, b: nat) -> nat
    decreases n,
{
    if n <= 1 {
        a
    } else {
        fib_from((n - 1) as nat, b, a + b)
    }
}

/// Whether every sum the two-term recurrence forms on its way down
/// stays within `usize`.
pub open spec fn fib_fits(n: nat, a: nat, b: nat) -> bool
    decreases n,
{
    if n <= 1 {
        true
    } else {
        a + b <= usize::MAX && fib_fits((n - 1) as nat, b, (a + b) as nat)
    }
}

proof fn lemma_fact_pos(n: nat)
    ensures
        fact(n) >= 1,
    decreases n,
{
    if n > 0 {
        lemma_fact_pos((n - 1) as nat);
        assert(n * fact((n - 1) as nat) >= 1) by (nonlinear_arith)
            requires
                n >= 1,
                fact((n - 1) as nat) >= 1,
        ;
    }
}

/// The counting recurrence: each step moves one unit from `remaining`
/// into `acc`; the result is the sum of the two.
pub struct CountUp {
    pub remaining: usize,
    pub acc: usize,
}

impl Resumable<usize> for CountUp {
    open spec fn inv(self) -> bool {
        self.acc + self.remaining <= usize::MAX
    }

    open spec fn value(self) -> usize {
        (self.acc + self.remaining) as usize
    }

    open spec fn fuel(self) -> nat {
        self.remaining as nat
    }

    fn step(self) -> (r: Rec<Self, usize>) {
        if self.remaining == 0 {
            Rec::done(self.acc)
        } else {
            Rec::go(
                CountUp { remaining: self.remaining - 1, acc: self.acc + 1 },
            )
        }
    }
}

/// Factorial as a trampolined state: from `(count, acc)` one step
/// multiplies `count` into `acc`; the result is `acc * count!`.
pub struct Factorial {
    pub count: usize,
    pub acc: usize,
}

impl Resumable<usize> for Factorial {
    open spec fn inv(self) -> bool {
        self.acc * fact(self.count as nat) <= usize::MAX
    }

    open spec fn value(self) -> usize {
        (self.acc * fact(self.count as nat)) as usize
    }

    open spec fn fuel(self) -> nat {
        self.count as nat
    }

    fn step(self) -> (r: Rec<Self, usize>) {
        if self.count == 0 {
            proof {
                assert(fact(self.count as nat) == 1);
                assert(self.acc * 1 == self.acc) by (nonlinear_arith);
            }
            Rec::done(self.acc)
        } else {
            proof {
                lemma_fact_pos((self.count - 1) as nat);
                assert(self.acc * self.count * fact((self.count - 1) as nat) == self.acc * fact(
                    self.count as nat,
                ) && self.acc * self.count <= self.acc * fact(self.count as nat)) by (
                nonlinear_arith)
                    requires
                        self.count >= 1,
                        fact(self.count as nat) == self.count * fact((self.count - 1) as nat),
                        fact((self.count - 1) as nat) >= 1,
                ;
            }
            Rec::go(
                Factorial { count: self.count - 1, acc: self.acc * self.count },
            )
        }
    }
}

/// The two-term recurrence: from `(n, a, b)` one step moves to
/// `(n - 1, b, a + b)`; at `n == 1` the result is `a`.
pub struct Fibonacci {
    pub n: usize,
    pub a: usize,
    pub b: usize,
}

impl Resumable<usize> for Fibonacci {
    open spec fn inv(self) -> bool {
        &&& self.n >= 1
        &&& fib_fits(self.n as nat, self.a as nat, self.b as nat)
        &&& fib_from(self.n as nat, self.a as nat, self.b as nat) <= usize::MAX
    }

    open spec fn value(self) -> usize {
        fib_from(self.n as nat, self.a as nat, self.b as nat) as usize
    }

    open spec fn fuel(self) -> nat {
        self.n as nat
    }

    fn step(self) -> (r: Rec<Self, usize>) {
        if self.n == 1 {
            Rec::done(self.a)
        } else {
            Rec::go(
                Fibonacci { n: self.n - 1, a: self.b, b: self.a + self.b },
            )
        }
    }
}

} // verus!
