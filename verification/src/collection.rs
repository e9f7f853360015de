//! Deduplication: collapse a vector to its distinct elements, sorted.

use vstd::prelude::*;

verus! {

/// Whether `s` is strictly increasing, so sorted with no repeats.
pub open spec fn strictly_sorted(s: Seq<u64>) -> bool {
    forall|k1: int, k2: int| 0 <= k1 < k2 < s.len() ==> #[trigger] s[k1] < #[trigger] s[k2]
}

/// The distinct elements of `xs` in increasing order: the result is
/// strictly sorted and holds exactly the values `xs` holds.
pub fn uniq(xs: Vec<u64>) -> (r: Vec<u64>)
    ensures
        strictly_sorted(r@),
        forall|x: u64| r@.contains(x) <==> xs@.contains(x),
{
    let mut r: Vec<u64> = Vec::new();
    let n = xs.len();
    for i in 0..n
        invariant
            n == xs@.len(),
            strictly_sorted(r@),
            forall|x: u64| r@.contains(x) <==> xs@.take(i as int).contains(x),
    {
        let x = xs[i];
        let mut p: usize = 0;
        while p < r.len() && r[p] < x
            invariant
                p <= r@.len(),
                forall|k: int| 0 <= k < p ==> r@[k] < x,
            decreases r@.len() - p,
        {
            p = p + 1;
        }
        let ghost before = r@;
        let absent = p == r.len() || r[p] > x;
        if absent {
            r.insert(p, x);
        }
        proof {
            if absent {
                assert forall|k1: int, k2: int|
                    0 <= k1 < k2 < r@.len() implies #[trigger] r@[k1] < #[trigger] r@[k2] by {
                    if k1 < p && k2 > p {
                        assert(before[k1] < x || before[k1] < before[k2 - 1]);
                    }
                }
            }
            assert forall|y: u64| r@.contains(y) implies before.contains(y) || y == x by {
                let k = choose|k: int| 0 <= k < r@.len() && #[trigger] r@[k] == y;
                if absent {
                    if k < p {
                        assert(before[k] == y);
                    } else if k > p {
                        assert(before[k - 1] == y);
                    }
                } else {
                    assert(before[k] == y);
                }
            }
            assert forall|y: u64| before.contains(y) implies r@.contains(y) by {
                let k = choose|k: int| 0 <= k < before.len() && #[trigger] before[k] == y;
                if absent {
                    if k < p {
                        assert(r@[k] == y);
                    } else {
                        assert(r@[k + 1] == y);
                    }
                } else {
                    assert(r@[k] == y);
                }
            }
            assert(r@.contains(x)) by {
                assert(r@[p as int] == x);
            }
            assert forall|y: u64| xs@.take(i + 1).contains(y) implies r@.contains(y) by {
                let k = choose|k: int|
                    0 <= k < xs@.take(i + 1).len() && #[trigger] xs@.take(i + 1)[k] == y;
                if k < i {
                    assert(xs@.take(i as int)[k] == y);
                    assert(xs@.take(i as int).contains(y));
                    assert(before.contains(y));
                    assert(r@.contains(y));
                } else {
                    assert(y == x);
                    assert(r@.contains(y));
                }
            }
            assert forall|y: u64| r@.contains(y) implies xs@.take(i + 1).contains(y) by {
                if before.contains(y) {
                    let k = choose|k: int|
                        0 <= k < xs@.take(i as int).len() && #[trigger] xs@.take(i as int)[k] == y;
                    assert(xs@.take(i + 1)[k] == y);
                } else {
                    assert(xs@.take(i + 1)[i as int] == y);
                }
            }
        }
    }
    proof {
        assert(xs@.take(n as int) =~= xs@);
    }
    r
}

} // verus!
