//! The next lexicographic permutation, computed in place: find the last
//! rise, swap its left end with the last larger element, then reverse
//! the suffix after the swap position.

use vstd::prelude::*;
use vstd::seq_lib::lemma_multiset_commutative;
use vstd::seq_lib::to_multiset_update;

verus! {

/// The largest index `i < k` with `s[i] < s[i + 1]`, or 0 when no pair
/// up to `k` rises.
pub open spec fn last_rise(s: Seq<usize>, k: int) -> int
    decreases k,
{
    if k <= 0 {
        0
    } else if s[k - 1] < s[k] {
        k - 1
    } else {
        last_rise(s, k - 1)
    }
}

/// The largest index `j <= k` with `s[j] > s[p]`, or 0 when no entry up
/// to `k` exceeds `s[p]`.
pub open spec fn last_above(s: Seq<usize>, p: int, k: int) -> int
    decreases k + 1,
{
    if k < 0 {
        0
    } else if s[k] > s[p] {
        k
    } else {
        last_above(s, p, k - 1)
    }
}

/// What one permutation step produces from `s`: with `p` the last rise
/// and `q` the last entry above `s[p]`, the two are swapped and the part
/// after `p` is reversed.
pub open spec fn next_permuted(s: Seq<usize>) -> Seq<usize> {
    let p = last_rise(s, s.len() - 1);
    let q = last_above(s, p, s.len() - 1);
    let t = s.update(p, s[q]).update(q, s[p]);
    t.take(p + 1) + t.skip(p + 1).reverse()
}

/// Steps `xs` to its next lexicographic permutation, in place.
pub fn permute(xs: &mut Vec<usize>)
    requires
        old(xs)@.len() >= 1,
    ensures
        final(xs)@ == next_permuted(old(xs)@),
        final(xs)@.to_multiset() == old(xs)@.to_multiset(),
{
    let n = xs.len();
    let mut i: usize = 0;
    let mut k: usize = 1;
    while k < n
        invariant
            n == xs@.len(),
            n >= 1,
            1 <= k <= n,
            i < n,
            i == last_rise(xs@, k as int - 1),
        decreases n - k,
    {
        if xs[k - 1] < xs[k] {
            i = k - 1;
        }
        k = k + 1;
    }
    let mut j: usize = 0;
    let mut k2: usize = 0;
    while k2 < n
        invariant
            n == xs@.len(),
            i < n,
            k2 <= n,
            j == last_above(xs@, i as int, k2 as int - 1),
            j < n,
        decreases n - k2,
    {
        if xs[k2] > xs[i] {
            j = k2;
        }
        k2 = k2 + 1;
    }
    let a = xs[i];
    let b = xs[j];
    xs.set(i, b);
    xs.set(j, a);
    let ghost t = old(xs)@.update(i as int, b).update(j as int, a);
    proof {
        assert(xs@ =~= t);
    }
    let mut lo = i + 1;
    let mut hi = n;
    while lo < hi - 1
        invariant
            xs@.len() == n,
            i + 1 <= lo <= hi <= n,
            t.len() == n,
            lo - (i + 1) == n - hi,
            forall|c: int| 0 <= c < lo ==> #[trigger] xs@[c] == (if c <= i { t[c] } else { t[i + n - c] }),
            forall|c: int| lo <= c < hi ==> #[trigger] xs@[c] == t[c],
            forall|c: int| hi <= c < n ==> #[trigger] xs@[c] == t[i + n - c],
        decreases hi - lo,
    {
        let u = xs[lo];
        let v = xs[hi - 1];
        xs.set(lo, v);
        xs.set(hi - 1, u);
        lo = lo + 1;
        hi = hi - 1;
    }
    proof {
        assert(final(xs)@ =~= next_permuted(old(xs)@)) by {
            let s = old(xs)@;
            let p = last_rise(s, s.len() - 1);
            let q = last_above(s, p, s.len() - 1);
            assert(p == i as int);
            assert(q == j as int);
            let tt = s.update(p, s[q]).update(q, s[p]);
            assert(tt =~= t);
            assert forall|c: int| 0 <= c < n implies xs@[c] == (if c <= i {
                t[c]
            } else {
                t[i + n - c]
            }) by {
            }
            assert forall|c: int| 0 <= c < n implies next_permuted(s)[c] == (if c <= i {
                t[c]
            } else {
                t[i + n - c]
            }) by {
                if c > i {
                    assert(next_permuted(s)[c] == tt.skip(p + 1).reverse()[c - (p + 1)]);
                }
            }
        }
        assert(final(xs)@.to_multiset() == old(xs)@.to_multiset()) by {
            let s = old(xs)@;
            if i == j {
                assert(t =~= s);
            } else {
                broadcast use vstd::seq_lib::group_to_multiset_ensures;

                to_multiset_update(s, i as int, b);
                to_multiset_update(s.update(i as int, b), j as int, a);
                assert(s.update(i as int, b)[j as int] == b);
                assert(s.contains(a)) by {
                    assert(s[i as int] == a);
                }
                assert(s.to_multiset().count(a) > 0);
                assert(s.update(i as int, b).contains(b)) by {
                    assert(s.update(i as int, b)[i as int] == b);
                }
                assert(s.update(i as int, b).to_multiset().count(b) > 0);
                assert(t.to_multiset() =~= s.to_multiset());
            }
            let front = t.take(i + 1);
            let back = t.skip(i + 1);
            lemma_multiset_commutative(front, back.reverse());
            lemma_multiset_commutative(front, back);
            back.lemma_reverse_to_multiset();
            assert(front + back =~= t);
            assert(final(xs)@.to_multiset() == (front + back.reverse()).to_multiset());
        }
    }
}

/// The next lexicographic permutation of `xs`, as a fresh vector.
pub fn next_permutation(xs: &[usize]) -> (r: Vec<usize>)
    requires
        xs@.len() >= 1,
    ensures
        r@ == next_permuted(xs@),
        r@.to_multiset() == xs@.to_multiset(),
{
    let mut v: Vec<usize> = Vec::new();
    let n = xs.len();
    for k in 0..n
        invariant
            n == xs@.len(),
            v@ =~= xs@.take(k as int),
        decreases n - k,
    {
        v.push(xs[k]);
    }
    proof {
        assert(v@ =~= xs@);
    }
    permute(&mut v);
    v
}

} // verus!
