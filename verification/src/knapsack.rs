//! A bounded 0/1-knapsack solver. A bottom-up table holds, for every
//! capacity, the best achievable value; a parallel table of persistent
//! list handles holds, for every capacity, the item indices chosen to
//! reach that value. Updating a selection is one `cons` that shares the
//! reduced capacity's whole history, never a copy.

use crate::list::{cons, iter, nil, List};
use std::rc::Rc;
use vstd::prelude::*;

verus! {

/// The best total value achievable with items of index below `i`, each
/// used at most once, keeping the total weight at most `c`: the standard
/// 0/1-knapsack recurrence.
pub open spec fn best(v: Seq<usize>, w: Seq<usize>, i: int, c: int) -> int
    decreases i,
{
    if i <= 0 {
        0
    } else if w[i - 1] <= c {
        let skip = best(v, w, i - 1, c);
        let take = best(v, w, i - 1, c - w[i - 1]) + v[i - 1];
        if take > skip {
            take
        } else {
            skip
        }
    } else {
        best(v, w, i - 1, c)
    }
}

/// The total of `v` over the index sequence `s`.
pub open spec fn index_sum(v: Seq<usize>, s: Seq<usize>) -> int
    decreases s.len(),
{
    if s.len() == 0 {
        0
    } else {
        v[s[0] as int] + index_sum(v, s.drop_first())
    }
}

/// Whether `s` is a selection of items below `i`: strictly decreasing
/// indices, so each item is chosen at most once.
pub open spec fn valid_selection(s: Seq<usize>, i: int) -> bool {
    &&& forall|k: int| 0 <= k < s.len() ==> (#[trigger] s[k]) < i
    &&& forall|k: int| #![trigger s[k], s[k + 1]] 0 <= k < s.len() - 1 ==> s[k] > s[k + 1]
}

/// Whether `s` witnesses the value `val` for items below `i` at capacity
/// `c`: a valid selection whose weights fit in `c` and whose values sum
/// to `val`.
pub open spec fn witnesses(
    v: Seq<usize>,
    w: Seq<usize>,
    s: Seq<usize>,
    i: int,
    c: int,
    val: int,
) -> bool {
    &&& valid_selection(s, i)
    &&& index_sum(w, s) <= c
    &&& index_sum(v, s) == val
}

/// The total of the first `i` entries of `v`.
pub open spec fn prefix_total(v: Seq<usize>, i: int) -> int
    decreases i,
{
    if i <= 0 {
        0
    } else {
        prefix_total(v, i - 1) + v[i - 1]
    }
}

proof fn lemma_prefix_total_mono(v: Seq<usize>, i: int, k: int)
    requires
        i <= k,
    ensures
        prefix_total(v, i) <= prefix_total(v, k),
    decreases k - i,
{
    if i < k {
        lemma_prefix_total_mono(v, i, k - 1);
    }
}

proof fn lemma_best_le_prefix_total(v: Seq<usize>, w: Seq<usize>, i: int, c: int)
    ensures
        best(v, w, i, c) <= prefix_total(v, i),
    decreases i,
{
    if i > 0 {
        lemma_best_le_prefix_total(v, w, i - 1, c);
        lemma_best_le_prefix_total(v, w, i - 1, c - w[i - 1]);
    }
}

proof fn lemma_index_sum_nonneg(v: Seq<usize>, s: Seq<usize>)
    ensures
        index_sum(v, s) >= 0,
    decreases s.len(),
{
    if s.len() > 0 {
        lemma_index_sum_nonneg(v, s.drop_first());
    }
}

proof fn lemma_best_nonneg(v: Seq<usize>, w: Seq<usize>, i: int, c: int)
    ensures
        best(v, w, i, c) >= 0,
    decreases i,
{
    if i > 0 {
        lemma_best_nonneg(v, w, i - 1, c);
        lemma_best_nonneg(v, w, i - 1, c - w[i - 1]);
    }
}

proof fn lemma_decreasing_below_head(s: Seq<usize>, k: int)
    requires
        forall|k2: int| 0 <= k2 < s.len() - 1 ==> (#[trigger] s[k2]) > s[k2 + 1],
        0 < k < s.len(),
    ensures
        s[k] < s[0],
    decreases k,
{
    if k > 1 {
        lemma_decreasing_below_head(s, k - 1);
    }
}

/// The recurrence really is the optimum: no selection of items below
/// `i` that fits in capacity `c` has a value above `best`.
pub proof fn lemma_best_is_optimal(v: Seq<usize>, w: Seq<usize>, s: Seq<usize>, i: int, c: int)
    requires
        v.len() == w.len(),
        0 <= i <= v.len(),
        valid_selection(s, i),
        index_sum(w, s) <= c,
    ensures
        index_sum(v, s) <= best(v, w, i, c),
    decreases i,
{
    if s.len() == 0 {
        lemma_best_nonneg(v, w, i, c);
    } else {
        let rest = s.drop_first();
        assert forall|k: int| 0 <= k < rest.len() implies (#[trigger] rest[k]) < s[0] by {
            lemma_decreasing_below_head(s, k + 1);
        }
        assert(index_sum(w, s) == w[s[0] as int] + index_sum(w, rest));
        assert(index_sum(v, s) == v[s[0] as int] + index_sum(v, rest));
        if s[0] == i - 1 {
            assert(valid_selection(rest, i - 1));
            lemma_index_sum_nonneg(w, rest);
            assert(w[i - 1] <= c);
            lemma_best_is_optimal(v, w, rest, i - 1, c - w[i - 1]);
            assert(best(v, w, i, c) >= best(v, w, i - 1, c - w[i - 1]) + v[i - 1]);
        } else {
            assert forall|k: int| 0 <= k < s.len() implies (#[trigger] s[k]) < i - 1 by {
                if k > 0 {
                    assert(rest[k - 1] == s[k]);
                    assert(rest[k - 1] < s[0]);
                }
            }
            assert(valid_selection(s, i - 1));
            lemma_best_is_optimal(v, w, s, i - 1, c);
            assert(best(v, w, i, c) >= best(v, w, i - 1, c));
        }
    }
}

/// Raising the capacity never lowers the best achievable value: for any
/// fixed values and weights, the optimum is weakly increasing in the
/// capacity bound.
pub proof fn lemma_best_capacity_monotone(v: Seq<usize>, w: Seq<usize>, i: int, c1: int, c2: int)
    requires
        c1 <= c2,
    ensures
        best(v, w, i, c1) <= best(v, w, i, c2),
    decreases i,
{
    if i > 0 {
        lemma_best_capacity_monotone(v, w, i - 1, c1, c2);
        if w[i - 1] <= c1 {
            lemma_best_capacity_monotone(v, w, i - 1, c1 - w[i - 1], c2 - w[i - 1]);
        }
    }
}

/// Solves the 0/1 knapsack over `v` (values) and `w` (weights, one per
/// item, each positive) at capacity `max_w`. Returns the best achievable
/// total value together with the chosen item indices, most recently
/// chosen first, which achieve exactly that value within the capacity.
pub fn knapsack(v: &[usize], w: &[usize], max_w: usize) -> (r: (usize, Vec<usize>))
    requires
        v@.len() == w@.len(),
        forall|k: int| 0 <= k < w@.len() ==> #[trigger] w@[k] >= 1,
        prefix_total(v@, v@.len() as int) <= usize::MAX,
        max_w < usize::MAX,
    ensures
        r.0 == best(v@, w@, v@.len() as int, max_w as int),
        witnesses(v@, w@, r.1@, v@.len() as int, max_w as int, r.0 as int),
        forall|s: Seq<usize>|
            valid_selection(s, v@.len() as int) && #[trigger] index_sum(w@, s) <= max_w as int
                ==> index_sum(v@, s) <= r.0 as int,
{
    let n = v.len();
    let mut selections: Vec<Rc<List<usize>>> = Vec::new();
    let mut m: Vec<usize> = Vec::new();
    while m.len() < max_w + 1
        invariant
            max_w < usize::MAX,
            m@.len() == selections@.len(),
            m@.len() <= max_w + 1,
            forall|j: int| 0 <= j < m@.len() ==> #[trigger] m@[j] == 0,
            forall|j: int|
                0 <= j < selections@.len() ==> (#[trigger] selections@[j]).elems()
                    === Seq::<usize>::empty(),
        decreases max_w + 1 - m.len(),
    {
        m.push(0);
        selections.push(nil());
    }
    for i in 0..n
        invariant
            n == v@.len(),
            v@.len() == w@.len(),
            forall|k: int| 0 <= k < w@.len() ==> #[trigger] w@[k] >= 1,
            prefix_total(v@, n as int) <= usize::MAX,
            max_w < usize::MAX,
            m@.len() == max_w + 1,
            selections@.len() == max_w + 1,
            forall|j: int|
                0 <= j <= max_w ==> #[trigger] m@[j] == best(v@, w@, i as int, j),
            forall|j: int|
                0 <= j <= max_w ==> witnesses(
                    v@,
                    w@,
                    (#[trigger] selections@[j]).elems(),
                    i as int,
                    j,
                    m@[j] as int,
                ),
    {
        let wi = w[i];
        let vi = v[i];
        let mut j = max_w;
        while j >= wi
            invariant
                n == v@.len(),
                v@.len() == w@.len(),
                forall|k: int| 0 <= k < w@.len() ==> #[trigger] w@[k] >= 1,
                prefix_total(v@, n as int) <= usize::MAX,
                i < n,
                wi == w@[i as int],
                vi == v@[i as int],
                wi >= 1,
                j <= max_w,
                m@.len() == max_w + 1,
                selections@.len() == max_w + 1,
                forall|j2: int|
                    0 <= j2 <= j ==> #[trigger] m@[j2] == best(v@, w@, i as int, j2),
                forall|j2: int|
                    j < j2 <= max_w ==> #[trigger] m@[j2] == best(v@, w@, i as int + 1, j2),
                forall|j2: int|
                    0 <= j2 <= j ==> witnesses(
                        v@,
                        w@,
                        (#[trigger] selections@[j2]).elems(),
                        i as int,
                        j2,
                        m@[j2] as int,
                    ),
                forall|j2: int|
                    j < j2 <= max_w ==> witnesses(
                        v@,
                        w@,
                        (#[trigger] selections@[j2]).elems(),
                        i as int + 1,
                        j2,
                        m@[j2] as int,
                    ),
            decreases j,
        {
            proof {
                lemma_best_le_prefix_total(v@, w@, i as int, j - wi);
                lemma_prefix_total_mono(v@, i as int + 1, n as int);
            }
            let candidate = m[j - wi] + vi;
            if candidate > m[j] {
                m.set(j, candidate);
                let shared = selections[j - wi].clone();
                let ghost tail_elems = shared.elems();
                let chosen = cons(i, shared);
                proof {
                    assert(chosen.elems().drop_first() =~= tail_elems);
                }
                selections.set(j, chosen);
            }
            j = j - 1;
        }
    }
    let mut it = iter(selections[max_w].clone());
    let ghost all = selections@[max_w as int].elems();
    let mut out: Vec<usize> = Vec::new();
    loop
        invariant_except_break
            out@ + it.remaining() =~= all,
        ensures
            out@ =~= all,
        decreases it.remaining().len(),
    {
        match it.next() {
            Option::None => {
                proof {
                    assert(out@ =~= all);
                }
                break ;
            },
            Option::Some(x) => {
                out.push(*x);
            },
        }
    }
    proof {
        assert forall|s: Seq<usize>|
            valid_selection(s, v@.len() as int) && #[trigger] index_sum(w@, s)
                <= max_w as int implies index_sum(v@, s) <= m@[max_w as int] as int by {
            lemma_best_is_optimal(v@, w@, s, v@.len() as int, max_w as int);
        }
    }
    (m[max_w], out)
}

/// Whether `knapsack` accepts the input: values and weights of one
/// length, every weight positive, a value total that fits the machine
/// word, and room for a table of `max_w + 1` capacities.
pub open spec fn acceptable(v: Seq<usize>, w: Seq<usize>, max_w: usize) -> bool {
    &&& v.len() == w.len()
    &&& forall|k: int| 0 <= k < w.len() ==> #[trigger] w[k] >= 1
    &&& prefix_total(v, v.len() as int) <= usize::MAX
    &&& max_w < usize::MAX
}

/// Validates the solver's preconditions at entry, before any table work:
/// an input that breaks them, such as values and weights of different
/// lengths, is rejected with `None` and no partial result.
pub fn try_knapsack(v: &[usize], w: &[usize], max_w: usize) -> (r: Option<(usize, Vec<usize>)>)
    ensures
        r is Some <==> acceptable(v@, w@, max_w),
        (match r {
            Some(p) => p.0 == best(v@, w@, v@.len() as int, max_w as int) && witnesses(
                v@,
                w@,
                p.1@,
                v@.len() as int,
                max_w as int,
                p.0 as int,
            ),
            None => true,
        }),
{
    if v.len() != w.len() || max_w == usize::MAX {
        return None;
    }
    let n = v.len();
    for k in 0..n
        invariant
            n == w@.len(),
            forall|k2: int| 0 <= k2 < k ==> #[trigger] w@[k2] >= 1,
    {
        if w[k] == 0 {
            return None;
        }
    }
    let mut total: usize = 0;
    for k in 0..n
        invariant
            n == v@.len(),
            total == prefix_total(v@, k as int),
    {
        match total.checked_add(v[k]) {
            Option::Some(t) => {
                total = t;
            },
            Option::None => {
                proof {
                    lemma_prefix_total_mono(v@, k as int + 1, n as int);
                }
                return None;
            },
        }
    }
    Some(knapsack(v, w, max_w))
}

} // verus!
