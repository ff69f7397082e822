//! Subset sums by dynamic programming: the largest sum up to a cap that a subset of the
//! elements reaches, and a subset that reaches it.
use vstd::prelude::*;

verus! {

/// Some subset of the first `e` elements (possibly empty) adds up to `q`.
pub open spec fn sums_to(els: Seq<usize>, e: int, q: int) -> bool
    decreases e,
{
    if e <= 0 {
        q == 0
    } else {
        sums_to(els, e - 1, q) || (q >= els[e - 1] && sums_to(els, e - 1, q - els[e - 1]))
    }
}

/// One of the first `e` elements is zero.
pub open spec fn has_zero(els: Seq<usize>, e: int) -> bool
    decreases e,
{
    if e <= 0 {
        false
    } else {
        els[e - 1] == 0 || has_zero(els, e - 1)
    }
}

/// Some non-empty subset of the first `e` elements adds up to `q`.
pub open spec fn reached(els: Seq<usize>, e: int, q: int) -> bool {
    if q >= 1 {
        sums_to(els, e, q)
    } else {
        q == 0 && has_zero(els, e)
    }
}

/// The number of elements the table takes in: it stops after the first element with which
/// `goal` is reached, or at the end.
pub open spec fn stop_point(els: Seq<usize>, goal: int, e: int) -> int
    decreases els.len() - e,
{
    if e >= els.len() || reached(els, e, goal) {
        e
    } else {
        stop_point(els, goal, e + 1)
    }
}

/// The largest `q` in `0..=cap` reached with the first `e` elements (`0` if none is).
pub open spec fn largest_reached(els: Seq<usize>, e: int, cap: int) -> int
    decreases cap,
{
    if cap <= 0 {
        0
    } else if reached(els, e, cap) {
        cap
    } else {
        largest_reached(els, e, cap - 1)
    }
}

/// The elements at the positions `idx`, added up.
pub open spec fn sum_at(els: Seq<usize>, idx: Seq<usize>) -> int
    decreases idx.len(),
{
    if idx.len() == 0 {
        0
    } else {
        sum_at(els, idx.drop_last()) + els[idx.last() as int]
    }
}

pub proof fn lemma_sums_to_zero(els: Seq<usize>, e: int)
    ensures
        sums_to(els, e, 0),
    decreases e,
{
    if e > 0 {
        lemma_sums_to_zero(els, e - 1);
    }
}

/// Taking in element `e` reaches what was reached, the element itself, and the element
/// added to what was reached.
proof fn lemma_reached_step(els: Seq<usize>, e: int, q: int)
    requires
        0 <= e < els.len(),
    ensures
        reached(els, e + 1, q) == (reached(els, e, q) || q == els[e] || (q - els[e] >= 1 && reached(els, e, q - els[e]))),
{
    lemma_sums_to_zero(els, e);
}

proof fn lemma_stop_point(els: Seq<usize>, goal: int, s: int, c: int)
    requires
        0 <= s <= c <= els.len(),
        forall|x: int| s <= x < c ==> !reached(els, x, goal),
        c == els.len() || reached(els, c, goal),
    ensures
        stop_point(els, goal, s) == c,
    decreases c - s,
{
    if s < c {
        lemma_stop_point(els, goal, s + 1, c);
    }
}

proof fn lemma_largest_reached(els: Seq<usize>, e: int, p: int, cap: int)
    requires
        0 <= p <= cap,
        reached(els, e, p) || p == 0,
        forall|q: int| p < q <= cap ==> !#[trigger] reached(els, e, q),
    ensures
        largest_reached(els, e, cap) == p,
    decreases cap - p,
{
    if p < cap {
        lemma_largest_reached(els, e, p, cap - 1);
    }
}

proof fn lemma_sum_at_push(els: Seq<usize>, idx: Seq<usize>, k: usize)
    ensures
        sum_at(els, idx.push(k)) == sum_at(els, idx) + els[k as int],
{
    assert(idx.push(k).drop_last() =~= idx);
}

/// A subset of the first elements whose sum is the largest reached up to `cap`, where the
/// table stops once `goal` is reached. The positions come out in decreasing order, and each
/// element taken is positive.
#[verifier::rlimit(60)]
pub fn subset_sum_upto(elements: &Vec<usize>, goal: usize, cap: usize) -> (result: Vec<usize>)
    requires
        1 <= elements.len() <= 32768,
        goal <= cap < usize::MAX,
        forall|k: int| 0 <= k < elements.len() ==> #[trigger] elements[k] <= cap,
    ensures
        forall|i: int, j: int| 0 <= i < j < result.len() ==> result[i] > result[j],
        forall|i: int| 0 <= i < result.len() ==> #[trigger] result[i] < elements.len() && elements[result[i] as int] >= 1,
        sum_at(elements@, result@) == largest_reached(elements@, stop_point(elements@, goal as int, 1), cap as int),
{
    let ghost els = elements@;
    let len = cap + 1;
    let mut dp: Vec<i16> = Vec::new();
    while dp.len() < len
        invariant
            dp.len() <= len,
            forall|q: int| 0 <= q < dp.len() ==> #[trigger] dp[q] == -1,
        decreases len - dp.len(),
    {
        dp.push(-1);
    }
    let n = elements.len();
    let mut element: usize = 0;
    let mut found = false;
    while element < n && !found
        invariant
            els == elements@,
            n == els.len(),
            1 <= n <= 32768,
            goal <= cap < usize::MAX,
            len == cap + 1,
            dp.len() == len,
            forall|k: int| 0 <= k < n ==> #[trigger] els[k] <= cap,
            element <= n,
            found ==> element >= 1 && reached(els, element as int, goal as int),
            forall|x: int| 1 <= x < element ==> !reached(els, x, goal as int),
            !found && element >= 1 ==> !reached(els, element as int, goal as int),
            dp_table(els, dp@, element as int, len as int),
        decreases n - element,
    {
        let el = elements[element];
        let ghost old_dp = dp@;
        let ghost e = element as int;
        let tag: i16 = element as i16;
        if dp[el] == -1 {
            dp.set(el, tag);
        }
        let mut pos: usize = 1;
        while pos < len - el
            invariant
                e == element,
                e < n <= 32768,
                tag == e,
                el <= cap,
                len == cap + 1,
                dp.len() == len,
                old_dp.len() == len,
                1 <= pos,
                pos <= len - el || len - el <= 1,
                step_progress(old_dp, dp@, el as int, tag as int, pos as int, len as int),
                dp_table(els, old_dp, e, len as int),
                els == elements@,
                el == els[e],
            decreases len - el - pos,
        {
            let ghost before = dp@;
            let d = dp[pos];
            if d != -1 && d != tag {
                if dp[el + pos] == -1 {
                    dp.set(el + pos, tag);
                }
            }
            proof {
                lemma_step_progress(els, e, old_dp, before, dp@, el as int, pos as int, len as int);
            }
            pos = pos + 1;
        }
        proof {
            lemma_dp_step(els, e, old_dp, dp@, len as int, pos as int);
        }
        element = element + 1;
        if dp[goal] != -1 {
            found = true;
        }
    }
    proof {
        if found {
            lemma_stop_point(els, goal as int, 1, element as int);
        } else {
            lemma_stop_point(els, goal as int, 1, n as int);
        }
    }
    let ghost taken = element as int;
    // the largest reached sum up to the cap
    let ghost e_star = taken;
    let mut pointer: usize = cap;
    proof {
        assert(reached(els, e_star, els[0] as int)) by {
            lemma_reached_step(els, 0, els[0] as int);
            lemma_reached_monotone(els, 1, e_star, els[0] as int);
        }
    }
    while dp[pointer] == -1
        invariant
            dp.len() == len,
            len == cap + 1,
            pointer <= cap,
            n == els.len(),
            1 <= n,
            els[0] <= pointer,
            forall|q: int| 0 <= q < len ==> (#[trigger] dp[q] != -1 <==> reached(els, e_star, q)),
            reached(els, e_star, els[0] as int),
            forall|q: int| pointer < q <= cap ==> !#[trigger] reached(els, e_star, q),
        decreases pointer,
    {
        proof {
            assert(pointer != els[0]);
        }
        pointer = pointer - 1;
    }
    proof {
        lemma_largest_reached(els, e_star, pointer as int, cap as int);
    }
    let ghost start = pointer as int;
    let mut result: Vec<usize> = Vec::new();
    while pointer != 0
        invariant
            dp.len() == len,
            len == cap + 1,
            pointer <= cap,
            n == els.len(),
            els == elements@,
            forall|q: int| 0 <= q < len && dp[q] != -1 ==> 0 <= #[trigger] dp[q] < e_star,
            e_star <= n,
            forall|q: int| 1 <= q < len && #[trigger] dp[q] != -1 ==> {
                let k = dp[q] as int;
                &&& 1 <= els[k] <= q
                &&& (q == els[k] || (q - els[k] >= 1 && dp[q - els[k]] != -1 && dp[q - els[k]] < k))
            },
            pointer != 0 ==> dp[pointer as int] != -1,
            pointer != 0 && result.len() > 0 ==> dp[pointer as int] < result@.last(),
            forall|i: int, j: int| 0 <= i < j < result.len() ==> result[i] > result[j],
            forall|i: int| 0 <= i < result.len() ==> #[trigger] result[i] < n && els[result[i] as int] >= 1,
            sum_at(els, result@) + pointer == start,
        decreases pointer,
    {
        let element = dp[pointer];
        let k: usize = element as usize;
        let ghost before = result@;
        result.push(k);
        proof {
            lemma_sum_at_push(els, before, k);
        }
        pointer = pointer - elements[k];
    }
    result
}

/// The table after taking in `e` elements: an entry is set exactly for the sums reached;
/// it names an element taken in, and following it backwards leads to smaller positions.
pub open spec fn dp_table(els: Seq<usize>, dp: Seq<i16>, e: int, len: int) -> bool {
    &&& forall|q: int| 0 <= q < len ==> (#[trigger] dp[q] != -1 <==> reached(els, e, q))
    &&& forall|q: int| 0 <= q < len && dp[q] != -1 ==> 0 <= #[trigger] dp[q] < e
    &&& forall|q: int| 1 <= q < len && #[trigger] dp[q] != -1 ==> {
        let k = dp[q] as int;
        &&& 1 <= els[k] <= q
        &&& (q == els[k] || (q - els[k] >= 1 && dp[q - els[k]] != -1 && dp[q - els[k]] < k))
    }
}

/// While taking in an element of size `el` marked `tag`: entries set before keep their
/// value, and the new ones are the element itself and the element added to the positions
/// `1..pos` set before.
pub open spec fn step_progress(old_dp: Seq<i16>, dp: Seq<i16>, el: int, tag: int, pos: int, len: int) -> bool {
    &&& forall|q: int| 0 <= q < len && old_dp[q] != -1 ==> #[trigger] dp[q] == old_dp[q]
    &&& forall|q: int| 0 <= q < len && old_dp[q] == -1 ==> (#[trigger] dp[q] == -1 || dp[q] == tag)
    &&& forall|q: int| 0 <= q < len && old_dp[q] == -1 ==> (#[trigger] dp[q] == tag <==> (q == el || (1 <= q - el < pos && old_dp[q - el] != -1)))
}

proof fn lemma_step_progress(els: Seq<usize>, e: int, old_dp: Seq<i16>, before: Seq<i16>, after: Seq<i16>, el: int, pos: int, len: int)
    requires
        0 <= e <= 32767,
        0 <= el,
        1 <= pos,
        el + pos < len,
        before.len() == len,
        old_dp.len() == len,
        dp_table(els, old_dp, e, len),
        step_progress(old_dp, before, el, e, pos, len),
        after == if before[pos] != -1 && before[pos] != e && before[el + pos] == -1 {
            before.update(el + pos, e as i16)
        } else {
            before
        },
    ensures
        step_progress(old_dp, after, el, e, pos + 1, len),
{
    if old_dp[pos] != -1 {
        assert(before[pos] == old_dp[pos]);
        assert(old_dp[pos] < e);
    }
    let q0 = el + pos;
    if before[q0] != -1 && old_dp[q0] == -1 {
        assert(before[q0] == e);
    }
    assert forall|q: int| 0 <= q < len && old_dp[q] != -1 implies #[trigger] after[q] == old_dp[q] by {
        assert(before[q] == old_dp[q]);
    }
    assert forall|q: int| 0 <= q < len && old_dp[q] == -1 implies (#[trigger] after[q] == -1 || after[q] == e) by {
        assert(before[q] == -1 || before[q] == e);
    }
    assert forall|q: int| 0 <= q < len && old_dp[q] == -1 implies (#[trigger] after[q] == e <==> (q == el || (1 <= q - el < pos + 1 && old_dp[q - el] != -1))) by {
        assert(before[q] == e <==> (q == el || (1 <= q - el < pos && old_dp[q - el] != -1)));
        if q == q0 {
            if old_dp[pos] != -1 {
                assert(before[pos] == old_dp[pos]);
            } else {
                assert(before[pos] == -1 || before[pos] == e);
            }
        }
    }
}

proof fn lemma_dp_step(els: Seq<usize>, e: int, old_dp: Seq<i16>, dp: Seq<i16>, len: int, pos: int)
    requires
        0 <= e < els.len(),
        els[e] < len,
        dp.len() == len,
        old_dp.len() == len,
        dp_table(els, old_dp, e, len),
        pos >= len - els[e],
        step_progress(old_dp, dp, els[e] as int, e, pos, len),
    ensures
        dp_table(els, dp, e + 1, len),
{
    let el = els[e] as int;
    assert forall|q: int| 0 <= q < len implies (#[trigger] dp[q] != -1 <==> reached(els, e + 1, q)) by {
        lemma_reached_step(els, e, q);
        if q - el >= 1 {
            assert(old_dp[q - el] != -1 <==> reached(els, e, q - el));
        }
    }
    assert forall|q: int| 0 <= q < len && dp[q] != -1 implies 0 <= #[trigger] dp[q] < e + 1 by {
    }
    assert forall|q: int| 1 <= q < len && #[trigger] dp[q] != -1 implies {
        let k = dp[q] as int;
        &&& 1 <= els[k] <= q
        &&& (q == els[k] || (q - els[k] >= 1 && dp[q - els[k]] != -1 && dp[q - els[k]] < k))
    } by {
        if old_dp[q] != -1 {
            let k = old_dp[q] as int;
            if q != els[k] {
                assert(old_dp[q - els[k]] != -1);
                assert(dp[q - els[k]] == old_dp[q - els[k]]);
            }
        } else {
            assert(dp[q] == e);
            if q != el {
                assert(old_dp[q - el] != -1);
                assert(dp[q - el] == old_dp[q - el]);
            }
        }
    }
}

/// What is reached with fewer elements stays reached.
proof fn lemma_reached_monotone(els: Seq<usize>, e1: int, e2: int, q: int)
    requires
        0 <= e1 <= e2 <= els.len(),
        reached(els, e1, q),
    ensures
        reached(els, e2, q),
    decreases e2 - e1,
{
    if e1 < e2 {
        lemma_reached_monotone(els, e1, e2 - 1, q);
        lemma_reached_step(els, e2 - 1, q);
    }
}

/// The largest sum up to `cap` reached with the first `e` elements is reached (or is zero),
/// and no larger sum up to `cap` is.
proof fn lemma_largest_reached_is_max(els: Seq<usize>, e: int, cap: int)
    requires
        0 <= cap,
    ensures
        0 <= largest_reached(els, e, cap) <= cap,
        largest_reached(els, e, cap) == 0 || reached(els, e, largest_reached(els, e, cap)),
        forall|q: int| largest_reached(els, e, cap) < q <= cap ==> !#[trigger] reached(els, e, q),
    decreases cap,
{
    if cap > 0 && !reached(els, e, cap) {
        lemma_largest_reached_is_max(els, e, cap - 1);
    }
}

/// The sum the table settles on, from the first element up to `goal`, is the best subset
/// sum up to `goal`: some subset of all the elements adds up to it (unless it is zero), and
/// none adds up to anything larger up to `goal`.
pub proof fn lemma_best_subset_sum(els: Seq<usize>, goal: int)
    requires
        1 <= els.len(),
        0 <= goal,
    ensures
        ({
            let b = largest_reached(els, stop_point(els, goal, 1), goal);
            &&& 0 <= b <= goal
            &&& b == 0 || sums_to(els, els.len() as int, b)
            &&& forall|q: int| b < q <= goal ==> !#[trigger] sums_to(els, els.len() as int, q)
        }),
{
    let n = els.len() as int;
    let c = stop_point(els, goal, 1);
    lemma_stop_point_props(els, goal, 1);
    lemma_largest_reached_is_max(els, c, goal);
    let b = largest_reached(els, c, goal);
    if c < n {
        assert(reached(els, c, goal));
        assert(b == goal);
        if goal >= 1 {
            lemma_reached_monotone(els, c, n, goal);
        }
    } else {
        assert forall|q: int| b < q <= goal implies !#[trigger] sums_to(els, n, q) by {
            assert(!reached(els, n, q));
        }
    }
    if b != 0 {
        lemma_reached_monotone(els, c, n, b);
        assert(reached(els, n, b));
    }
}

/// Adding an element at the front adds its value.
pub proof fn lemma_sum_at_prepend(els: Seq<usize>, x: usize, s: Seq<usize>)
    ensures
        sum_at(els, seq![x] + s) == els[x as int] + sum_at(els, s),
    decreases s.len(),
{
    if s.len() > 0 {
        lemma_sum_at_prepend(els, x, s.drop_last());
        assert((seq![x] + s).drop_last() =~= seq![x] + s.drop_last());
        assert((seq![x] + s).last() == s.last());
    } else {
        assert(seq![x] + s =~= seq![x]);
        assert(seq![x].drop_last() =~= Seq::<usize>::empty());
        assert(sum_at(els, Seq::<usize>::empty()) == 0);
        assert(sum_at(els, s) == 0);
    }
}

/// All of the first `e` elements together are a subset sum.
pub proof fn lemma_sums_to_all(els: Seq<usize>, e: int)
    requires
        0 <= e <= els.len(),
    ensures
        sums_to(els, e, crate::common::common::prefix_total(els, e)),
    decreases e,
{
    let q = crate::common::common::prefix_total(els, e);
    if e > 0 {
        lemma_sums_to_all(els, e - 1);
        let q0 = crate::common::common::prefix_total(els, e - 1);
        assert(q == q0 + els[e - 1]);
        crate::common::common::lemma_prefix_total_monotone(els, 0, e - 1);
        assert(q0 >= 0);
        assert(q - els[e - 1] == q0);
        assert(sums_to(els, e - 1, q - els[e - 1]));
    } else {
        assert(q == 0);
    }
}

/// Positions in decreasing order below `e` add up to at most the first `e` elements, and to
/// less than them by at least each element left out.
pub proof fn lemma_sum_at_le_total(els: Seq<usize>, idx: Seq<usize>, e: int, k: int)
    requires
        0 <= e <= els.len(),
        forall|i: int, j: int| 0 <= i < j < idx.len() ==> idx[i] > idx[j],
        forall|i: int| 0 <= i < idx.len() ==> #[trigger] idx[i] < e,
    ensures
        sum_at(els, idx) <= crate::common::common::prefix_total(els, e),
        0 <= k < e && !idx.contains(k as usize) ==> sum_at(els, idx) + els[k] <= crate::common::common::prefix_total(els, e),
    decreases e,
{
    if e == 0 {
        if idx.len() > 0 {
            assert(idx[0] < 0);
        }
        assert(idx.len() == 0);
    } else if idx.len() > 0 && idx[0] == e - 1 {
        let rest = idx.skip(1);
        assert(idx =~= seq![idx[0]] + rest);
        lemma_sum_at_prepend(els, idx[0], rest);
        assert forall|i: int| 0 <= i < rest.len() implies #[trigger] rest[i] < e - 1 by {
            assert(rest[i] == idx[i + 1]);
            assert(idx[0] > idx[i + 1]);
        }
        lemma_sum_at_le_total(els, rest, e - 1, k);
        if 0 <= k < e && !idx.contains(k as usize) {
            assert(k != e - 1) by {
                assert(idx[0] == e - 1);
            }
            assert(!rest.contains(k as usize)) by {
                if rest.contains(k as usize) {
                    let i = choose|i: int| 0 <= i < rest.len() && rest[i] == k as usize;
                    assert(idx[i + 1] == k as usize);
                }
            }
        }
    } else {
        assert forall|i: int| 0 <= i < idx.len() implies #[trigger] idx[i] < e - 1 by {
            if idx[i] == e - 1 {
                if i > 0 {
                    assert(idx[0] > idx[i]);
                }
            }
        }
        lemma_sum_at_le_total(els, idx, e - 1, k);
    }
}

/// A sum of some of the first `e1` elements is a sum of some of the first `e2 >= e1`.
pub proof fn lemma_sums_to_grow(els: Seq<usize>, e1: int, e2: int, q: int)
    requires
        0 <= e1 <= e2,
        sums_to(els, e1, q),
    ensures
        sums_to(els, e2, q),
    decreases e2 - e1,
{
    if e1 < e2 {
        lemma_sums_to_grow(els, e1, e2 - 1, q);
    }
}

/// The elements from `i` up to `e` together are a subset sum of the first `e`.
pub proof fn lemma_sums_to_tail(els: Seq<usize>, i: int, e: int)
    requires
        0 <= i <= e <= els.len(),
    ensures
        sums_to(els, e, crate::common::common::prefix_total(els, e) - crate::common::common::prefix_total(els, i)),
    decreases e - i,
{
    if e == i {
        lemma_sums_to_zero(els, e);
    } else {
        lemma_sums_to_tail(els, i, e - 1);
        crate::common::common::lemma_prefix_total_monotone(els, i, e - 1);
        let x = crate::common::common::prefix_total(els, e - 1) - crate::common::common::prefix_total(els, i);
        let q = crate::common::common::prefix_total(els, e) - crate::common::common::prefix_total(els, i);
        assert(q == x + els[e - 1]);
        assert(q - els[e - 1] == x);
    }
}

/// Where the running total passes `b`: a count `i` whose first `i - 1` elements stay at or
/// below `b` and whose first `i` pass it.
proof fn lemma_crossing(els: Seq<usize>, b: int, e: int) -> (i: int)
    requires
        0 <= b,
        0 <= e <= els.len(),
        crate::common::common::prefix_total(els, e) > b,
    ensures
        1 <= i <= e,
        crate::common::common::prefix_total(els, i - 1) <= b < crate::common::common::prefix_total(els, i),
    decreases e,
{
    if crate::common::common::prefix_total(els, e - 1) > b {
        lemma_crossing(els, b, e - 1)
    } else {
        e
    }
}

/// Split of two loads `a > b` whose elements are each less than `a - b`: the best subset sum
/// up to `cap` found by the table that stops at half the total, for any `cap` from half the
/// total up, is above `b`. Some subset sum lies above `b` and at most half the total.
pub proof fn lemma_share_above_lighter(els: Seq<usize>, b: int, cap: int)
    requires
        0 <= b,
        2 * b < crate::common::common::prefix_total(els, els.len() as int),
        forall|k: int| 0 <= k < els.len() ==> #[trigger] els[k] + 2 * b < crate::common::common::prefix_total(els, els.len() as int),
        crate::common::common::prefix_total(els, els.len() as int) / 2 <= cap,
    ensures
        b < largest_reached(els, stop_point(els, crate::common::common::prefix_total(els, els.len() as int) / 2, 1), cap),
{
    let n = els.len() as int;
    let total = crate::common::common::prefix_total(els, n);
    let goal = total / 2;
    let a = total - b;
    if n == 0 {
        assert(total == 0);
    }
    let i = lemma_crossing(els, b, n);
    let pi = crate::common::common::prefix_total(els, i);
    assert(pi == crate::common::common::prefix_total(els, i - 1) + els[i - 1]);
    assert(pi < a);
    let w = if pi <= goal { pi } else { total - pi };
    if pi <= goal {
        lemma_sums_to_all(els, i);
        lemma_sums_to_grow(els, i, n, pi);
    } else {
        lemma_sums_to_tail(els, i, n);
    }
    assert(b < w <= goal);
    assert(sums_to(els, n, w));
    lemma_best_subset_sum_capped(els, goal, cap);
}

/// With a table that stops once `goal` is reached but reports the largest sum up to `cap`:
/// the sum is reached (or zero), nothing larger up to `goal` is reached, and where the sum
/// stays below `goal`, nothing larger up to `cap` is reached either.
pub proof fn lemma_best_subset_sum_capped(els: Seq<usize>, goal: int, cap: int)
    requires
        1 <= els.len(),
        0 <= goal <= cap,
    ensures
        ({
            let b = largest_reached(els, stop_point(els, goal, 1), cap);
            &&& 0 <= b <= cap
            &&& b == 0 || sums_to(els, els.len() as int, b)
            &&& forall|q: int| b < q <= goal ==> !#[trigger] sums_to(els, els.len() as int, q)
            &&& b < goal ==> forall|q: int| b < q <= cap ==> !#[trigger] sums_to(els, els.len() as int, q)
        }),
{
    let n = els.len() as int;
    let c = stop_point(els, goal, 1);
    lemma_stop_point_props(els, goal, 1);
    lemma_largest_reached_is_max(els, c, cap);
    let b = largest_reached(els, c, cap);
    if c < n {
        assert(reached(els, c, goal));
        assert(b >= goal);
    } else {
        assert forall|q: int| b < q <= cap implies !#[trigger] sums_to(els, n, q) by {
            assert(!reached(els, n, q));
        }
    }
    if b != 0 {
        lemma_reached_monotone(els, c, n, b);
        assert(reached(els, n, b));
    }
}

/// From `s` on, the table stops at the first element count at which `goal` is reached, or
/// at the end.
proof fn lemma_stop_point_props(els: Seq<usize>, goal: int, s: int)
    requires
        0 <= s <= els.len(),
    ensures
        s <= stop_point(els, goal, s) <= els.len(),
        stop_point(els, goal, s) == els.len() || reached(els, stop_point(els, goal, s), goal),
        forall|x: int| s <= x < stop_point(els, goal, s) ==> !#[trigger] reached(els, x, goal),
    decreases els.len() - s,
{
    if s < els.len() && !reached(els, s, goal) {
        lemma_stop_point_props(els, goal, s + 1);
    }
}

} // verus!
