//! The Martello–Toth bin-packing bound: how many processors of capacity `c` the jobs need
//! at least, from the large and middle jobs.
use vstd::prelude::*;
use crate::bounds::bound::Bound;
use crate::bounds::lower_bounds::pigeon_hole::ceil_div;
use crate::common::common::lemma_prefix_total_monotone;
use crate::common::common::prefix_total;
use crate::common::timeout::Timeout;
use crate::problem_instance::problem_instance::ProblemInstance;
use crate::problem_instance::solution::Solution;

verus! {

pub struct MartelloToth {}

/// The large jobs for threshold `p`: above `c - p` but at most `c / 2`.
pub open spec fn in_j1(c: int, p: int, x: usize) -> bool {
    x <= c / 2 && c - p < x
}

/// The jobs above half the capacity, up to `c - p`.
pub open spec fn in_j2(c: int, p: int, x: usize) -> bool {
    c / 2 < x && x <= c - p
}

/// The middle jobs: from `p` up to half the capacity.
pub open spec fn in_j3(c: int, p: int, x: usize) -> bool {
    p <= x && x <= c / 2
}

/// The sizes of `s` that satisfy `pred`, in order.
fn filter_sizes(sizes: &Vec<usize>, c: usize, p: usize, which: u8) -> (r: Vec<usize>)
    requires
        which == 3 || p <= c,
    ensures
        r@ == sizes@.filter(|x: usize| if which == 1 { in_j1(c as int, p as int, x) } else if which == 2 { in_j2(c as int, p as int, x) } else { in_j3(c as int, p as int, x) }),
{
    let ghost pred = |x: usize| if which == 1 { in_j1(c as int, p as int, x) } else if which == 2 { in_j2(c as int, p as int, x) } else { in_j3(c as int, p as int, x) };
    let mut r: Vec<usize> = Vec::new();
    let mut i: usize = 0;
    while i < sizes.len()
        invariant
            i <= sizes.len(),
            which == 3 || p <= c,
            pred == (|x: usize| if which == 1 { in_j1(c as int, p as int, x) } else if which == 2 { in_j2(c as int, p as int, x) } else { in_j3(c as int, p as int, x) }),
            r@ == sizes@.take(i as int).filter(pred),
        decreases sizes.len() - i,
    {
        let x = sizes[i];
        let keep = if which == 1 {
            x <= c / 2 && c - p < x
        } else if which == 2 {
            c / 2 < x && x <= c - p
        } else {
            p <= x && x <= c / 2
        };
        proof {
            let t1 = sizes@.take(i + 1);
            assert(t1.drop_last() =~= sizes@.take(i as int));
            assert(t1.last() == x);
            assert(keep == pred(x));
            reveal(Seq::filter);
            assert(t1.filter(pred) == if pred(t1.last()) { t1.drop_last().filter(pred).push(t1.last()) } else { t1.drop_last().filter(pred) });
        }
        if keep {
            r.push(x);
        }
        i = i + 1;
    }
    proof {
        assert(sizes@.take(sizes.len() as int) =~= sizes@);
    }
    r
}

pub fn get_j1(instance: &ProblemInstance, makespan_to_test: usize, p: usize) -> (r: Vec<usize>)
    requires
        p <= makespan_to_test,
    ensures
        r@ == instance.job_sizes@.filter(|x: usize| in_j1(makespan_to_test as int, p as int, x)),
{
    let r = filter_sizes(&instance.job_sizes, makespan_to_test, p, 1);
    proof {
        assert((|x: usize| if 1u8 == 1 { in_j1(makespan_to_test as int, p as int, x) } else if 1u8 == 2 { in_j2(makespan_to_test as int, p as int, x) } else { in_j3(makespan_to_test as int, p as int, x) })
            =~= (|x: usize| in_j1(makespan_to_test as int, p as int, x)));
    }
    r
}

pub fn get_j2(instance: &ProblemInstance, makespan_to_test: usize, p: usize) -> (r: Vec<usize>)
    requires
        p <= makespan_to_test,
    ensures
        r@ == instance.job_sizes@.filter(|x: usize| in_j2(makespan_to_test as int, p as int, x)),
{
    let r = filter_sizes(&instance.job_sizes, makespan_to_test, p, 2);
    proof {
        assert((|x: usize| if 2u8 == 1 { in_j1(makespan_to_test as int, p as int, x) } else if 2u8 == 2 { in_j2(makespan_to_test as int, p as int, x) } else { in_j3(makespan_to_test as int, p as int, x) })
            =~= (|x: usize| in_j2(makespan_to_test as int, p as int, x)));
    }
    r
}

pub fn get_j3(instance: &ProblemInstance, makespan_to_test: usize, p: usize) -> (r: Vec<usize>)
    ensures
        r@ == instance.job_sizes@.filter(|x: usize| in_j3(makespan_to_test as int, p as int, x)),
{
    let r = filter_sizes(&instance.job_sizes, makespan_to_test, p, 3);
    proof {
        assert((|x: usize| if 3u8 == 1 { in_j1(makespan_to_test as int, p as int, x) } else if 3u8 == 2 { in_j2(makespan_to_test as int, p as int, x) } else { in_j3(makespan_to_test as int, p as int, x) })
            =~= (|x: usize| in_j3(makespan_to_test as int, p as int, x)));
    }
    r
}

/// The sum of a sequence.
pub open spec fn total(s: Seq<usize>) -> int {
    prefix_total(s, s.len() as int)
}

/// The processors the middle jobs need beyond the room the jobs of `j2` leave:
/// `(sum(j3) - (|j2| * c - sum(j2))) / c` rounded up, and `0` when that is negative.
pub open spec fn spec_inner_sum(j2: Seq<usize>, j3: Seq<usize>, c: int) -> int {
    let t = total(j3) - j2.len() * c + total(j2);
    if t < 0 {
        0
    } else {
        ceil_div(t, c)
    }
}

/// The processors the middle jobs need: none when the room that the jobs of `j2` leave
/// takes all of `j3`, else the least count of processors of capacity `c` that holds what
/// is left, `t`: `c * r >= t` and `c * (r - 1) < t`.
pub proof fn lemma_inner_sum_rounds_up(j2: Seq<usize>, j3: Seq<usize>, c: int)
    requires
        c >= 1,
    ensures
        ({
            let t = total(j3) - j2.len() * c + total(j2);
            let r = spec_inner_sum(j2, j3, c);
            &&& t <= 0 ==> r == 0
            &&& t > 0 ==> c * r >= t && c * (r - 1) < t
        }),
{
    let t = total(j3) - j2.len() * c + total(j2);
    if t > 0 {
        vstd::arithmetic::div_mod::lemma_fundamental_div_mod(t, c);
        let q = t / c;
        let m = t % c;
        assert(0 <= m < c) by {
            vstd::arithmetic::div_mod::lemma_mod_bound(t, c);
        }
        if m == 0 {
            assert(c * q == t);
            assert(c * (q - 1) == c * q - c) by (nonlinear_arith);
        } else {
            assert(c * (q + 1) == c * q + c) by (nonlinear_arith);
        }
    } else if t == 0 {
        assert(0int / c == 0) by (nonlinear_arith) requires c >= 1;
        assert(0int % c == 0) by (nonlinear_arith) requires c >= 1;
    }
}

fn sum_of(v: &Vec<usize>) -> (r: usize)
    requires
        total(v@) <= usize::MAX,
    ensures
        r == total(v@),
{
    let mut r: usize = 0;
    let mut i: usize = 0;
    while i < v.len()
        invariant
            i <= v.len(),
            r == prefix_total(v@, i as int),
            total(v@) <= usize::MAX,
        decreases v.len() - i,
    {
        proof {
            lemma_prefix_total_monotone(v@, i + 1, v.len() as int);
        }
        r = r + v[i];
        i = i + 1;
    }
    r
}

#[allow(non_snake_case)]
pub fn inner_sum(j1: Vec<usize>, j2: Vec<usize>, j3: Vec<usize>, C: usize) -> (r: usize)
    requires
        C >= 1,
        total(j3@) + total(j2@) <= i64::MAX,
        total(j3@) + total(j2@) <= usize::MAX,
        j2.len() * C <= i64::MAX,
        j2.len() * C <= usize::MAX,
    ensures
        r == spec_inner_sum(j2@, j3@, C as int),
        ({
            let t = total(j3@) - j2.len() * C + total(j2@);
            &&& t <= 0 ==> r == 0
            &&& t > 0 ==> C * r >= t && C * (r - 1) < t
        }),
{
    proof {
        lemma_inner_sum_rounds_up(j2@, j3@, C as int);
    }
    proof {
        lemma_prefix_total_monotone(j3@, 0, j3.len() as int);
        lemma_prefix_total_monotone(j2@, 0, j2.len() as int);
    }
    let first_sum: i64 = sum_of(&j3) as i64;
    let middle: i64 = (j2.len() * C) as i64;
    let second_sum: i64 = sum_of(&j2) as i64;
    let out = first_sum - middle + second_sum;
    if out < 0 {
        return 0;
    }
    let out = out as usize;
    let out = if out % C == 0 {
        out / C
    } else {
        proof {
            vstd::arithmetic::div_mod::lemma_fundamental_div_mod(out as int, C as int);
            assert(C >= 2);
            assert(C * (out / C) >= 2 * (out / C)) by (nonlinear_arith)
                requires
                    C >= 2,
                    out / C >= 0,
            ;
        }
        (out / C) + 1
    };
    out
}

/// Two filters by predicates that never both hold take at most the whole sum and length.
proof fn lemma_filters_total(s: Seq<usize>, p: spec_fn(usize) -> bool, q: spec_fn(usize) -> bool)
    requires
        forall|x: usize| !(#[trigger] p(x) && q(x)),
    ensures
        total(s.filter(p)) + total(s.filter(q)) <= total(s),
        s.filter(p).len() + s.filter(q).len() <= s.len(),
        total(s.filter(p)) >= 0,
        total(s.filter(q)) >= 0,
    decreases s.len(),
{
    reveal(Seq::filter);
    if s.len() > 0 {
        let init = s.drop_last();
        lemma_filters_total(init, p, q);
        lemma_total_push(init.filter(p), s.last());
        lemma_total_push(init.filter(q), s.last());
        lemma_total_push(init, s.last());
        assert(init.push(s.last()) =~= s);
    }
}

proof fn lemma_total_push(s: Seq<usize>, x: usize)
    ensures
        total(s.push(x)) == total(s) + x,
        total(s) >= 0,
{
    assert(s.push(x).take(s.len() as int) =~= s);
    lemma_prefix_total_same(s.push(x), s, s.len() as int);
    lemma_prefix_total_monotone(s, 0, s.len() as int);
}

proof fn lemma_prefix_total_same(a: Seq<usize>, b: Seq<usize>, n: int)
    requires
        0 <= n <= a.len(),
        n <= b.len(),
        forall|j: int| 0 <= j < n ==> a[j] == b[j],
    ensures
        prefix_total(a, n) == prefix_total(b, n),
    decreases n,
{
    if n > 0 {
        lemma_prefix_total_same(a, b, n - 1);
    }
}

/// The threshold at position `i` is skipped when the next job has the same size.
pub open spec fn skipped(sizes: Seq<usize>, n: int, i: int) -> bool {
    i < n - 1 && sizes[i] == sizes[i + 1]
}

/// The number of processors of capacity `c` that threshold `p` shows to be needed.
pub open spec fn bin_term(sizes: Seq<usize>, c: int, p: int) -> int {
    let j1 = sizes.filter(|x: usize| in_j1(c, p, x));
    let j2 = sizes.filter(|x: usize| in_j2(c, p, x));
    let j3 = sizes.filter(|x: usize| in_j3(c, p, x));
    j1.len() + j2.len() + spec_inner_sum(j2, j3, c)
}

/// The largest term over the thresholds `0..k` that are not skipped (`0` if none).
pub open spec fn spec_bin_packing(sizes: Seq<usize>, n: int, c: int, k: int) -> int
    decreases k,
{
    if k <= 0 {
        0
    } else {
        let prev = spec_bin_packing(sizes, n, c, k - 1);
        if skipped(sizes, n, k - 1) || bin_term(sizes, c, k - 1) <= prev {
            prev
        } else {
            bin_term(sizes, c, k - 1)
        }
    }
}

/// The sizes, the number of jobs and the capacity are small enough for the arithmetic.
pub open spec fn bin_packing_inputs(instance: &ProblemInstance, c: int) -> bool {
    let n = instance.num_jobs as int;
    &&& instance.wf()
    &&& 1 <= c
    &&& n <= c + 1
    &&& 4 * total(instance.job_sizes@) <= i64::MAX
    &&& 4 * total(instance.job_sizes@) <= usize::MAX
    &&& 4 * n <= usize::MAX
    &&& 2 * (n * c) <= i64::MAX
    &&& 2 * (n * c) <= usize::MAX
}

/// The largest number of processors of capacity `makespan_to_test` that any threshold
/// shows to be needed.
pub fn bin_packing_bound(instance: &ProblemInstance, makespan_to_test: usize) -> (r: usize)
    requires
        bin_packing_inputs(instance, makespan_to_test as int),
    ensures
        r == spec_bin_packing(instance.job_sizes@, instance.num_jobs as int, makespan_to_test as int, instance.num_jobs as int),
{
    let ghost sizes = instance.job_sizes@;
    let c = makespan_to_test;
    let n = instance.num_jobs;
    let mut best_bound: usize = 0;
    let mut i: usize = 0;
    proof {
        lemma_prefix_total_monotone(sizes, 0, sizes.len() as int);
    }
    while i < n
        invariant
            sizes == instance.job_sizes@,
            n == instance.num_jobs,
            c == makespan_to_test,
            bin_packing_inputs(instance, c as int),
            i <= n,
            best_bound == spec_bin_packing(sizes, n as int, c as int, i as int),
            0 <= best_bound <= 2 * n + 2 * total(sizes) + 1,
        decreases n - i,
    {
        if i < n - 1 && instance.job_sizes[i] == instance.job_sizes[i + 1] {
            i = i + 1;
            continue;
        }
        let j1 = get_j1(instance, c, i);
        let j2 = get_j2(instance, c, i);
        let j3 = get_j3(instance, c, i);
        let ghost p1 = |x: usize| in_j1(c as int, i as int, x);
        let ghost p2 = |x: usize| in_j2(c as int, i as int, x);
        let ghost p3 = |x: usize| in_j3(c as int, i as int, x);
        proof {
            lemma_filters_total(sizes, p2, p3);
            lemma_filters_total(sizes, p1, p2);
            assert(j2.len() * c <= n * c) by (nonlinear_arith)
                requires
                    j2.len() <= n,
                    c >= 1,
            ;
        }
        let l1 = j1.len();
        let l2 = j2.len();
        let inner = inner_sum(j1, j2, j3, c);
        proof {
            assert(inner <= total(sizes) + 1) by {
                let t = total(j3@) - j2@.len() * c + total(j2@);
                if t >= 0 {
                    vstd::arithmetic::div_mod::lemma_fundamental_div_mod(t, c as int);
                    let ci = c as int;
                    assert(ci * (t / ci) >= t / ci) by (nonlinear_arith)
                        requires
                            ci >= 1,
                            t / ci >= 0,
                    ;
                    assert(t <= total(sizes));
                }
            }
        }
        let bound = l1 + l2 + inner;
        if bound > best_bound {
            best_bound = bound;
        }
        i = i + 1;
    }
    best_bound
}

impl Bound for MartelloToth {
    open spec fn bound_requires(&self, problem: &ProblemInstance, lower_bound: usize, upper_bound: Option<Solution>) -> bool {
        &&& upper_bound is Some
        &&& forall|c: int| lower_bound <= c < upper_bound->0.makespan ==> #[trigger] bin_packing_inputs(problem, c)
    }

    /// The first makespan from the lower bound up for which the bin-packing bound asks for
    /// no more processors than there are; the makespan of the given schedule if none is
    /// below it. The schedule is handed back.
    fn bound(
        &self,
        problem: &ProblemInstance,
        lower_bound: usize,
        upper_bound: Option<Solution>,
        timeout: &Timeout,
    ) -> (r: (usize, Option<Solution>))
        ensures
            r.1 == upper_bound,
            forall|c: int| lower_bound <= c < r.0 ==> #[trigger] spec_bin_packing(problem.job_sizes@, problem.num_jobs as int, c, problem.num_jobs as int) > problem.num_processors,
            r.0 == upper_bound->0.makespan || (lower_bound <= r.0 < upper_bound->0.makespan
                && spec_bin_packing(problem.job_sizes@, problem.num_jobs as int, r.0 as int, problem.num_jobs as int) <= problem.num_processors),
            r.0 >= lower_bound || r.0 == upper_bound->0.makespan,
    {
        let current = match &upper_bound {
            Some(u) => u.makespan,
            None => {
                return (lower_bound, upper_bound);
            },
        };
        let mut makespan_to_check = lower_bound;
        loop
            invariant
                lower_bound <= makespan_to_check,
                current == upper_bound->0.makespan,
                forall|c: int| lower_bound <= c < current ==> #[trigger] bin_packing_inputs(problem, c),
                forall|c: int| lower_bound <= c < makespan_to_check ==> #[trigger] spec_bin_packing(problem.job_sizes@, problem.num_jobs as int, c, problem.num_jobs as int) > problem.num_processors,
            decreases current - makespan_to_check,
        {
            if makespan_to_check >= current {
                return (current, upper_bound);
            }
            proof {
                assert(bin_packing_inputs(problem, makespan_to_check as int));
            }
            let min_num_needed_procs = bin_packing_bound(problem, makespan_to_check);
            if min_num_needed_procs <= problem.num_processors {
                return (makespan_to_check, upper_bound);
            }
            makespan_to_check = makespan_to_check + 1;
        }
    }
}

} // verus!
