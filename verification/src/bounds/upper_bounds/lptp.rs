//! Greedy scheduling against a target makespan: each job goes to the least loaded
//! processor, and if a later job fills that processor exactly, it goes there too.
use vstd::prelude::*;
use crate::bounds::bound::Bound;
use crate::bounds::upper_bounds::lpt::largest_load;
use crate::common::common::lemma_load_le_total;
use crate::common::common::lemma_load_update;
use crate::common::common::lemma_max_load;
use crate::common::common::lemma_max_load_le;
use crate::common::common::load;
use crate::common::common::max_load;
use crate::common::common::prefix_total;
use crate::common::timeout::Timeout;
use crate::problem_instance::partial_solution::copy_usizes;
use crate::problem_instance::problem_instance::ProblemInstance;
use crate::problem_instance::solution::Solution;

verus! {

pub struct Lptp {}

/// The state of the greedy pass: `assignment` holds `usize::MAX` for jobs not yet placed,
/// `totals` the loads, `available` the sizes of the jobs not yet placed (0 for placed ones).
pub open spec fn greedy_state(
    sizes: Seq<usize>,
    assignment: Seq<usize>,
    totals: Seq<usize>,
    available: Seq<usize>,
    m: int,
    max_makespan: int,
) -> bool {
    &&& assignment.len() == sizes.len()
    &&& available.len() == sizes.len()
    &&& totals.len() == m
    &&& forall|j: int| 0 <= j < assignment.len() ==> #[trigger] assignment[j] == usize::MAX || assignment[j] < m
    &&& forall|j: int| 0 <= j < assignment.len() ==> (#[trigger] available[j] == if assignment[j] == usize::MAX { sizes[j] } else { 0 })
    &&& forall|p: int| 0 <= p < m ==> #[trigger] totals[p] == load(sizes, assignment, p, sizes.len() as int)
    &&& forall|p: int| 0 <= p < m ==> #[trigger] totals[p] <= max_makespan
}

/// The first of the processors `0..p` with the least load (`0` when `p <= 1`).
pub open spec fn least_loaded_upto(totals: Seq<usize>, p: int) -> int
    decreases p,
{
    if p <= 1 {
        0
    } else {
        let e = least_loaded_upto(totals, p - 1);
        if totals[p - 1] < totals[e] {
            p - 1
        } else {
            e
        }
    }
}

/// The first position from `from` below `n` whose entry is `target`, or `n`.
pub open spec fn first_match(available: Seq<usize>, target: usize, from: int, n: int) -> int
    decreases n - from,
{
    if from >= n {
        n
    } else if available[from] == target {
        from
    } else {
        first_match(available, target, from + 1, n)
    }
}

/// The state of the greedy pass with job `k` placed on processor `e`.
pub open spec fn placed_state(sizes: Seq<usize>, st: (Seq<usize>, Seq<usize>, Seq<usize>), k: int, e: int) -> (Seq<usize>, Seq<usize>, Seq<usize>) {
    (st.0.update(k, e as usize), st.1.update(e, (st.1[e] + sizes[k]) as usize), st.2.update(k, 0))
}

/// One step of the greedy pass, on job `i`: a job not yet placed goes to the first least
/// loaded processor; `None` when that load passes `max`; below `max`, the first later job
/// not yet placed that fills the gap exactly goes there too.
pub open spec fn greedy_step(sizes: Seq<usize>, st: (Seq<usize>, Seq<usize>, Seq<usize>), i: int, m: int, max: int) -> Option<(Seq<usize>, Seq<usize>, Seq<usize>)> {
    if st.0[i] != usize::MAX {
        Some(st)
    } else {
        let e = least_loaded_upto(st.1, m);
        let nx = placed_state(sizes, st, i, e);
        if nx.1[e] > max {
            None
        } else if nx.1[e] == max {
            Some(nx)
        } else {
            let idx = first_match(nx.2, (max - nx.1[e]) as usize, i + 1, sizes.len() as int);
            if idx < sizes.len() {
                Some(placed_state(sizes, nx, idx, e))
            } else {
                Some(nx)
            }
        }
    }
}

/// The greedy pass over the jobs `0..i`: the assignment (`usize::MAX` for jobs not yet
/// placed), the loads and the sizes still available, or `None` once a load passed `max`.
pub open spec fn greedy_run(sizes: Seq<usize>, m: int, max: int, i: int) -> Option<(Seq<usize>, Seq<usize>, Seq<usize>)>
    decreases i,
{
    if i <= 0 {
        Some((Seq::new(sizes.len(), |j: int| usize::MAX), Seq::new(m as nat, |p: int| 0usize), sizes))
    } else {
        match greedy_run(sizes, m, max, i - 1) {
            Some(st) => greedy_step(sizes, st, i - 1, m, max),
            None => None,
        }
    }
}

/// How many of the jobs `0..k` are placed.
pub open spec fn placed_count(assignment: Seq<usize>, k: int) -> int
    decreases k,
{
    if k <= 0 {
        0
    } else {
        placed_count(assignment, k - 1) + if assignment[k - 1] != usize::MAX { 1int } else { 0int }
    }
}

/// How many of the processors `0..p` carry some load.
pub open spec fn busy_count(totals: Seq<usize>, p: int) -> int
    decreases p,
{
    if p <= 0 {
        0
    } else {
        busy_count(totals, p - 1) + if totals[p - 1] > 0 { 1int } else { 0int }
    }
}

/// Placing an unplaced job adds one to the count of placed jobs.
proof fn lemma_placed_count_update(assignment: Seq<usize>, k: int, e: usize, upto: int)
    requires
        0 <= k < assignment.len(),
        0 <= upto <= assignment.len(),
        assignment[k] == usize::MAX,
        e != usize::MAX,
    ensures
        placed_count(assignment.update(k, e), upto) == placed_count(assignment, upto) + if k < upto { 1int } else { 0int },
    decreases upto,
{
    if upto > 0 {
        lemma_placed_count_update(assignment, k, e, upto - 1);
    }
}

/// A job not yet placed keeps the count of placed jobs below the number of jobs.
proof fn lemma_placed_count_bound(assignment: Seq<usize>, k: int, upto: int)
    requires
        0 <= upto <= assignment.len(),
        0 <= k < upto,
        assignment[k] == usize::MAX,
    ensures
        placed_count(assignment, upto) <= upto - 1,
    decreases upto,
{
    if upto - 1 > k {
        lemma_placed_count_bound(assignment, k, upto - 1);
    } else {
        lemma_placed_count_le(assignment, upto - 1);
    }
}

proof fn lemma_placed_count_le(assignment: Seq<usize>, upto: int)
    requires
        0 <= upto <= assignment.len(),
    ensures
        placed_count(assignment, upto) <= upto,
    decreases upto,
{
    if upto > 0 {
        lemma_placed_count_le(assignment, upto - 1);
    }
}

/// Raising one load adds at most one to the count of loaded processors.
proof fn lemma_busy_count_raise(totals: Seq<usize>, e: int, v: usize, upto: int)
    requires
        0 <= e < totals.len(),
        0 <= upto <= totals.len(),
        v >= totals[e],
    ensures
        busy_count(totals.update(e, v), upto) <= busy_count(totals, upto) + 1,
        busy_count(totals.update(e, v), upto) <= busy_count(totals, upto) + if e < upto { 1int } else { 0int },
    decreases upto,
{
    if upto > 0 {
        lemma_busy_count_raise(totals, e, v, upto - 1);
    }
}

proof fn lemma_placed_count_nonneg(assignment: Seq<usize>, upto: int)
    ensures
        placed_count(assignment, upto) >= 0,
    decreases upto,
{
    if upto > 0 {
        lemma_placed_count_nonneg(assignment, upto - 1);
    }
}

/// No load anywhere: no processor is loaded.
proof fn lemma_busy_count_zero(totals: Seq<usize>, upto: int)
    requires
        0 <= upto <= totals.len(),
        forall|q: int| 0 <= q < upto ==> #[trigger] totals[q] == 0,
    ensures
        busy_count(totals, upto) == 0,
    decreases upto,
{
    if upto > 0 {
        lemma_busy_count_zero(totals, upto - 1);
    }
}

/// Fewer loaded processors than processors leaves one empty.
proof fn lemma_busy_count_idle(totals: Seq<usize>, upto: int) -> (q: int)
    requires
        0 <= upto <= totals.len(),
        busy_count(totals, upto) < upto,
    ensures
        0 <= q < upto,
        totals[q] == 0,
    decreases upto,
{
    if totals[upto - 1] == 0 {
        upto - 1
    } else {
        lemma_busy_count_idle(totals, upto - 1)
    }
}

/// The first least loaded processor carries no more than any other.
proof fn lemma_least_loaded_min(totals: Seq<usize>, p: int, q: int)
    requires
        1 <= p <= totals.len(),
        0 <= q < p,
    ensures
        0 <= least_loaded_upto(totals, p) < p,
        totals[least_loaded_upto(totals, p)] <= totals[q],
    decreases p,
{
    if p > 1 {
        if q < p - 1 {
            lemma_least_loaded_min(totals, p - 1, q);
        } else {
            lemma_least_loaded_min(totals, p - 1, 0);
        }
    }
}

/// Places job `k` on processor `e`, keeping the state.
fn place(
    sizes: &Vec<usize>,
    assignment: &mut Vec<usize>,
    totals: &mut Vec<usize>,
    available: &mut Vec<usize>,
    k: usize,
    e: usize,
    m: usize,
    max_makespan: usize,
)
    requires
        greedy_state(sizes@, old(assignment)@, old(totals)@, old(available)@, m as int, usize::MAX as int),
        k < sizes.len(),
        old(assignment)@[k as int] == usize::MAX,
        e < m,
        old(totals)@[e as int] + sizes@[k as int] <= usize::MAX,
    ensures
        greedy_state(sizes@, final(assignment)@, final(totals)@, final(available)@, m as int, usize::MAX as int),
        final(assignment)@ == old(assignment)@.update(k as int, e),
        final(totals)@ == old(totals)@.update(e as int, (old(totals)@[e as int] + sizes@[k as int]) as usize),
        final(available)@ == old(available)@.update(k as int, 0),
{
    let t = totals[e];
    totals.set(e, t + sizes[k]);
    assignment.set(k, e);
    available.set(k, 0);
    proof {
        let a0 = old(assignment)@;
        assert forall|p: int| 0 <= p < m implies #[trigger] totals@[p] == load(sizes@, assignment@, p, sizes.len() as int) by {
            lemma_load_update(sizes@, a0, k as int, e, p, sizes.len() as int);
        }
    }
}

/// A schedule of makespan at most `max_makespan`, if the greedy pass finds one. The pass
/// fails only where a load passes `max_makespan`, so it never fails when all the jobs
/// together fit within `max_makespan`, nor when every job fits within `max_makespan` and
/// there are no more jobs than processors (each job then finds an empty processor, and a
/// job that fills one exactly is no failure).
pub fn is_feasable(instance: &ProblemInstance, max_makespan: usize) -> (r: Option<Solution>)
    requires
        instance.wf(),
        instance.num_processors >= 1,
        prefix_total(instance.job_sizes@, instance.num_jobs as int) <= usize::MAX / 2,
        max_makespan <= usize::MAX / 2,
    ensures
        r is Some ==> r->0.valid_for(instance) && r->0.makespan <= max_makespan,
        prefix_total(instance.job_sizes@, instance.num_jobs as int) <= max_makespan ==> r is Some,
        instance.num_jobs <= instance.num_processors
            && (forall|j: int| 0 <= j < instance.num_jobs ==> #[trigger] instance.job_sizes@[j] <= max_makespan)
            ==> r is Some,
        r is Some <==> greedy_run(instance.job_sizes@, instance.num_processors as int, max_makespan as int, instance.num_jobs as int) is Some,
        r is Some ==> r->0.assignment@ == (greedy_run(instance.job_sizes@, instance.num_processors as int, max_makespan as int,
            instance.num_jobs as int)->0).0,
{
    let ghost sizes = instance.job_sizes@;
    let n = instance.num_jobs;
    let m = instance.num_processors;
    let mut assignment: Vec<usize> = Vec::new();
    let mut k: usize = 0;
    while k < n
        invariant
            k <= n,
            assignment@ == Seq::new(k as nat, |j: int| usize::MAX),
        decreases n - k,
    {
        assignment.push(usize::MAX);
        k = k + 1;
        proof {
            assert(assignment@ =~= Seq::new(k as nat, |j: int| usize::MAX));
        }
    }
    let mut total_sizes: Vec<usize> = Vec::new();
    let mut q: usize = 0;
    while q < m
        invariant
            q <= m,
            total_sizes@ == Seq::new(q as nat, |p: int| 0usize),
        decreases m - q,
    {
        total_sizes.push(0);
        q = q + 1;
        proof {
            assert(total_sizes@ =~= Seq::new(q as nat, |p: int| 0usize));
        }
    }
    let mut available_sizes = copy_usizes(&instance.job_sizes);
    proof {
        assert(greedy_run(sizes, m as int, max_makespan as int, 0) == Some((assignment@, total_sizes@, available_sizes@)));
    }
    proof {
        assert forall|p: int| 0 <= p < m implies #[trigger] total_sizes@[p] == load(sizes, assignment@, p, sizes.len() as int) by {
            lemma_load_none(sizes, assignment@, p, sizes.len() as int);
        }
        lemma_busy_count_zero(total_sizes@, m as int);
        lemma_placed_count_le(assignment@, 0);
        lemma_placed_count_nonneg(assignment@, n as int);
    }
    let mut i: usize = 0;
    while i < instance.job_sizes.len()
        invariant
            sizes == instance.job_sizes@,
            sizes.len() == n,
            n == instance.num_jobs,
            m == instance.num_processors,
            m >= 1,
            prefix_total(sizes, n as int) <= usize::MAX / 2,
            max_makespan <= usize::MAX / 2,
            i <= n,
            greedy_state(sizes, assignment@, total_sizes@, available_sizes@, m as int, max_makespan as int),
            forall|j: int| 0 <= j < i ==> #[trigger] assignment@[j] != usize::MAX,
            greedy_run(sizes, m as int, max_makespan as int, i as int) == Some((assignment@, total_sizes@, available_sizes@)),
            busy_count(total_sizes@, m as int) <= placed_count(assignment@, n as int),
        decreases n - i,
    {
        let ghost st = (assignment@, total_sizes@, available_sizes@);
        if assignment[i] != usize::MAX {
            proof {
                assert(greedy_run(sizes, m as int, max_makespan as int, i + 1) == greedy_step(sizes, st, i as int, m as int, max_makespan as int));
            }
            i = i + 1;
            continue;
        }
        // the first least loaded processor
        let mut e: usize = 0;
        let mut p: usize = 1;
        while p < m
            invariant
                m == total_sizes.len(),
                1 <= p <= m,
                e < p,
                e == least_loaded_upto(total_sizes@, p as int),
            decreases m - p,
        {
            if total_sizes[p] < total_sizes[e] {
                e = p;
            }
            p = p + 1;
        }
        proof {
            lemma_load_le_total(sizes, assignment@, e as int, n as int);
            crate::common::common::lemma_prefix_total_monotone(sizes, i as int, n as int);
        }
        let ghost a0 = assignment@;
        let ghost t0 = total_sizes@;
        proof {
            if n <= m && (forall|j: int| 0 <= j < n ==> #[trigger] sizes[j] <= max_makespan) {
                lemma_placed_count_bound(a0, i as int, n as int);
                let q = lemma_busy_count_idle(t0, m as int);
                lemma_least_loaded_min(t0, m as int, q);
                assert(t0[e as int] == 0);
            }
        }
        place(&instance.job_sizes, &mut assignment, &mut total_sizes, &mut available_sizes, i, e, m, max_makespan);
        let ghost nx = (assignment@, total_sizes@, available_sizes@);
        proof {
            lemma_placed_count_update(a0, i as int, e, n as int);
            lemma_busy_count_raise(t0, e as int, total_sizes@[e as int], m as int);
            assert(total_sizes@ == t0.update(e as int, total_sizes@[e as int]));
            assert(nx == placed_state(sizes, st, i as int, e as int));
            assert(greedy_run(sizes, m as int, max_makespan as int, i + 1) == greedy_step(sizes, st, i as int, m as int, max_makespan as int));
        }
        if total_sizes[e] > max_makespan {
            proof {
                lemma_load_le_total(sizes, assignment@, e as int, n as int);
                lemma_greedy_stays_none(sizes, m as int, max_makespan as int, i + 1, n as int);
            }
            return None;
        }
        if total_sizes[e] == max_makespan {
            i = i + 1;
            continue;
        }
        let target = max_makespan - total_sizes[e];
        let mut index: usize = i + 1;
        while index < n && available_sizes[index] != target
            invariant
                i < index <= n,
                available_sizes.len() == n,
                first_match(available_sizes@, target, index as int, n as int) == first_match(available_sizes@, target, i + 1, n as int),
            decreases n - index,
        {
            index = index + 1;
        }
        if index < n {
            proof {
                assert(available_sizes@[index as int] == target);
                assert(assignment@[index as int] == usize::MAX);
            }
            let ghost a1 = assignment@;
            let ghost t1 = total_sizes@;
            place(&instance.job_sizes, &mut assignment, &mut total_sizes, &mut available_sizes, index, e, m, max_makespan);
            proof {
                lemma_placed_count_update(a1, index as int, e, n as int);
                lemma_busy_count_raise(t1, e as int, total_sizes@[e as int], m as int);
                assert(total_sizes@ == t1.update(e as int, total_sizes@[e as int]));
                assert((assignment@, total_sizes@, available_sizes@) == placed_state(sizes, nx, index as int, e as int));
            }
        }
        i = i + 1;
    }
    let makespan = largest_load(&instance.job_sizes, &assignment, &total_sizes);
    proof {
        assert forall|p: int| 0 <= p < m implies #[trigger] load(sizes, assignment@, p, assignment@.len() as int) <= max_makespan by {
            assert(total_sizes@[p] <= max_makespan);
        }
        lemma_max_load_le(sizes, assignment@, m as int, max_makespan as int);
    }
    Some(Solution { makespan, assignment })
}

/// Once the pass has failed, it stays failed.
proof fn lemma_greedy_stays_none(sizes: Seq<usize>, m: int, max: int, i: int, k: int)
    requires
        0 <= i <= k,
        greedy_run(sizes, m, max, i) is None,
    ensures
        greedy_run(sizes, m, max, k) is None,
    decreases k - i,
{
    if i < k {
        lemma_greedy_stays_none(sizes, m, max, i + 1, k);
    }
}

/// With no job placed, every load is zero.
proof fn lemma_load_none(sizes: Seq<usize>, assignment: Seq<usize>, p: int, n: int)
    requires
        0 <= p < usize::MAX,
        n <= assignment.len(),
        forall|j: int| 0 <= j < n ==> assignment[j] == usize::MAX,
    ensures
        load(sizes, assignment, p, n) == 0,
    decreases n,
{
    if n > 0 {
        lemma_load_none(sizes, assignment, p, n - 1);
    }
}

impl Bound for Lptp {
    open spec fn bound_requires(&self, problem: &ProblemInstance, lower_bound: usize, upper_bound: Option<Solution>) -> bool {
        &&& problem.wf()
        &&& problem.num_processors >= 1
        &&& prefix_total(problem.job_sizes@, problem.num_jobs as int) <= usize::MAX / 2
        &&& upper_bound is Some
        &&& upper_bound->0.valid_for(problem)
    }

    /// Tries the makespans from the lower bound up to that of the given schedule, and hands
    /// back the first schedule the greedy pass finds (or the given one). The lower bound is
    /// handed back unchanged.
    fn bound(
        &self,
        problem: &ProblemInstance,
        lower_bound: usize,
        upper_bound: Option<Solution>,
        timeout: &Timeout,
    ) -> (r: (usize, Option<Solution>))
        ensures
            r.0 == lower_bound,
            r.1 == upper_bound || (r.1 is Some && r.1->0.valid_for(problem) && r.1->0.makespan < upper_bound->0.makespan),
    {
        let ghost sizes = problem.job_sizes@;
        let current = match &upper_bound {
            Some(u) => u.makespan,
            None => {
                return (lower_bound, upper_bound);
            },
        };
        proof {
            let u = upper_bound->0;
            lemma_max_load(sizes, u.assignment@, problem.num_processors as int);
            if max_load(sizes, u.assignment@, problem.num_processors as int) != 0 {
                let p = choose|p: int| 0 <= p < problem.num_processors && load(sizes, u.assignment@, p, u.assignment@.len() as int) == max_load(sizes, u.assignment@, problem.num_processors as int);
                lemma_load_le_total(sizes, u.assignment@, p, sizes.len() as int);
            }
        }
        let mut makespan_to_check = lower_bound;
        loop
            invariant
                lower_bound <= makespan_to_check,
                current == upper_bound->0.makespan,
                current <= usize::MAX / 2,
                problem.wf(),
                problem.num_processors >= 1,
                prefix_total(problem.job_sizes@, problem.num_jobs as int) <= usize::MAX / 2,
            decreases current - makespan_to_check,
        {
            if makespan_to_check >= current || timeout.time_finished() {
                return (lower_bound, upper_bound);
            }
            let sol = is_feasable(problem, makespan_to_check);
            if sol.is_some() {
                return (lower_bound, sol);
            }
            makespan_to_check = makespan_to_check + 1;
        }
    }
}

} // verus!
