//! Filling processors one after the other: each takes a subset of the remaining jobs of
//! the largest size up to the target makespan.
use vstd::prelude::*;
use crate::bounds::bound::Bound;
use crate::bounds::upper_bounds::subset_sum::largest_reached;
use crate::bounds::upper_bounds::subset_sum::stop_point;
use crate::bounds::upper_bounds::subset_sum::subset_sum_upto;
use crate::bounds::upper_bounds::subset_sum::sum_at;
use crate::bounds::upper_bounds::subset_sum::sums_to;
use crate::bounds::upper_bounds::subset_sum::lemma_best_subset_sum;
use crate::bounds::upper_bounds::subset_sum::lemma_sums_to_all;
use crate::bounds::upper_bounds::subset_sum::lemma_sum_at_le_total;
use crate::common::common::lemma_max_load_le;
use crate::common::common::lemma_prefix_total_monotone;
use crate::common::common::calc_makespan;
use crate::common::common::lemma_load_le_total;
use crate::common::common::lemma_max_load;
use crate::common::common::load;
use crate::common::common::max_load;
use crate::common::common::prefix_total;
use crate::common::timeout::Timeout;
use crate::problem_instance::partial_solution::copy_usizes;
use crate::problem_instance::problem_instance::ProblemInstance;
use crate::problem_instance::solution::Solution;

verus! {

pub struct Lptpp {}

/// Positions of elements, in decreasing order and of positive elements, that add up to the
/// largest subset sum up to `goal`.
pub fn subset_sum(elements: &Vec<usize>, goal: usize) -> (result: Vec<usize>)
    requires
        1 <= elements.len() <= 32768,
        goal < usize::MAX,
        forall|k: int| 0 <= k < elements.len() ==> #[trigger] elements[k] <= goal,
    ensures
        forall|i: int, j: int| 0 <= i < j < result.len() ==> result[i] > result[j],
        forall|i: int| 0 <= i < result.len() ==> #[trigger] result[i] < elements.len() && elements[result[i] as int] >= 1,
        sum_at(elements@, result@) == largest_reached(elements@, stop_point(elements@, goal as int, 1), goal as int),
        sum_at(elements@, result@) == 0 || sums_to(elements@, elements.len() as int, sum_at(elements@, result@)),
        forall|q: int| sum_at(elements@, result@) < q <= goal ==> !#[trigger] sums_to(elements@, elements.len() as int, q),
{
    proof {
        lemma_best_subset_sum(elements@, goal as int);
    }
    subset_sum_upto(elements, goal, goal)
}

/// When all the elements, each positive, add up to at most `goal`, the best subset sum up to
/// `goal` takes every one of them.
pub proof fn lemma_best_sum_takes_all(els: Seq<usize>, res: Seq<usize>, goal: int)
    requires
        1 <= els.len(),
        prefix_total(els, els.len() as int) <= goal,
        forall|k: int| 0 <= k < els.len() ==> #[trigger] els[k] >= 1,
        forall|i: int, j: int| 0 <= i < j < res.len() ==> res[i] > res[j],
        forall|i: int| 0 <= i < res.len() ==> #[trigger] res[i] < els.len(),
        forall|q: int| sum_at(els, res) < q <= goal ==> !#[trigger] sums_to(els, els.len() as int, q),
    ensures
        forall|k: int| 0 <= k < els.len() ==> #[trigger] res.contains(k as usize),
{
    let n = els.len() as int;
    lemma_sums_to_all(els, n);
    assert forall|k: int| 0 <= k < n implies #[trigger] res.contains(k as usize) by {
        lemma_sum_at_le_total(els, res, n, k);
        if !res.contains(k as usize) {
            assert(sums_to(els, n, prefix_total(els, n)));
        }
    }
}

/// The jobs that fit on every processor, filled one processor at a time; a schedule when
/// every job found a place within `max_makespan`. When the jobs, each of positive size, add
/// up to at most `max_makespan`, the first processor takes them all and the schedule is
/// found.
pub fn is_feasable(instance: &ProblemInstance, max_makespan: usize) -> (r: Option<Solution>)
    requires
        instance.wf(),
        1 <= instance.num_jobs <= 32768,
        max_makespan < usize::MAX,
        forall|j: int| 0 <= j < instance.num_jobs ==> #[trigger] instance.job_sizes[j] <= max_makespan,
        prefix_total(instance.job_sizes@, instance.num_jobs as int) <= usize::MAX,
    ensures
        r is Some ==> r->0.valid_for(instance) && r->0.makespan <= max_makespan,
        prefix_total(instance.job_sizes@, instance.num_jobs as int) <= max_makespan
            && instance.num_processors >= 1
            && (forall|j: int| 0 <= j < instance.num_jobs ==> #[trigger] instance.job_sizes[j] >= 1) ==> r is Some,
{
    let ghost fits = prefix_total(instance.job_sizes@, instance.num_jobs as int) <= max_makespan
        && (forall|j: int| 0 <= j < instance.num_jobs ==> #[trigger] instance.job_sizes[j] >= 1);
    let n = instance.num_jobs;
    let m = instance.num_processors;
    let mut assignment: Vec<usize> = Vec::new();
    while assignment.len() < n
        invariant
            assignment.len() <= n,
            forall|j: int| 0 <= j < assignment.len() ==> #[trigger] assignment[j] == usize::MAX || assignment[j] < m,
        decreases n - assignment.len(),
    {
        assignment.push(usize::MAX);
    }
    let mut elements = copy_usizes(&instance.job_sizes);
    let mut processor: usize = 0;
    while processor < m
        invariant
            processor <= m,
            m == instance.num_processors,
            n == instance.num_jobs,
            1 <= n <= 32768,
            max_makespan < usize::MAX,
            elements.len() == n,
            assignment.len() == n,
            forall|k: int| 0 <= k < n ==> #[trigger] elements[k] <= max_makespan,
            forall|j: int| 0 <= j < n ==> #[trigger] assignment[j] == usize::MAX || assignment[j] < m,
            processor == 0 ==> elements@ == instance.job_sizes@,
            fits == (prefix_total(instance.job_sizes@, instance.num_jobs as int) <= max_makespan
                && (forall|j: int| 0 <= j < instance.num_jobs ==> #[trigger] instance.job_sizes[j] >= 1)),
            processor >= 1 && fits ==> forall|j: int| 0 <= j < n ==> #[trigger] assignment[j] != usize::MAX,
        decreases m - processor,
    {
        let feasable = subset_sum(&elements, max_makespan);
        proof {
            if processor == 0 && fits {
                lemma_best_sum_takes_all(elements@, feasable@, max_makespan as int);
            }
        }
        let ghost before = assignment@;
        let mut t: usize = 0;
        while t < feasable.len()
            invariant
                processor < m,
                m == instance.num_processors,
                elements.len() == n,
                assignment.len() == n,
                forall|i: int| 0 <= i < feasable.len() ==> #[trigger] feasable[i] < n,
                forall|k: int| 0 <= k < n ==> #[trigger] elements[k] <= max_makespan,
                forall|j: int| 0 <= j < n ==> #[trigger] assignment[j] == usize::MAX || assignment[j] < m,
                forall|j: int| 0 <= j < n && before[j] != usize::MAX ==> #[trigger] assignment@[j] != usize::MAX,
                forall|i: int| 0 <= i < t ==> #[trigger] assignment@[feasable@[i] as int] != usize::MAX,
                t <= feasable.len(),
                before.len() == n,
            decreases feasable.len() - t,
        {
            let job = feasable[t];
            elements.set(job, 0);
            assignment.set(job, processor);
            t = t + 1;
        }
        proof {
            if fits {
                assert forall|j: int| 0 <= j < n implies #[trigger] assignment@[j] != usize::MAX by {
                    if processor == 0 {
                        assert(feasable@.contains(j as usize));
                        let i = choose|i: int| 0 <= i < feasable@.len() && feasable@[i] == j as usize;
                        assert(assignment@[feasable@[i] as int] != usize::MAX);
                    } else {
                        assert(before[j] != usize::MAX);
                    }
                }
            }
        }
        processor = processor + 1;
    }
    let mut j: usize = 0;
    while j < n
        invariant
            j <= n,
            assignment.len() == n,
            forall|k: int| 0 <= k < j ==> #[trigger] assignment[k] != usize::MAX,
            m == instance.num_processors,
            n == instance.num_jobs,
            fits == (prefix_total(instance.job_sizes@, instance.num_jobs as int) <= max_makespan
                && (forall|j: int| 0 <= j < instance.num_jobs ==> #[trigger] instance.job_sizes[j] >= 1)),
            fits && m >= 1 ==> forall|k: int| 0 <= k < n ==> #[trigger] assignment@[k] != usize::MAX,
        decreases n - j,
    {
        if assignment[j] == usize::MAX {
            return None;
        }
        j = j + 1;
    }
    proof {
        assert forall|p: int| 0 <= p < m implies #[trigger] load(instance.job_sizes@, assignment@, p, assignment@.len() as int) <= usize::MAX by {
            lemma_load_le_total(instance.job_sizes@, assignment@, p, n as int);
        }
    }
    let makespan = calc_makespan(instance, &assignment);
    proof {
        if fits {
            assert forall|p: int| 0 <= p < m implies #[trigger] load(instance.job_sizes@, assignment@, p, assignment@.len() as int) <= max_makespan by {
                lemma_load_le_total(instance.job_sizes@, assignment@, p, n as int);
            }
            lemma_max_load_le(instance.job_sizes@, assignment@, m as int, max_makespan as int);
        }
    }
    if makespan > max_makespan {
        return None;
    }
    Some(Solution { makespan, assignment })
}

impl Bound for Lptpp {
    open spec fn bound_requires(&self, problem: &ProblemInstance, lower_bound: usize, upper_bound: Option<Solution>) -> bool {
        &&& problem.wf()
        &&& 1 <= problem.num_jobs <= 32768
        &&& forall|j: int| 0 <= j < problem.num_jobs ==> #[trigger] problem.job_sizes[j] <= lower_bound
        &&& prefix_total(problem.job_sizes@, problem.num_jobs as int) < usize::MAX
        &&& upper_bound is Some
        &&& upper_bound->0.valid_for(problem)
    }

    /// Tries the makespans from the lower bound up to that of the given schedule, and hands
    /// back the first schedule found (or the given one). The lower bound is handed back
    /// unchanged.
    fn bound(
        &self,
        problem: &ProblemInstance,
        lower_bound: usize,
        upper_bound: Option<Solution>,
        timeout: &Timeout,
    ) -> (r: (usize, Option<Solution>))
        ensures
            r.0 == lower_bound,
            r.1 == upper_bound || (r.1 is Some && r.1->0.valid_for(problem) && r.1->0.makespan < upper_bound->0.makespan),
    {
        let ghost sizes = problem.job_sizes@;
        let current = match &upper_bound {
            Some(u) => u.makespan,
            None => {
                return (lower_bound, upper_bound);
            },
        };
        proof {
            let u = upper_bound->0;
            lemma_max_load(sizes, u.assignment@, problem.num_processors as int);
            if max_load(sizes, u.assignment@, problem.num_processors as int) != 0 {
                let p = choose|p: int| 0 <= p < problem.num_processors && load(sizes, u.assignment@, p, u.assignment@.len() as int) == max_load(sizes, u.assignment@, problem.num_processors as int);
                lemma_load_le_total(sizes, u.assignment@, p, sizes.len() as int);
            }
        }
        let mut makespan_to_check = lower_bound;
        loop
            invariant
                lower_bound <= makespan_to_check,
                current == upper_bound->0.makespan,
                current < usize::MAX,
                problem.wf(),
                1 <= problem.num_jobs <= 32768,
                forall|j: int| 0 <= j < problem.num_jobs ==> #[trigger] problem.job_sizes[j] <= lower_bound,
                prefix_total(problem.job_sizes@, problem.num_jobs as int) < usize::MAX,
            decreases current - makespan_to_check,
        {
            if makespan_to_check >= current || timeout.time_finished() {
                return (lower_bound, upper_bound);
            }
            let sol = is_feasable(problem, makespan_to_check);
            if sol.is_some() {
                return (lower_bound, sol);
            }
            makespan_to_check = makespan_to_check + 1;
        }
    }
}

} // verus!
