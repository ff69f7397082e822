//! Among the `m + 1` largest jobs two share a processor, so some processor carries at
//! least the `m`-th and `m + 1`-th largest sizes.
use vstd::prelude::*;
use vstd::set_lib::lemma_int_range;
use vstd::set_lib::lemma_len_subset;
use vstd::set_lib::lemma_map_size;
use vstd::set_lib::set_int_range;
use crate::bounds::bound::Bound;
use crate::bounds::bound::lemma_makespan_bounds_load;
use crate::common::common::load;
use crate::common::timeout::Timeout;
use crate::problem_instance::problem_instance::ProblemInstance;
use crate::problem_instance::solution::Solution;

verus! {

pub struct MiddleJobs {}

impl Bound for MiddleJobs {
    open spec fn bound_requires(&self, problem: &ProblemInstance, lower_bound: usize, upper_bound: Option<Solution>) -> bool {
        &&& problem.wf()
        &&& problem.num_processors < usize::MAX
        &&& problem.num_processors + 1 < problem.num_jobs ==> {
            &&& problem.num_processors >= 1
            &&& problem.job_sizes[problem.num_processors - 1] + problem.job_sizes[problem.num_processors as int] <= usize::MAX
        }
    }

    /// With more than `m + 1` jobs, the sizes of jobs `m - 1` and `m` added up, unless the
    /// given lower bound is larger; the schedule is handed back.
    fn bound(
        &self,
        problem: &ProblemInstance,
        lower_bound: usize,
        upper_bound: Option<Solution>,
        timeout: &Timeout,
    ) -> (r: (usize, Option<Solution>))
        ensures
            r.1 == upper_bound,
            problem.num_processors + 1 >= problem.num_jobs ==> r.0 == lower_bound,
            problem.num_processors + 1 < problem.num_jobs ==> {
                let b = problem.job_sizes[problem.num_processors - 1] + problem.job_sizes[problem.num_processors as int];
                r.0 == if b >= lower_bound { b } else { lower_bound as int }
            },
    {
        if problem.num_processors + 1 >= problem.num_jobs {
            return (lower_bound, upper_bound);
        }
        let new_lower_bound = problem.job_sizes[problem.num_processors - 1] + problem.job_sizes[problem.num_processors];
        if new_lower_bound >= lower_bound {
            (new_lower_bound, upper_bound)
        } else {
            (lower_bound, upper_bound)
        }
    }
}

/// Two distinct jobs on one processor make its load at least their sizes together.
pub(crate) proof fn lemma_two_jobs(sizes: Seq<usize>, assignment: Seq<usize>, i: int, k: int, n: int)
    requires
        0 <= i < k < n,
        assignment[i] == assignment[k],
    ensures
        load(sizes, assignment, assignment[i] as int, n) >= sizes[i] + sizes[k],
    decreases n,
{
    let p = assignment[i] as int;
    if k < n - 1 {
        lemma_two_jobs(sizes, assignment, i, k, n - 1);
    } else {
        crate::bounds::bound::lemma_load_at_least(sizes, assignment, i, n - 1);
    }
}

/// Among `m + 1` jobs put on `m` processors, two share one.
pub(crate) proof fn lemma_pigeonhole(assignment: Seq<usize>, m: int) -> (r: (int, int))
    requires
        0 <= m < assignment.len(),
        forall|j: int| 0 <= j <= m ==> #[trigger] assignment[j] < m,
    ensures
        0 <= r.0 < r.1 <= m,
        assignment[r.0] == assignment[r.1],
{
    let x = set_int_range(0, m + 1);
    let f = |j: int| assignment[j] as int;
    let y = x.map(f);
    lemma_int_range(0, m + 1);
    lemma_int_range(0, m);
    assert(y.subset_of(set_int_range(0, m))) by {
        assert forall|v: int| y.contains(v) implies set_int_range(0, m).contains(v) by {
            let j = choose|j: int| x.contains(j) && f(j) == v;
        }
    }
    lemma_len_subset(y, set_int_range(0, m));
    if forall|a: int, b: int| x.contains(a) && x.contains(b) && f(a) == f(b) ==> a == b {
        assert(vstd::relations::injective_on(f, x));
        lemma_map_size(x, y, f);
        assert(false);
    }
    let (a, b) = choose|a: int, b: int| x.contains(a) && x.contains(b) && f(a) == f(b) && a != b;
    if a < b {
        (a, b)
    } else {
        (b, a)
    }
}

/// In a sorted instance with more than `m + 1` jobs, no schedule has a makespan below
/// the sizes of jobs `m - 1` and `m` together.
pub proof fn middle_jobs_is_lower_bound(problem: ProblemInstance, s: Solution)
    requires
        problem.wf(),
        problem.sorted(),
        1 <= problem.num_processors,
        problem.num_processors + 1 < problem.num_jobs,
        s.valid_for(&problem),
    ensures
        problem.job_sizes[problem.num_processors - 1] + problem.job_sizes[problem.num_processors as int] <= s.makespan,
{
    let m = problem.num_processors as int;
    let sizes = problem.job_sizes@;
    let (i, k) = lemma_pigeonhole(s.assignment@, m);
    lemma_two_jobs(sizes, s.assignment@, i, k, s.assignment.len() as int);
    lemma_makespan_bounds_load(s, problem, s.assignment[i] as int);
    assert(sizes[i] >= sizes[m - 1]);
    assert(sizes[k] >= sizes[m]);
}

} // verus!
