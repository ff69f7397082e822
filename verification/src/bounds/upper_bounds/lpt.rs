//! The greedy list schedule: jobs in order, each onto the first least loaded processor.
//! With the jobs sorted by size this is the LPT heuristic.
use vstd::prelude::*;
use crate::bounds::bound::Bound;
use crate::common::common::lemma_load_monotone;
use crate::common::common::lemma_prefix_total_monotone;
use crate::common::common::load;
use crate::common::common::max_load;
use crate::common::common::prefix_total;
use crate::common::timeout::Timeout;
use crate::problem_instance::problem_instance::ProblemInstance;
use crate::problem_instance::solution::Solution;

verus! {

/// The first processor among `0..q` with the smallest load from the first `k` jobs.
pub open spec fn argmin_load(sizes: Seq<usize>, assignment: Seq<usize>, k: int, q: int) -> int
    decreases q,
{
    if q <= 1 {
        0
    } else {
        let a = argmin_load(sizes, assignment, k, q - 1);
        if load(sizes, assignment, q - 1, k) < load(sizes, assignment, a, k) {
            q - 1
        } else {
            a
        }
    }
}

/// The greedy schedule of the first `k` jobs on `m` processors: each job goes to the first
/// processor with the smallest load from the jobs before it.
pub open spec fn lpt_assignment(sizes: Seq<usize>, m: int, k: int) -> Seq<usize>
    decreases k,
{
    if k <= 0 {
        Seq::empty()
    } else {
        let prev = lpt_assignment(sizes, m, k - 1);
        prev.push(argmin_load(sizes, prev, k - 1, m) as usize)
    }
}

/// Loads of the first `k` jobs do not look past them.
pub proof fn lemma_load_push(sizes: Seq<usize>, assignment: Seq<usize>, e: usize, p: int, k: int)
    requires
        k <= assignment.len(),
    ensures
        load(sizes, assignment.push(e), p, k) == load(sizes, assignment, p, k),
    decreases k,
{
    if k > 0 {
        lemma_load_push(sizes, assignment, e, p, k - 1);
    }
}

proof fn lemma_argmin_range(sizes: Seq<usize>, assignment: Seq<usize>, k: int, q: int)
    requires
        q >= 1,
    ensures
        0 <= argmin_load(sizes, assignment, k, q) < q,
        forall|p: int| 0 <= p < q ==> load(sizes, assignment, argmin_load(sizes, assignment, k, q), k) <= #[trigger] load(sizes, assignment, p, k),
    decreases q,
{
    if q > 1 {
        lemma_argmin_range(sizes, assignment, k, q - 1);
    }
}

proof fn lemma_lpt_assignment(sizes: Seq<usize>, m: int, k: int)
    requires
        m >= 1,
        k >= 0,
    ensures
        lpt_assignment(sizes, m, k).len() == k,
        forall|j: int| 0 <= j < k ==> #[trigger] lpt_assignment(sizes, m, k)[j] < m,
    decreases k,
{
    if k > 0 {
        lemma_lpt_assignment(sizes, m, k - 1);
        lemma_argmin_range(sizes, lpt_assignment(sizes, m, k - 1), k - 1, m);
    }
}

/// The greedy schedule, with the load of each processor.
pub fn lpt_schedule(instance: &ProblemInstance) -> (r: (Vec<usize>, Vec<usize>))
    requires
        instance.num_processors >= 1,
        prefix_total(instance.job_sizes@, instance.job_sizes.len() as int) <= usize::MAX,
    ensures
        r.0@ == lpt_assignment(instance.job_sizes@, instance.num_processors as int, instance.job_sizes.len() as int),
        r.1.len() == instance.num_processors,
        forall|p: int| 0 <= p < instance.num_processors ==> #[trigger] r.1@[p] == load(instance.job_sizes@, r.0@, p, r.0.len() as int),
{
    let ghost sizes = instance.job_sizes@;
    let m = instance.num_processors;
    let mut solution: Vec<usize> = Vec::new();
    let mut total_sizes: Vec<usize> = Vec::new();
    let mut q: usize = 0;
    while q < m
        invariant
            q <= m,
            total_sizes@ == Seq::new(q as nat, |p: int| 0usize),
        decreases m - q,
    {
        total_sizes.push(0);
        q = q + 1;
        proof {
            assert(total_sizes@ =~= Seq::new(q as nat, |p: int| 0usize));
        }
    }
    let mut i: usize = 0;
    while i < instance.job_sizes.len()
        invariant
            sizes == instance.job_sizes@,
            m == instance.num_processors,
            m >= 1,
            prefix_total(sizes, sizes.len() as int) <= usize::MAX,
            i <= sizes.len(),
            solution@ == lpt_assignment(sizes, m as int, i as int),
            total_sizes.len() == m,
            forall|p: int| 0 <= p < m ==> #[trigger] total_sizes@[p] == load(sizes, solution@, p, i as int),
        decreases sizes.len() - i,
    {
        proof {
            lemma_lpt_assignment(sizes, m as int, i as int);
        }
        // the first processor with the smallest load
        let mut emptiest_processor: usize = 0;
        let mut p: usize = 1;
        while p < m
            invariant
                m == total_sizes.len(),
                1 <= p <= m,
                emptiest_processor == argmin_load(sizes, solution@, i as int, p as int),
                forall|p2: int| 0 <= p2 < m ==> #[trigger] total_sizes@[p2] == load(sizes, solution@, p2, i as int),
            decreases m - p,
        {
            proof {
                lemma_argmin_range(sizes, solution@, i as int, p as int);
            }
            if total_sizes[p] < total_sizes[emptiest_processor] {
                emptiest_processor = p;
            }
            p = p + 1;
        }
        proof {
            lemma_argmin_range(sizes, solution@, i as int, m as int);
            lemma_load_monotone(sizes, solution@.push(emptiest_processor), emptiest_processor as int, i + 1, sizes.len() as int);
            crate::common::common::lemma_load_le_total(sizes, solution@.push(emptiest_processor), emptiest_processor as int, sizes.len() as int);
            lemma_load_push(sizes, solution@, emptiest_processor, emptiest_processor as int, i as int);
        }
        let size = instance.job_sizes[i];
        let old_total = total_sizes[emptiest_processor];
        total_sizes.set(emptiest_processor, old_total + size);
        let ghost before = solution@;
        solution.push(emptiest_processor);
        proof {
            assert forall|p2: int| 0 <= p2 < m implies #[trigger] total_sizes@[p2] == load(sizes, solution@, p2, i + 1) by {
                lemma_load_push(sizes, before, emptiest_processor, p2, i as int);
            }
        }
        i = i + 1;
    }
    proof {
        lemma_lpt_assignment(sizes, m as int, i as int);
    }
    (solution, total_sizes)
}

/// The largest of the loads, which is the makespan.
pub fn largest_load(sizes: &Vec<usize>, assignment: &Vec<usize>, totals: &Vec<usize>) -> (r: usize)
    requires
        forall|p: int| 0 <= p < totals.len() ==> #[trigger] totals@[p] == load(sizes@, assignment@, p, assignment.len() as int),
    ensures
        r == max_load(sizes@, assignment@, totals.len() as int),
{
    let mut r: usize = 0;
    let mut p: usize = 0;
    while p < totals.len()
        invariant
            p <= totals.len(),
            r == max_load(sizes@, assignment@, p as int),
            forall|p2: int| 0 <= p2 < totals.len() ==> #[trigger] totals@[p2] == load(sizes@, assignment@, p2, assignment.len() as int),
        decreases totals.len() - p,
    {
        if totals[p] > r {
            r = totals[p];
        }
        p = p + 1;
    }
    r
}

pub struct LPT {}

impl Bound for LPT {
    open spec fn bound_requires(&self, problem: &ProblemInstance, lower_bound: usize, upper_bound: Option<Solution>) -> bool {
        &&& problem.num_processors >= 1
        &&& prefix_total(problem.job_sizes@, problem.job_sizes.len() as int) <= usize::MAX
        &&& 3 * max_load(problem.job_sizes@, lpt_assignment(problem.job_sizes@, problem.num_processors as int,
            problem.job_sizes.len() as int), problem.num_processors as int) <= usize::MAX
    }

    /// Schedules greedily; the result replaces the given schedule when there is none or
    /// when it is shorter. The lower bound becomes three quarters of the greedy makespan,
    /// plus one, unless the given one is larger.
    fn bound(
        &self,
        instance: &ProblemInstance,
        lower_bound: usize,
        upper_bound: Option<Solution>,
        timeout: &Timeout,
    ) -> (r: (usize, Option<Solution>))
        ensures
            ({
                let sizes = instance.job_sizes@;
                let m = instance.num_processors as int;
                let asg = lpt_assignment(sizes, m, sizes.len() as int);
                let mk = max_load(sizes, asg, m);
                &&& r.0 == if lower_bound >= (mk * 3) / 4 + 1 { lower_bound as int } else { (mk * 3) / 4 + 1 }
                &&& (upper_bound is None || upper_bound->0.makespan > mk) ==> {
                    &&& r.1 is Some
                    &&& r.1->0.assignment@ == asg
                    &&& r.1->0.makespan == mk
                }
                &&& !(upper_bound is None || upper_bound->0.makespan > mk) ==> r.1 == upper_bound
            }),
    {
        proof {
            lemma_prefix_total_monotone(instance.job_sizes@, 0, instance.job_sizes.len() as int);
        }
        let (solution, total_sizes) = lpt_schedule(instance);
        let makespan = largest_load(&instance.job_sizes, &solution, &total_sizes);
        proof {
            lpt_makespan_bound(instance.job_sizes@, instance.num_processors as int);
        }
        let new_lower_bound = (makespan * 3) / 4 + 1;
        let lower_bound = if new_lower_bound >= lower_bound {
            new_lower_bound
        } else {
            lower_bound
        };
        let replace = match &upper_bound {
            None => true,
            Some(u) => u.makespan > makespan,
        };
        if replace {
            return (lower_bound, Some(Solution { makespan, assignment: solution }));
        }
        (lower_bound, upper_bound)
    }
}

/// The greedy schedule is a schedule of the instance.
pub proof fn lpt_is_valid(problem: ProblemInstance)
    requires
        problem.wf(),
        problem.num_processors >= 1,
    ensures
        ({
            let asg = lpt_assignment(problem.job_sizes@, problem.num_processors as int, problem.num_jobs as int);
            &&& asg.len() == problem.num_jobs
            &&& forall|j: int| 0 <= j < asg.len() ==> #[trigger] asg[j] < problem.num_processors
        }),
{
    lemma_lpt_assignment(problem.job_sizes@, problem.num_processors as int, problem.num_jobs as int);
}

/// The greedy makespan is at most the total size.
pub proof fn lpt_makespan_bound(sizes: Seq<usize>, m: int)
    requires
        m >= 1,
    ensures
        0 <= max_load(sizes, lpt_assignment(sizes, m, sizes.len() as int), m) <= prefix_total(sizes, sizes.len() as int),
{
    let asg = lpt_assignment(sizes, m, sizes.len() as int);
    lemma_lpt_assignment(sizes, m, sizes.len() as int);
    crate::common::common::lemma_max_load(sizes, asg, m);
    lemma_prefix_total_monotone(sizes, 0, sizes.len() as int);
    if max_load(sizes, asg, m) != 0 {
        let p = choose|p: int| 0 <= p < m && load(sizes, asg, p, asg.len() as int) == max_load(sizes, asg, m);
        crate::common::common::lemma_load_le_total(sizes, asg, p, sizes.len() as int);
    }
}

} // verus!
