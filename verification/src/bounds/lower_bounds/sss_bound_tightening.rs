//! Subset-sum strengthening: the makespan is the load of some processor, so it is a sum of
//! job sizes. The lower bound rises to the smallest such sum.
use vstd::prelude::*;
use crate::bounds::bound::Bound;
use crate::bounds::upper_bounds::subset_sum::sums_to;
use crate::common::bits::Bits;
use crate::common::bits::bits_get;
use crate::common::bits::bits_set;
use crate::common::bits::bits_view;
use crate::common::bits::bits_zeros;
use crate::common::common::lemma_max_load;
use crate::common::common::load;
use crate::common::common::max_load;
use crate::common::timeout::Timeout;
use crate::problem_instance::problem_instance::ProblemInstance;
use crate::problem_instance::solution::Solution;

verus! {

pub struct SSSBoundStrengthening {}

/// A load is a sum of some of the job sizes.
pub proof fn lemma_load_is_subset_sum(sizes: Seq<usize>, assignment: Seq<usize>, p: int, k: int)
    requires
        0 <= k,
    ensures
        sums_to(sizes, k, load(sizes, assignment, p, k)),
    decreases k,
{
    if k > 0 {
        lemma_load_is_subset_sum(sizes, assignment, p, k - 1);
        crate::common::common::lemma_load_nonneg(sizes, assignment, p, k - 1);
    }
}

/// A makespan is a sum of some of the job sizes.
pub proof fn lemma_makespan_is_subset_sum(problem: ProblemInstance, s: Solution)
    requires
        problem.wf(),
        s.valid_for(&problem),
    ensures
        sums_to(problem.job_sizes@, problem.num_jobs as int, s.makespan as int),
{
    let sizes = problem.job_sizes@;
    let m = problem.num_processors as int;
    lemma_max_load(sizes, s.assignment@, m);
    if max_load(sizes, s.assignment@, m) == 0 {
        lemma_sums_to_zero(sizes, problem.num_jobs as int);
    } else {
        let p = choose|p: int| 0 <= p < m && load(sizes, s.assignment@, p, s.assignment@.len() as int) == max_load(sizes, s.assignment@, m);
        lemma_load_is_subset_sum(sizes, s.assignment@, p, problem.num_jobs as int);
    }
}

proof fn lemma_sums_to_zero(els: Seq<usize>, e: int)
    ensures
        sums_to(els, e, 0),
    decreases e,
{
    if e > 0 {
        lemma_sums_to_zero(els, e - 1);
    }
}

impl Bound for SSSBoundStrengthening {
    open spec fn bound_requires(&self, problem: &ProblemInstance, lower_bound: usize, upper_bound: Option<Solution>) -> bool {
        &&& problem.wf()
        &&& upper_bound is Some
        &&& upper_bound->0.valid_for(problem)
        &&& upper_bound->0.makespan < usize::MAX / 8
        &&& lower_bound <= upper_bound->0.makespan
    }

    /// The smallest sum of job sizes from the lower bound up; the schedule is handed back.
    fn bound(
        &self,
        problem: &ProblemInstance,
        lower_bound: usize,
        upper_bound: Option<Solution>,
        timeout: &Timeout,
    ) -> (r: (usize, Option<Solution>))
        ensures
            lower_bound <= r.0 <= upper_bound->0.makespan,
            sums_to(problem.job_sizes@, problem.num_jobs as int, r.0 as int),
            forall|q: int| lower_bound <= q < r.0 ==> !sums_to(problem.job_sizes@, problem.num_jobs as int, q),
            r.1 == upper_bound,
    {
        let ghost sizes = problem.job_sizes@;
        let upper = match &upper_bound {
            Some(u) => u.makespan,
            None => {
                return (lower_bound, upper_bound);
            },
        };
        proof {
            lemma_makespan_is_subset_sum(*problem, upper_bound->0);
        }
        let mut reachable: Bits = bits_zeros(upper + 1);
        bits_set(&mut reachable, 0, true);
        proof {
            assert forall|q: int| 0 <= q <= upper implies (#[trigger] bits_view(reachable)[q] <==> sums_to(sizes, 0, q)) by {
            }
        }
        let mut job: usize = 0;
        while job < problem.num_jobs
            invariant
                sizes == problem.job_sizes@,
                problem.wf(),
                job <= problem.num_jobs,
                bits_view(reachable).len() == upper + 1,
                forall|q: int| 0 <= q <= upper ==> (#[trigger] bits_view(reachable)[q] <==> sums_to(sizes, job as int, q)),
            decreases problem.num_jobs - job,
        {
            let size = problem.job_sizes[job];
            let ghost before = bits_view(reachable);
            let mut i: usize = upper;
            while i > 0
                invariant
                    sizes == problem.job_sizes@,
                    problem.wf(),
                    job < problem.num_jobs,
                    size == sizes[job as int],
                    i <= upper,
                    bits_view(reachable).len() == upper + 1,
                    before.len() == upper + 1,
                    forall|q: int| 0 <= q <= upper ==> (before[q] <==> sums_to(sizes, job as int, q)),
                    forall|q: int| 0 <= q <= upper ==> (#[trigger] bits_view(reachable)[q] <==> (before[q]
                        || (q >= size && q - size >= i && q - size < upper && before[q - size]))),
                decreases i,
            {
                i = i - 1;
                // positions above `i` may have changed; the one read here has not
                proof {
                    assert(bits_view(reachable)[i as int] <==> before[i as int]) by {
                        if i >= size && i - size >= i + 1 {
                        }
                    }
                }
                if bits_get(&reachable, i) && size <= upper - i {
                    bits_set(&mut reachable, i + size, true);
                }
            }
            proof {
                assert forall|q: int| 0 <= q <= upper implies (#[trigger] bits_view(reachable)[q] <==> sums_to(sizes, job + 1, q)) by {
                    if q >= size && q - size < upper && before[q - size] {
                    }
                    if q == upper && size == 0 {
                    }
                }
            }
            job = job + 1;
        }
        let mut i: usize = lower_bound;
        while i <= upper
            invariant
                sizes == problem.job_sizes@,
                lower_bound <= i,
                i <= upper + 1,
                bits_view(reachable).len() == upper + 1,
                forall|q: int| 0 <= q <= upper ==> (#[trigger] bits_view(reachable)[q] <==> sums_to(sizes, problem.num_jobs as int, q)),
                forall|q: int| lower_bound <= q < i ==> !sums_to(sizes, problem.num_jobs as int, q),
                sums_to(sizes, problem.num_jobs as int, upper as int),
                upper == upper_bound->0.makespan,
            decreases upper + 1 - i,
        {
            if bits_get(&reachable, i) {
                return (i, upper_bound);
            }
            i = i + 1;
        }
        proof {
            assert(bits_view(reachable)[upper as int]);
        }
        (upper, upper_bound)
    }
}

/// The strengthened bound is a lower bound: no schedule has a makespan from the given lower
/// bound up that is below it.
pub proof fn sss_is_lower_bound(problem: ProblemInstance, lower_bound: usize, bound: usize, s: Solution)
    requires
        problem.wf(),
        s.valid_for(&problem),
        lower_bound <= s.makespan,
        forall|q: int| lower_bound <= q < bound ==> !sums_to(problem.job_sizes@, problem.num_jobs as int, q),
    ensures
        bound <= s.makespan,
{
    lemma_makespan_is_subset_sum(problem, s);
}

} // verus!
