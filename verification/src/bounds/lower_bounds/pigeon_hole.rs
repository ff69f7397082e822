//! The pigeon-hole bound: some processor carries at least the average load.
use vstd::prelude::*;
use vstd::arithmetic::div_mod::lemma_fundamental_div_mod;
use crate::bounds::bound::Bound;
use crate::bounds::bound::lemma_sum_loads;
use crate::bounds::bound::lemma_sum_loads_le;
use crate::common::common::prefix_total;
use crate::common::timeout::Timeout;
use crate::problem_instance::problem_instance::ProblemInstance;
use crate::problem_instance::solution::Solution;

verus! {

/// `a / b` rounded up.
pub open spec fn ceil_div(a: int, b: int) -> int {
    if a % b == 0 {
        a / b
    } else {
        a / b + 1
    }
}

pub struct PigeonHole {}

impl Bound for PigeonHole {
    open spec fn bound_requires(&self, problem: &ProblemInstance, lower_bound: usize, upper_bound: Option<Solution>) -> bool {
        &&& problem.num_processors > 0
        &&& prefix_total(problem.job_sizes@, problem.job_sizes.len() as int) <= usize::MAX
    }

    /// The total size divided by the number of processors, rounded up, unless the given
    /// lower bound is larger; the schedule is handed back.
    fn bound(
        &self,
        problem: &ProblemInstance,
        lower_bound: usize,
        upper_bound: Option<Solution>,
        timeout: &Timeout,
    ) -> (r: (usize, Option<Solution>))
        ensures
            r.0 == if lower_bound >= ceil_div(prefix_total(problem.job_sizes@, problem.job_sizes.len() as int), problem.num_processors as int) {
                lower_bound as int
            } else {
                ceil_div(prefix_total(problem.job_sizes@, problem.job_sizes.len() as int), problem.num_processors as int)
            },
            r.1 == upper_bound,
    {
        let ghost sizes = problem.job_sizes@;
        let mut sum: usize = 0;
        let mut i: usize = 0;
        while i < problem.job_sizes.len()
            invariant
                sizes == problem.job_sizes@,
                i <= sizes.len(),
                sum == prefix_total(sizes, i as int),
                prefix_total(sizes, sizes.len() as int) <= usize::MAX,
            decreases sizes.len() - i,
        {
            proof {
                crate::common::common::lemma_prefix_total_monotone(sizes, i + 1, sizes.len() as int);
            }
            sum = sum + problem.job_sizes[i];
            i = i + 1;
        }
        let mut bound = sum / problem.num_processors;
        if sum % problem.num_processors != 0 {
            proof {
                let m = problem.num_processors as int;
                lemma_fundamental_div_mod(sum as int, m);
                assert(m >= 2);
                assert(m * bound >= 2 * bound) by (nonlinear_arith)
                    requires
                        m >= 2,
                        bound >= 0,
                ;
            }
            bound = bound + 1;
        }
        if lower_bound >= bound {
            (lower_bound, upper_bound)
        } else {
            (bound, upper_bound)
        }
    }
}

/// No schedule has a makespan below the total size over the number of processors,
/// rounded up.
pub proof fn pigeon_hole_is_lower_bound(problem: ProblemInstance, s: Solution)
    requires
        problem.wf(),
        problem.num_processors > 0,
        s.valid_for(&problem),
    ensures
        ceil_div(prefix_total(problem.job_sizes@, problem.job_sizes.len() as int), problem.num_processors as int) <= s.makespan,
{
    let sizes = problem.job_sizes@;
    let m = problem.num_processors as int;
    let t = prefix_total(sizes, sizes.len() as int);
    lemma_sum_loads(sizes, s.assignment@, m, s.assignment.len() as int);
    lemma_sum_loads_le(sizes, s.assignment@, m, m);
    let x = s.makespan as int;
    assert(t <= m * x);
    lemma_fundamental_div_mod(t, m);
    if ceil_div(t, m) > x {
        assert(m * (t / m) + t % m == t);
        if t % m == 0 {
            assert(t / m >= x + 1);
            assert(m * (t / m) >= m * (x + 1)) by (nonlinear_arith)
                requires
                    t / m >= x + 1,
                    m > 0,
            ;
            assert(m * (x + 1) == m * x + m) by (nonlinear_arith);
        } else {
            assert(t / m >= x);
            assert(m * (t / m) >= m * x) by (nonlinear_arith)
                requires
                    t / m >= x,
                    m > 0,
            ;
        }
    }
}

} // verus!
