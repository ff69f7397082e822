//! The subset-sum test: a processor's load is a sum of job sizes, so the makespan can be
//! lowered to the largest such sum.
use vstd::prelude::*;
use crate::bounds::upper_bounds::subset_sum::sums_to;
use crate::common::bits::Bits;
use crate::common::bits::bits_get;
use crate::common::bits::bits_set;
use crate::common::bits::bits_view;
use crate::common::bits::bits_zeros;
use crate::problem_instance::partial_solution::PartialSolution;
use crate::_failed_ideas::feasability_checking::feasability_checker::FeasabilityChecker;

verus! {

/// The largest sum of some of the first `n` sizes from `i` down to `low`, if any.
pub open spec fn largest_sum_from(sizes: Seq<usize>, n: int, low: int, i: int) -> Option<usize>
    decreases i - low + 1,
{
    if i < low || i < 0 {
        None
    } else if sums_to(sizes, n, i) {
        Some(i as usize)
    } else {
        largest_sum_from(sizes, n, low, i - 1)
    }
}

/// A sum of some sizes stays a sum when more sizes are offered.
proof fn lemma_sums_to_monotone(sizes: Seq<usize>, e1: int, e2: int, q: int)
    requires
        0 <= e1 <= e2,
        sums_to(sizes, e1, q),
    ensures
        sums_to(sizes, e2, q),
    decreases e2 - e1,
{
    if e1 < e2 {
        lemma_sums_to_monotone(sizes, e1, e2 - 1, q);
    }
}

pub struct SubsetSum {}

impl FeasabilityChecker for SubsetSum {
    open spec fn check_requires(&self, partial_solution: &PartialSolution, makespan_to_check: usize) -> bool {
        &&& partial_solution.instance.wf()
        &&& 1 <= makespan_to_check <= usize::MAX / 8
        &&& forall|j: int| 0 <= j < partial_solution.instance.num_jobs ==> #[trigger] partial_solution.instance.job_sizes@[j]
            <= usize::MAX / 2
    }

    /// The makespan itself when some jobs add up to it exactly; else the largest sum of
    /// jobs from just below it down to `lower_bound`; `None` when there is none.
    fn get_next_feasable(
        &self,
        partial_solution: &PartialSolution,
        makespan_to_check: usize,
        lower_bound: usize,
    ) -> (r: Option<usize>)
        ensures
            r == if sums_to(partial_solution.instance.job_sizes@, partial_solution.instance.num_jobs as int, makespan_to_check as int) {
                Some(makespan_to_check)
            } else {
                largest_sum_from(
                    partial_solution.instance.job_sizes@,
                    partial_solution.instance.num_jobs as int,
                    lower_bound as int,
                    makespan_to_check - 1,
                )
            },
    {
        let ghost sizes = partial_solution.instance.job_sizes@;
        let n = partial_solution.instance.num_jobs;
        let mk = makespan_to_check;
        let mut reachable: Bits = bits_zeros(mk);
        bits_set(&mut reachable, 0, true);
        let mut job: usize = 0;
        while job < n
            invariant
                sizes == partial_solution.instance.job_sizes@,
                n == partial_solution.instance.num_jobs,
                self.check_requires(partial_solution, makespan_to_check),
                mk == makespan_to_check,
                job <= n,
                bits_view(reachable).len() == mk,
                forall|q: int| 0 <= q < mk ==> (#[trigger] bits_view(reachable)[q] <==> sums_to(sizes, job as int, q)),
                !sums_to(sizes, job as int, mk as int),
            decreases n - job,
        {
            let size = partial_solution.instance.job_sizes[job];
            let ghost before = bits_view(reachable);
            let mut i: usize = mk;
            while i > 0
                invariant
                    sizes == partial_solution.instance.job_sizes@,
                    n == partial_solution.instance.num_jobs,
                    self.check_requires(partial_solution, makespan_to_check),
                    mk == makespan_to_check,
                    job < n,
                    size == sizes[job as int],
                    size <= usize::MAX / 2,
                    i <= mk,
                    bits_view(reachable).len() == mk,
                    before.len() == mk,
                    forall|q: int| 0 <= q < mk ==> (before[q] <==> sums_to(sizes, job as int, q)),
                    !sums_to(sizes, job as int, mk as int),
                    forall|q: int| i <= q < mk ==> (q + size != mk || !before[q]),
                    forall|q: int| 0 <= q < mk ==> (#[trigger] bits_view(reachable)[q] <==> (before[q] || (q >= size && q - size
                        >= i && before[q - size]))),
                decreases i,
            {
                i = i - 1;
                proof {
                    assert(bits_view(reachable)[i as int] <==> before[i as int]) by {
                        if i >= size && i - size >= i + 1 {
                        }
                    }
                }
                if bits_get(&reachable, i) && size <= mk - i {
                    if i + size == mk {
                        proof {
                            assert(sums_to(sizes, job + 1, mk as int));
                            lemma_sums_to_monotone(sizes, job + 1, n as int, mk as int);
                        }
                        return Some(mk);
                    }
                    bits_set(&mut reachable, i + size, true);
                }
            }
            proof {
                assert forall|q: int| 0 <= q < mk implies (#[trigger] bits_view(reachable)[q] <==> sums_to(sizes, job + 1, q)) by {
                    if q >= size && before[q - size] {
                        assert(sums_to(sizes, job + 1, q));
                    }
                }
                if sums_to(sizes, job + 1, mk as int) {
                    if size == 0 {
                    } else {
                        assert(before[mk - size]);
                    }
                }
            }
            job = job + 1;
        }
        let mut i: usize = mk;
        while i > lower_bound
            invariant
                sizes == partial_solution.instance.job_sizes@,
                n == partial_solution.instance.num_jobs,
                mk == makespan_to_check,
                i <= mk,
                bits_view(reachable).len() == mk,
                forall|q: int| 0 <= q < mk ==> (#[trigger] bits_view(reachable)[q] <==> sums_to(sizes, n as int, q)),
                !sums_to(sizes, n as int, mk as int),
                largest_sum_from(sizes, n as int, lower_bound as int, mk - 1) == largest_sum_from(
                    sizes,
                    n as int,
                    lower_bound as int,
                    i - 1,
                ),
            decreases i,
        {
            i = i - 1;
            if bits_get(&reachable, i) {
                return Some(i);
            }
        }
        None
    }
}

} // verus!
