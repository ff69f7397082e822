//! The makespan of an assignment of jobs to processors, and a search for the first
//! occurrence of a value.
use vstd::prelude::*;
use crate::problem_instance::problem_instance::ProblemInstance;

verus! {

/// The sum of the first `n` sizes.
pub open spec fn prefix_total(sizes: Seq<usize>, n: int) -> int
    decreases n,
{
    if n <= 0 {
        0
    } else {
        prefix_total(sizes, n - 1) + sizes[n - 1]
    }
}

/// Sums of longer prefixes are larger, and every size is at most the total.
pub proof fn lemma_prefix_total_monotone(sizes: Seq<usize>, n1: int, n2: int)
    requires
        0 <= n1 <= n2 <= sizes.len(),
    ensures
        0 <= prefix_total(sizes, n1) <= prefix_total(sizes, n2),
        n1 < n2 ==> prefix_total(sizes, n1) + sizes[n1] <= prefix_total(sizes, n2),
    decreases n2 - n1,
{
    if n1 < n2 {
        lemma_prefix_total_monotone(sizes, n1, n2 - 1);
        if n1 < n2 - 1 {
        }
    } else {
        lemma_prefix_total_nonneg(sizes, n1);
    }
}

proof fn lemma_prefix_total_nonneg(sizes: Seq<usize>, n: int)
    ensures
        prefix_total(sizes, n) >= 0,
    decreases n,
{
    if n > 0 {
        lemma_prefix_total_nonneg(sizes, n - 1);
    }
}

/// The load that the first `n` jobs put on processor `p` (job `j` goes to `assignment[j]`).
pub open spec fn load(sizes: Seq<usize>, assignment: Seq<usize>, p: int, n: int) -> int
    decreases n,
{
    if n <= 0 {
        0
    } else {
        load(sizes, assignment, p, n - 1) + if assignment[n - 1] == p {
            sizes[n - 1] as int
        } else {
            0
        }
    }
}

/// The largest load over the processors `0..m` (`0` when there are none).
pub open spec fn max_load(sizes: Seq<usize>, assignment: Seq<usize>, m: int) -> int
    decreases m,
{
    if m <= 0 {
        0
    } else {
        let prev = max_load(sizes, assignment, m - 1);
        let here = load(sizes, assignment, m - 1, assignment.len() as int);
        if prev >= here {
            prev
        } else {
            here
        }
    }
}

/// Loads only grow as more jobs are counted.
pub proof fn lemma_load_monotone(sizes: Seq<usize>, assignment: Seq<usize>, p: int, n1: int, n2: int)
    requires
        n1 <= n2,
    ensures
        0 <= load(sizes, assignment, p, n1) <= load(sizes, assignment, p, n2),
    decreases n2 - n1,
{
    if n1 < n2 {
        lemma_load_monotone(sizes, assignment, p, n1, n2 - 1);
        if n2 - 1 >= 0 {
            lemma_load_nonneg(sizes, assignment, p, n2 - 1);
        }
    } else {
        lemma_load_nonneg(sizes, assignment, p, n1);
    }
}

/// Moving an unplaced job `k` (one not on `p`) onto processor `e` adds its size to `p`'s
/// load exactly when `p` is `e`.
pub proof fn lemma_load_update(sizes: Seq<usize>, assignment: Seq<usize>, k: int, e: usize, p: int, n: int)
    requires
        0 <= k < n <= assignment.len(),
        assignment[k] != p,
    ensures
        load(sizes, assignment.update(k, e), p, n) == load(sizes, assignment, p, n) + if e == p {
            sizes[k] as int
        } else {
            0
        },
    decreases n,
{
    if n - 1 > k {
        lemma_load_update(sizes, assignment, k, e, p, n - 1);
    } else {
        lemma_load_unchanged(sizes, assignment, assignment.update(k, e), p, k);
    }
}

/// Loads of the first `n` jobs only look at their entries.
pub proof fn lemma_load_unchanged(sizes: Seq<usize>, a: Seq<usize>, b: Seq<usize>, p: int, n: int)
    requires
        n <= a.len(),
        n <= b.len(),
        forall|j: int| 0 <= j < n ==> a[j] == b[j],
    ensures
        load(sizes, a, p, n) == load(sizes, b, p, n),
    decreases n,
{
    if n > 0 {
        lemma_load_unchanged(sizes, a, b, p, n - 1);
    }
}

/// When every load is at most `bound`, so is the largest.
pub proof fn lemma_max_load_le(sizes: Seq<usize>, assignment: Seq<usize>, m: int, bound: int)
    requires
        bound >= 0,
        forall|p: int| 0 <= p < m ==> #[trigger] load(sizes, assignment, p, assignment.len() as int) <= bound,
    ensures
        max_load(sizes, assignment, m) <= bound,
    decreases m,
{
    if m > 0 {
        lemma_max_load_le(sizes, assignment, m - 1, bound);
    }
}

/// A load is at most the total size of the jobs counted.
pub proof fn lemma_load_le_total(sizes: Seq<usize>, assignment: Seq<usize>, p: int, n: int)
    ensures
        load(sizes, assignment, p, n) <= prefix_total(sizes, n),
    decreases n,
{
    if n > 0 {
        lemma_load_le_total(sizes, assignment, p, n - 1);
    }
}

/// A load is never negative.
pub proof fn lemma_load_nonneg(sizes: Seq<usize>, assignment: Seq<usize>, p: int, n: int)
    ensures
        load(sizes, assignment, p, n) >= 0,
    decreases n,
{
    if n > 0 {
        lemma_load_nonneg(sizes, assignment, p, n - 1);
    }
}

/// The largest load bounds each load and is one of them (or `0`).
pub proof fn lemma_max_load(sizes: Seq<usize>, assignment: Seq<usize>, m: int)
    ensures
        forall|p: int| 0 <= p < m ==> load(sizes, assignment, p, assignment.len() as int) <= #[trigger] max_load(sizes, assignment, m) + 0 * p,
        max_load(sizes, assignment, m) == 0 || exists|p: int| 0 <= p < m && load(sizes, assignment, p, assignment.len() as int) == max_load(sizes, assignment, m),
        max_load(sizes, assignment, m) >= 0,
    decreases m,
{
    if m > 0 {
        lemma_max_load(sizes, assignment, m - 1);
        lemma_load_nonneg(sizes, assignment, m - 1, assignment.len() as int);
    }
}

/// The makespan of `assignment`: the largest load over the processors of `instance`.
pub fn calc_makespan(instance: &ProblemInstance, assignment: &Vec<usize>) -> (makespan: usize)
    requires
        forall|i: int| instance.job_sizes.len() <= i < assignment.len() ==> assignment[i] >= instance.num_processors,
        forall|p: int| 0 <= p < instance.num_processors ==> #[trigger] load(instance.job_sizes@, assignment@, p, assignment@.len() as int) <= usize::MAX,
    ensures
        makespan == max_load(instance.job_sizes@, assignment@, instance.num_processors as int),
{
    let ghost sizes = instance.job_sizes@;
    let ghost asg = assignment@;
    let mut makespan: usize = 0;
    let mut processor: usize = 0;
    while processor < instance.num_processors
        invariant
            sizes == instance.job_sizes@,
            asg == assignment@,
            processor <= instance.num_processors,
            makespan == max_load(sizes, asg, processor as int),
            forall|i: int| instance.job_sizes.len() <= i < assignment.len() ==> assignment[i] >= instance.num_processors,
            forall|p: int| 0 <= p < instance.num_processors ==> #[trigger] load(sizes, asg, p, asg.len() as int) <= usize::MAX,
        decreases instance.num_processors - processor,
    {
        let mut sum: usize = 0;
        let mut i: usize = 0;
        while i < assignment.len()
            invariant
                sizes == instance.job_sizes@,
                asg == assignment@,
                processor < instance.num_processors,
                i <= assignment.len(),
                sum == load(sizes, asg, processor as int, i as int),
                forall|k: int| instance.job_sizes.len() <= k < assignment.len() ==> assignment[k] >= instance.num_processors,
                load(sizes, asg, processor as int, asg.len() as int) <= usize::MAX,
            decreases assignment.len() - i,
        {
            if assignment[i] == processor {
                proof {
                    lemma_load_monotone(sizes, asg, processor as int, i + 1, asg.len() as int);
                }
                sum = sum + instance.job_sizes[i];
            }
            i = i + 1;
        }
        if sum > makespan {
            makespan = sum;
        }
        processor = processor + 1;
    }
    makespan
}

/// Finding the first position of a value.
pub trait IndexOf<T: Eq> {
    fn index_of(&self, elem: &T) -> Option<usize>;
}

impl IndexOf<usize> for Vec<usize> {
    /// The first position that holds `elem`, if any.
    fn index_of(&self, elem: &usize) -> (r: Option<usize>)
        ensures
            match r {
                Some(i) => i < self.len() && self[i as int] == *elem && forall|k: int| 0 <= k < i ==> self[k] != *elem,
                None => forall|k: int| 0 <= k < self.len() ==> self[k] != *elem,
            },
    {
        let mut i: usize = 0;
        while i < self.len()
            invariant
                i <= self.len(),
                forall|k: int| 0 <= k < i ==> self[k] != *elem,
            decreases self.len() - i,
        {
            if self[i] == *elem {
                return Some(i);
            }
            i = i + 1;
        }
        None
    }
}

} // verus!
