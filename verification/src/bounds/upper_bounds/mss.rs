//! Multi-start search over pairs of processors: the jobs of two processors are shuffled and
//! split again as evenly as a subset sum allows.
use vstd::prelude::*;
use rand::Rng;
use rand::SeedableRng;
use rand::rngs::StdRng;
use rand::seq::SliceRandom;
use vstd::multiset::Multiset;
use crate::bounds::upper_bounds::subset_sum::largest_reached;
use crate::bounds::upper_bounds::subset_sum::stop_point;
use crate::bounds::upper_bounds::subset_sum::subset_sum_upto;
use crate::bounds::upper_bounds::subset_sum::sum_at;
use crate::bounds::upper_bounds::subset_sum::lemma_sum_at_prepend;
use crate::bounds::upper_bounds::subset_sum::lemma_share_above_lighter;
use crate::bounds::upper_bounds::subset_sum::sums_to;
use crate::bounds::upper_bounds::subset_sum::lemma_best_subset_sum_capped;
use crate::problem_instance::partial_solution::copy_usizes;
use crate::problem_instance::problem_instance::ProblemInstance;
use crate::problem_instance::solution::Solution;
use crate::common::common::prefix_total;
use crate::common::common::load;
use crate::common::common::max_load;
use crate::bounds::bound::Bound;
use crate::common::timeout::Timeout;

verus! {

#[verifier::external_type_specification]
#[verifier::external_body]
pub struct ExStdRng(StdRng);

/// Calls `rand::thread_rng().gen::<u64>()`: a random seed. Nothing is claimed of it.
#[verifier::external_body]
pub(crate) fn random_seed() -> u64 {
    rand::thread_rng().gen()
}

/// Calls `StdRng::seed_from_u64`: a generator started from `seed`.
#[verifier::external_body]
fn rng_from_seed(seed: u64) -> StdRng {
    StdRng::seed_from_u64(seed)
}

/// Calls `Rng::gen_range(lo..hi)`: a number from `lo` up to below `hi`. The crate panics
/// on an empty range, which the requirement leaves out.
#[verifier::external_body]
pub(crate) fn rng_range(rng: &mut StdRng, lo: usize, hi: usize) -> (r: usize)
    requires
        lo < hi,
    ensures
        lo <= r < hi,
{
    rng.gen_range(lo..hi)
}

/// Calls `SliceRandom::shuffle`: the same elements in some order.
#[verifier::external_body]
fn shuffle(v: &mut Vec<usize>, rng: &mut StdRng)
    ensures
        final(v)@.to_multiset() == old(v)@.to_multiset(),
        final(v)@.len() == old(v)@.len(),
{
    v.shuffle(rng);
}

#[derive(Clone, Debug)]
pub struct MSS {
    seed: u64,
}

impl MSS {
    /// The seed of the search.
    pub closed spec fn seed(&self) -> u64 {
        self.seed
    }

    pub fn new_deterministic(seed: u64) -> (m: MSS)
        ensures
            m.seed() == seed,
    {
        MSS { seed }
    }

    /// A search whose seed is drawn at random.
    pub fn new() -> MSS {
        MSS { seed: random_seed() }
    }
}

/// Positions of elements, in decreasing order and of positive elements, adding up to the
/// largest sum up to `max(goal, lower_bound)` that the table reaches; the table stops once
/// `goal` is reached. So the sum is a subset sum, no subset sum up to `goal` is larger, and
/// where the sum stays below `goal` no subset sum up to `max(goal, lower_bound)` is larger.
pub fn subset_sum(elements: &Vec<usize>, goal: usize, lower_bound: usize) -> (result: Vec<usize>)
    requires
        1 <= elements.len() <= 32768,
        goal < usize::MAX,
        lower_bound < usize::MAX,
        forall|k: int| 0 <= k < elements.len() ==> #[trigger] elements[k] <= if goal >= lower_bound { goal } else { lower_bound },
    ensures
        forall|i: int, j: int| 0 <= i < j < result.len() ==> result[i] > result[j],
        forall|i: int| 0 <= i < result.len() ==> #[trigger] result[i] < elements.len() && elements[result[i] as int] >= 1,
        sum_at(elements@, result@) == largest_reached(elements@, stop_point(elements@, goal as int, 1),
            if goal >= lower_bound { goal as int } else { lower_bound as int }),
        sum_at(elements@, result@) == 0 || sums_to(elements@, elements.len() as int, sum_at(elements@, result@)),
        forall|q: int| sum_at(elements@, result@) < q <= goal ==> !#[trigger] sums_to(elements@, elements.len() as int, q),
        sum_at(elements@, result@) < goal ==> forall|q: int|
            sum_at(elements@, result@) < q <= (if goal >= lower_bound { goal as int } else { lower_bound as int })
            ==> !#[trigger] sums_to(elements@, elements.len() as int, q),
{
    let cap = if goal >= lower_bound { goal } else { lower_bound };
    proof {
        lemma_best_subset_sum_capped(elements@, goal as int, cap as int);
    }
    subset_sum_upto(elements, goal, cap)
}

/// The sizes of the jobs listed, added up.
pub open spec fn sum_sizes(sizes: Seq<usize>, jobs: Seq<usize>) -> int
    decreases jobs.len(),
{
    if jobs.len() == 0 {
        0
    } else {
        sum_sizes(sizes, jobs.drop_last()) + sizes[jobs.last() as int]
    }
}

proof fn lemma_sum_sizes_push(sizes: Seq<usize>, jobs: Seq<usize>, j: usize)
    ensures
        sum_sizes(sizes, jobs.push(j)) == sum_sizes(sizes, jobs) + sizes[j as int],
{
    assert(jobs.push(j).drop_last() =~= jobs);
}

proof fn lemma_sum_sizes_nonneg(sizes: Seq<usize>, jobs: Seq<usize>)
    ensures
        sum_sizes(sizes, jobs) >= 0,
    decreases jobs.len(),
{
    if jobs.len() > 0 {
        lemma_sum_sizes_nonneg(sizes, jobs.drop_last());
    }
}

/// Removing a listed job takes its size off the sum.
proof fn lemma_sum_sizes_remove(sizes: Seq<usize>, jobs: Seq<usize>, i: int)
    requires
        0 <= i < jobs.len(),
    ensures
        sum_sizes(sizes, jobs) == sum_sizes(sizes, jobs.remove(i)) + sizes[jobs[i] as int],
    decreases jobs.len(),
{
    if i < jobs.len() - 1 {
        lemma_sum_sizes_remove(sizes, jobs.drop_last(), i);
        assert(jobs.remove(i) =~= jobs.drop_last().remove(i).push(jobs.last()));
        lemma_sum_sizes_push(sizes, jobs.drop_last().remove(i), jobs.last());
    } else {
        assert(jobs.remove(i) =~= jobs.drop_last());
    }
}

/// Lists with the same jobs have the same sum.
pub proof fn lemma_sum_sizes_perm(sizes: Seq<usize>, a: Seq<usize>, b: Seq<usize>)
    requires
        a.to_multiset() == b.to_multiset(),
    ensures
        sum_sizes(sizes, a) == sum_sizes(sizes, b),
    decreases a.len(),
{
    broadcast use vstd::seq_lib::group_to_multiset_ensures;
    if a.len() == 0 {
        assert(b.to_multiset().len() == 0);
        assert(b =~= Seq::<usize>::empty());
    } else {
        let x = a.last();
        assert(a.drop_last().push(x) =~= a);
        assert(a.to_multiset().count(x) > 0);
        assert(b.contains(x));
        let i = choose|i: int| 0 <= i < b.len() && b[i] == x;
        assert(b.remove(i).to_multiset() =~= b.to_multiset().remove(x));
        assert(a.drop_last().to_multiset() =~= a.to_multiset().remove(x));
        lemma_sum_sizes_perm(sizes, a.drop_last(), b.remove(i));
        lemma_sum_sizes_remove(sizes, b, i);
    }
}

/// The job lists of two processors, before a rebalancing: the jobs exist, none is listed
/// twice, and the recorded loads are their sums.
pub open spec fn pair_ok(
    sizes: Seq<usize>,
    assignments: Seq<Vec<usize>>,
    makespans: Seq<usize>,
    first: int,
    second: int,
) -> bool {
    let both = assignments[first]@ + assignments[second]@;
    &&& first != second
    &&& 0 <= first < assignments.len()
    &&& 0 <= second < assignments.len()
    &&& makespans.len() == assignments.len()
    &&& forall|k: int| 0 <= k < both.len() ==> #[trigger] both[k] < sizes.len()
    &&& both.no_duplicates()
    &&& both.len() <= 32768
    &&& makespans[first] == sum_sizes(sizes, assignments[first]@)
    &&& makespans[second] == sum_sizes(sizes, assignments[second]@)
}

/// The two loads differ by at most one, so nothing is to be gained.
pub open spec fn balanced(a: int, b: int) -> bool {
    a == b || a == b - 1 || b == a - 1
}

/// Two processors with loads `lo <= hi` are lopsided when their loads differ by more than
/// the size of any job.
pub open spec fn lopsided(sizes: Seq<usize>, lo: int, hi: int) -> bool {
    &&& lo < hi
    &&& forall|j: int| 0 <= j < sizes.len() ==> #[trigger] sizes[j] + lo < hi
}

/// The two processors of a schedule on two processors are lopsided.
pub open spec fn two_lopsided(sizes: Seq<usize>, assignment: Seq<usize>) -> bool {
    let l0 = load(sizes, assignment, 0, assignment.len() as int);
    let l1 = load(sizes, assignment, 1, assignment.len() as int);
    if l0 >= l1 {
        lopsided(sizes, l1, l0)
    } else {
        lopsided(sizes, l0, l1)
    }
}

/// The running total of the sizes of the listed jobs is the sum of the listed prefix.
proof fn lemma_prefix_of_sizes(sizes: Seq<usize>, jobs: Seq<usize>, k: int)
    requires
        0 <= k <= jobs.len(),
    ensures
        crate::common::common::prefix_total(sizes_of(sizes, jobs), k) == sum_sizes(sizes, jobs.take(k)),
    decreases k,
{
    if k > 0 {
        lemma_prefix_of_sizes(sizes, jobs, k - 1);
        assert(jobs.take(k).drop_last() =~= jobs.take(k - 1));
    } else {
        assert(jobs.take(0) =~= Seq::<usize>::empty());
    }
}

/// Jobs of size zero add up to zero.
proof fn lemma_sum_sizes_zero(sizes: Seq<usize>, jobs: Seq<usize>)
    requires
        forall|k: int| 0 <= k < jobs.len() ==> #[trigger] jobs[k] < sizes.len() && sizes[jobs[k] as int] == 0,
    ensures
        sum_sizes(sizes, jobs) == 0,
    decreases jobs.len(),
{
    if jobs.len() > 0 {
        lemma_sum_sizes_zero(sizes, jobs.drop_last());
        assert(jobs.last() == jobs[jobs.len() - 1]);
    }
}

/// Rebalancing a lopsided pair of processors leaves both loads below the heavier of the
/// two: the first gets a subset sum above the lighter load and at most the larger of half
/// the total and the lower bound, which is below the heavier load.
pub proof fn lemma_rebalance_lowers(
    sizes: Seq<usize>,
    old_rows: Seq<Vec<usize>>,
    old_mks: Seq<usize>,
    new_rows: Seq<Vec<usize>>,
    new_mks: Seq<usize>,
    first: int,
    second: int,
    lower_bound: int,
    jobs: Seq<usize>,
)
    requires
        pair_ok(sizes, old_rows, old_mks, first, second),
        pair_ok(sizes, new_rows, new_mks, first, second),
        (new_rows[first]@ + new_rows[second]@).to_multiset() == (old_rows[first]@ + old_rows[second]@).to_multiset(),
        jobs.to_multiset() == (old_rows[first]@ + old_rows[second]@).to_multiset(),
        new_mks[first] == first_share(sizes, jobs, old_mks[first] + old_mks[second], lower_bound),
        ({
            let a = old_mks[first] as int;
            let b = old_mks[second] as int;
            let hi = if a >= b { a } else { b };
            let lo = if a >= b { b } else { a };
            lopsided(sizes, lo, hi) && lower_bound < hi
        }),
    ensures
        ({
            let a = old_mks[first] as int;
            let b = old_mks[second] as int;
            let hi = if a >= b { a } else { b };
            &&& new_mks[first] < hi
            &&& new_mks[second] < hi
        }),
{
    broadcast use vstd::seq_lib::group_to_multiset_ensures;
    let a = old_mks[first] as int;
    let b = old_mks[second] as int;
    let hi = if a >= b { a } else { b };
    let lo = if a >= b { b } else { a };
    let u = old_rows[first]@ + old_rows[second]@;
    let total = a + b;
    lemma_sum_sizes_concat(sizes, old_rows[first]@, old_rows[second]@);
    lemma_sum_sizes_concat(sizes, new_rows[first]@, new_rows[second]@);
    lemma_sum_sizes_perm(sizes, new_rows[first]@ + new_rows[second]@, u);
    lemma_sum_sizes_perm(sizes, jobs, u);
    assert(sum_sizes(sizes, u) == total);
    let els = sizes_of(sizes, jobs);
    lemma_prefix_of_sizes(sizes, jobs, jobs.len() as int);
    assert(jobs.take(jobs.len() as int) =~= jobs);
    assert(crate::common::common::prefix_total(els, els.len() as int) == total);
    assert forall|k: int| 0 <= k < els.len() implies #[trigger] els[k] + 2 * lo < total by {
        assert(jobs.to_multiset().count(jobs[k]) > 0);
        assert(u.to_multiset().count(jobs[k]) > 0);
        assert(u.contains(jobs[k]));
        let t = choose|t: int| 0 <= t < u.len() && u[t] == jobs[k];
        assert(u[t] < sizes.len());
        assert(sizes[jobs[k] as int] + lo < hi);
    }
    let goal = total / 2;
    let cap = if goal >= lower_bound { goal } else { lower_bound };
    lemma_share_above_lighter(els, lo, cap);
    assert(els.len() >= 1) by {
        if els.len() == 0 {
            assert(crate::common::common::prefix_total(els, 0) == 0);
        }
    }
    crate::bounds::upper_bounds::subset_sum::lemma_best_subset_sum_capped(els, goal, cap);
}

/// The sizes of the jobs listed, in their order.
pub open spec fn sizes_of(sizes: Seq<usize>, jobs: Seq<usize>) -> Seq<usize> {
    Seq::new(jobs.len(), |u: int| sizes[jobs[u] as int])
}

/// The share that `improve_procs` gives the first of two processors whose jobs, in the
/// order `jobs`, load them with `total`: the largest subset sum up to half of `total` (or up
/// to `lower_bound` where that is more), the table stopping once half is reached.
pub open spec fn first_share(sizes: Seq<usize>, jobs: Seq<usize>, total: int, lower_bound: int) -> int {
    let els = sizes_of(sizes, jobs);
    let goal = total / 2;
    largest_reached(els, stop_point(els, goal, 1), if goal >= lower_bound { goal } else { lower_bound })
}

/// The positions in reverse order add up to the same.
proof fn lemma_sum_at_reversed(els: Seq<usize>, res: Seq<usize>, inc: Seq<usize>, k: int)
    requires
        inc.len() == res.len(),
        0 <= k <= inc.len(),
        forall|i: int| 0 <= i < inc.len() ==> #[trigger] inc[i] == res[res.len() - 1 - i],
    ensures
        sum_at(els, inc.take(k)) == sum_at(els, res.skip(res.len() - k)),
    decreases k,
{
    if k == 0 {
        assert(inc.take(0) =~= Seq::<usize>::empty());
        assert(res.skip(res.len() as int) =~= Seq::<usize>::empty());
    } else {
        lemma_sum_at_reversed(els, res, inc, k - 1);
        let l = res.len() as int;
        assert(inc.take(k).drop_last() =~= inc.take(k - 1));
        assert(inc.take(k).last() == res[l - k]);
        assert(res.skip(l - k) =~= seq![res[l - k]] + res.skip(l - k + 1));
        lemma_sum_at_prepend(els, res[l - k], res.skip(l - k + 1));
    }
}

/// `a` is the first part of `b`.
pub open spec fn is_prefix(a: Seq<usize>, b: Seq<usize>) -> bool {
    a.len() <= b.len() && b.take(a.len() as int) == a
}

/// The amount of moves that follows a perturbation of `amount` moves: back to one while
/// below `max`, else one more (held at the largest `usize`).
pub open spec fn next_amount(amount: usize, max: usize) -> usize {
    if amount < max {
        1
    } else if amount < usize::MAX {
        (amount + 1) as usize
    } else {
        amount
    }
}

impl MSS {
    /// Splits the jobs of two processors anew: when their loads differ by more than one,
    /// the jobs are shuffled, a subset of sizes adding up to as much of half the total as
    /// reachable (up to `max(half, lower_bound)`) goes to the first processor, and the rest
    /// to the second.
    pub fn improve_procs(
        &self,
        instance: &ProblemInstance,
        first_proc: usize,
        second_proc: usize,
        assignments: &mut Vec<Vec<usize>>,
        assigned_makespans: &mut Vec<usize>,
        rng: &mut StdRng,
        lower_bound: usize,
    )
        requires
            pair_ok(instance.job_sizes@, old(assignments)@, old(assigned_makespans)@, first_proc as int, second_proc as int),
            old(assigned_makespans)[first_proc as int] + old(assigned_makespans)[second_proc as int] < usize::MAX,
            lower_bound < usize::MAX,
            forall|k: int| 0 <= k < (old(assignments)[first_proc as int]@ + old(assignments)[second_proc as int]@).len() ==>
                instance.job_sizes[#[trigger] (old(assignments)[first_proc as int]@ + old(assignments)[second_proc as int]@)[k] as int]
                <= if (old(assigned_makespans)[first_proc as int] + old(assigned_makespans)[second_proc as int]) / 2 >= lower_bound {
                    (old(assigned_makespans)[first_proc as int] + old(assigned_makespans)[second_proc as int]) / 2
                } else {
                    lower_bound as int
                },
        ensures
            balanced(old(assigned_makespans)[first_proc as int] as int, old(assigned_makespans)[second_proc as int] as int) ==> {
                &&& final(assignments)@ == old(assignments)@
                &&& final(assigned_makespans)@ == old(assigned_makespans)@
            },
            !balanced(old(assigned_makespans)[first_proc as int] as int, old(assigned_makespans)[second_proc as int] as int) ==> {
                &&& final(assignments).len() == old(assignments).len()
                &&& final(assigned_makespans).len() == old(assigned_makespans).len()
                &&& forall|p: int| 0 <= p < old(assignments).len() && p != first_proc && p != second_proc ==>
                    #[trigger] final(assignments)@[p] == old(assignments)@[p] && final(assigned_makespans)@[p] == old(assigned_makespans)@[p]
                &&& (final(assignments)[first_proc as int]@ + final(assignments)[second_proc as int]@).to_multiset()
                    == (old(assignments)[first_proc as int]@ + old(assignments)[second_proc as int]@).to_multiset()
                &&& pair_ok(instance.job_sizes@, final(assignments)@, final(assigned_makespans)@, first_proc as int, second_proc as int)
                &&& exists|jobs: Seq<usize>| {
                    &&& #[trigger] jobs.to_multiset() == (old(assignments)[first_proc as int]@ + old(assignments)[second_proc as int]@).to_multiset()
                    &&& final(assigned_makespans)[first_proc as int] == first_share(instance.job_sizes@, jobs,
                        old(assigned_makespans)[first_proc as int] + old(assigned_makespans)[second_proc as int], lower_bound as int)
                }
            },
    {
        let ghost sizes = instance.job_sizes@;
        let a = assigned_makespans[first_proc];
        let b = assigned_makespans[second_proc];
        if a == b || (b >= 1 && a == b - 1) || (a >= 1 && b == a - 1) {
            return;
        }
        let ghost old_a = assignments@[first_proc as int]@;
        let ghost old_b = assignments@[second_proc as int]@;
        let mut jobs_to_assign = copy_usizes(&assignments[first_proc]);
        let second_list = copy_usizes(&assignments[second_proc]);
        let mut k: usize = 0;
        while k < second_list.len()
            invariant
                k <= second_list.len(),
                second_list@ == old_b,
                jobs_to_assign@ == old_a + old_b.take(k as int),
            decreases second_list.len() - k,
        {
            jobs_to_assign.push(second_list[k]);
            k = k + 1;
            proof {
                assert(jobs_to_assign@ =~= old_a + old_b.take(k as int));
            }
        }
        proof {
            assert(old_b.take(old_b.len() as int) =~= old_b);
            assert(jobs_to_assign@ == old_a + old_b);
        }
        let ghost both = jobs_to_assign@;
        shuffle(&mut jobs_to_assign, rng);
        let ghost jobs = jobs_to_assign@;
        proof {
            broadcast use vstd::seq_lib::group_to_multiset_ensures;
            both.lemma_multiset_has_no_duplicates();
            jobs.lemma_multiset_has_no_duplicates_conv();
            assert forall|t: int| 0 <= t < jobs.len() implies #[trigger] jobs[t] < sizes.len() by {
                assert(jobs.to_multiset().count(jobs[t]) > 0);
                assert(both.contains(jobs[t]));
            }
            lemma_sum_sizes_perm(sizes, jobs, both);
            lemma_sum_sizes_concat(sizes, old_a, old_b);
        }
        let mut elements: Vec<usize> = Vec::new();
        let mut t: usize = 0;
        while t < jobs_to_assign.len()
            invariant
                jobs == jobs_to_assign@,
                forall|u: int| 0 <= u < jobs.len() ==> #[trigger] jobs[u] < sizes.len(),
                sizes == instance.job_sizes@,
                t <= jobs.len(),
                elements.len() == t,
                forall|u: int| 0 <= u < t ==> #[trigger] elements@[u] == sizes[jobs[u] as int],
            decreases jobs.len() - t,
        {
            elements.push(instance.job_sizes[jobs_to_assign[t]]);
            t = t + 1;
        }
        let goal = (a + b) / 2;
        proof {
            assert(jobs.len() >= 1) by {
                if jobs.len() == 0 {
                    broadcast use vstd::seq_lib::group_to_multiset_ensures;
                    assert(both.len() == 0);
                    assert(old_a =~= Seq::<usize>::empty());
                    assert(old_b =~= Seq::<usize>::empty());
                }
            }
            assert forall|u: int| 0 <= u < elements.len() implies #[trigger] elements@[u] <= if goal >= lower_bound { goal } else { lower_bound } by {
                broadcast use vstd::seq_lib::group_to_multiset_ensures;
                assert(jobs.to_multiset().count(jobs[u]) > 0);
                assert(both.contains(jobs[u]));
            }
        }
        let new_proc_assignment = subset_sum(&elements, goal, lower_bound);
        proof {
            assert(elements@ =~= sizes_of(sizes, jobs));
        }
        // the chosen positions, in increasing order
        let mut inc: Vec<usize> = Vec::new();
        let mut r: usize = new_proc_assignment.len();
        while r > 0
            invariant
                r <= new_proc_assignment.len(),
                inc.len() == new_proc_assignment.len() - r,
                forall|i: int, j: int| 0 <= i < j < new_proc_assignment.len() ==> new_proc_assignment[i] > new_proc_assignment[j],
                forall|i: int| 0 <= i < inc.len() ==> #[trigger] inc@[i] == new_proc_assignment[new_proc_assignment.len() - 1 - i],
            decreases r,
        {
            r = r - 1;
            inc.push(new_proc_assignment[r]);
        }
        proof {
            assert forall|i: int, j: int| 0 <= i < j < inc.len() implies inc@[i] < inc@[j] by {
                assert(inc@[i] == new_proc_assignment[new_proc_assignment.len() - 1 - i]);
                assert(inc@[j] == new_proc_assignment[new_proc_assignment.len() - 1 - j]);
            }
        }
        let mut first_list: Vec<usize> = Vec::new();
        let mut second_out: Vec<usize> = Vec::new();
        let mut first_mk: usize = 0;
        let mut second_mk: usize = 0;
        let mut ptr: usize = 0;
        let mut t: usize = 0;
        while t < jobs_to_assign.len()
            invariant
                jobs == jobs_to_assign@,
                jobs.no_duplicates(),
                forall|u: int| 0 <= u < jobs.len() ==> #[trigger] jobs[u] < sizes.len(),
                sizes == instance.job_sizes@,
                sum_sizes(sizes, jobs) == a + b,
                a + b < usize::MAX,
                t <= jobs.len(),
                ptr <= inc.len(),
                forall|i: int, j: int| 0 <= i < j < inc.len() ==> inc@[i] < inc@[j],
                forall|i: int| 0 <= i < inc.len() ==> #[trigger] inc@[i] < jobs.len(),
                ptr < inc.len() ==> inc@[ptr as int] >= t,
                forall|i: int| 0 <= i < ptr ==> #[trigger] inc@[i] < t,
                elements@ == sizes_of(sizes, jobs),
                first_mk == sum_at(elements@, inc@.take(ptr as int)),
                (first_list@ + second_out@).to_multiset() == jobs.take(t as int).to_multiset(),
                first_mk == sum_sizes(sizes, first_list@),
                second_mk == sum_sizes(sizes, second_out@),
                first_mk + second_mk == sum_sizes(sizes, jobs.take(t as int)),
            decreases jobs.len() - t,
        {
            let job = jobs_to_assign[t];
            let ghost before = jobs.take(t as int);
            proof {
                assert(jobs.take(t + 1) =~= before.push(job));
                lemma_sum_sizes_push(sizes, before, job);
                lemma_sum_sizes_prefix(sizes, jobs, t + 1);
                lemma_sum_sizes_nonneg(sizes, first_list@);
                lemma_sum_sizes_nonneg(sizes, second_out@);
            }
            let take = ptr < inc.len() && jobs_to_assign[inc[ptr]] == job;
            if take {
                proof {
                    if inc@[ptr as int] != t {
                        assert(jobs[inc@[ptr as int] as int] != jobs[t as int]);
                    }
                    lemma_sum_sizes_push(sizes, first_list@, job);
                    assert((first_list@.push(job) + second_out@).to_multiset() =~= (first_list@ + second_out@).to_multiset().insert(job)) by {
                        broadcast use vstd::seq_lib::group_to_multiset_ensures;
                        vstd::seq_lib::lemma_multiset_commutative(first_list@.push(job), second_out@);
                        vstd::seq_lib::lemma_multiset_commutative(first_list@, second_out@);
                    }
                }
                proof {
                    assert(inc@[ptr as int] == t);
                    assert(inc@.take(ptr + 1).drop_last() =~= inc@.take(ptr as int));
                    assert(elements@[t as int] == sizes[job as int]);
                }
                first_mk = first_mk + instance.job_sizes[job];
                first_list.push(job);
                ptr = ptr + 1;
            } else {
                proof {
                    lemma_sum_sizes_push(sizes, second_out@, job);
                    assert((first_list@ + second_out@.push(job)).to_multiset() =~= (first_list@ + second_out@).to_multiset().insert(job)) by {
                        broadcast use vstd::seq_lib::group_to_multiset_ensures;
                        assert(first_list@ + second_out@.push(job) =~= (first_list@ + second_out@).push(job));
                    }
                }
                second_mk = second_mk + instance.job_sizes[job];
                second_out.push(job);
            }
            proof {
                broadcast use vstd::seq_lib::group_to_multiset_ensures;
                assert(jobs.take(t + 1).to_multiset() =~= before.to_multiset().insert(job));
            }
            t = t + 1;
        }
        proof {
            if ptr < inc.len() {
                assert(inc@[ptr as int] < jobs.len());
            }
            assert(ptr == inc.len());
            assert(inc@.take(ptr as int) =~= inc@);
            lemma_sum_at_reversed(elements@, new_proc_assignment@, inc@, inc.len() as int);
            assert(new_proc_assignment@.skip(0) =~= new_proc_assignment@);
            assert(first_mk == first_share(sizes, jobs, a + b, lower_bound as int));
        }
        proof {
            assert(jobs.take(jobs.len() as int) =~= jobs);
            broadcast use vstd::seq_lib::group_to_multiset_ensures;
            let fin = first_list@ + second_out@;
            assert(fin.to_multiset() == both.to_multiset());
            fin.lemma_multiset_has_no_duplicates_conv();
            assert forall|k: int| 0 <= k < fin.len() implies #[trigger] fin[k] < sizes.len() by {
                assert(fin.to_multiset().count(fin[k]) > 0);
                assert(both.contains(fin[k]));
            }
        }
        let ghost fl = first_list@;
        let ghost so = second_out@;
        proof {
            broadcast use vstd::seq_lib::group_to_multiset_ensures;
            assert((fl + so).to_multiset() == both.to_multiset());
            assert((fl + so).to_multiset().len() == both.to_multiset().len());
            assert((fl + so).len() == both.len());
        }
        assignments.set(first_proc, first_list);
        assignments.set(second_proc, second_out);
        assigned_makespans.set(first_proc, first_mk);
        assigned_makespans.set(second_proc, second_mk);
        proof {
            assert(assignments@[first_proc as int]@ == fl);
            assert(assignments@[second_proc as int]@ == so);
            assert(assignments@[first_proc as int]@ + assignments@[second_proc as int]@ == fl + so);
            assert(jobs.to_multiset() == (old_a + old_b).to_multiset());
        }
    }
}

/// The sum over two lists is the sum of their sums.
proof fn lemma_sum_sizes_concat(sizes: Seq<usize>, a: Seq<usize>, b: Seq<usize>)
    ensures
        sum_sizes(sizes, a + b) == sum_sizes(sizes, a) + sum_sizes(sizes, b),
    decreases b.len(),
{
    if b.len() > 0 {
        lemma_sum_sizes_concat(sizes, a, b.drop_last());
        assert((a + b).drop_last() =~= a + b.drop_last());
    } else {
        assert(a + b =~= a);
    }
}

/// A prefix's sum is at most the whole sum.
proof fn lemma_sum_sizes_prefix(sizes: Seq<usize>, jobs: Seq<usize>, t: int)
    requires
        0 <= t <= jobs.len(),
    ensures
        sum_sizes(sizes, jobs.take(t)) <= sum_sizes(sizes, jobs),
    decreases jobs.len() - t,
{
    if t < jobs.len() {
        lemma_sum_sizes_prefix(sizes, jobs, t + 1);
        assert(jobs.take(t + 1).drop_last() =~= jobs.take(t));
    } else {
        assert(jobs.take(t) =~= jobs);
    }
}

/// The jobs `0..n`.
pub open spec fn ids(n: nat) -> Seq<usize> {
    Seq::new(n, |j: int| j as usize)
}

/// The jobs of the rows `0..k`, with their multiplicities.
pub open spec fn rows_ms(rows: Seq<Vec<usize>>, k: int) -> Multiset<usize>
    decreases k,
{
    if k <= 0 {
        Multiset::empty()
    } else {
        rows_ms(rows, k - 1).add(rows[k - 1]@.to_multiset())
    }
}

/// The rows list every job `0..n` exactly once.
pub open spec fn partition(rows: Seq<Vec<usize>>, n: nat) -> bool {
    rows_ms(rows, rows.len() as int) == ids(n).to_multiset()
}

/// The jobs of the rows `0..k` other than `p` and `q`.
pub open spec fn rows_ms_wo(rows: Seq<Vec<usize>>, k: int, p: int, q: int) -> Multiset<usize>
    decreases k,
{
    if k <= 0 {
        Multiset::empty()
    } else if k - 1 == p || k - 1 == q {
        rows_ms_wo(rows, k - 1, p, q)
    } else {
        rows_ms_wo(rows, k - 1, p, q).add(rows[k - 1]@.to_multiset())
    }
}

proof fn lemma_rows_ms_split(rows: Seq<Vec<usize>>, k: int, p: int, q: int)
    requires
        0 <= k <= rows.len(),
        p != q,
        0 <= p < rows.len(),
        0 <= q < rows.len(),
    ensures
        rows_ms(rows, k) == rows_ms_wo(rows, k, p, q).add(if p < k { rows[p]@.to_multiset() } else { Multiset::empty() }).add(
            if q < k { rows[q]@.to_multiset() } else { Multiset::empty() },
        ),
    decreases k,
{
    broadcast use vstd::multiset::group_multiset_axioms;
    if k > 0 {
        lemma_rows_ms_split(rows, k - 1, p, q);
        assert(rows_ms(rows, k) =~= rows_ms_wo(rows, k, p, q).add(if p < k { rows[p]@.to_multiset() } else { Multiset::empty() }).add(
            if q < k { rows[q]@.to_multiset() } else { Multiset::empty() },
        ));
    } else {
        assert(rows_ms(rows, k) =~= rows_ms_wo(rows, k, p, q).add(Multiset::empty()).add(Multiset::empty()));
    }
}

proof fn lemma_rows_ms_wo_update(rows: Seq<Vec<usize>>, k: int, p: int, q: int, a: Vec<usize>, b: Vec<usize>)
    requires
        0 <= k <= rows.len(),
        0 <= p < rows.len(),
        0 <= q < rows.len(),
    ensures
        rows_ms_wo(rows.update(p, a).update(q, b), k, p, q) == rows_ms_wo(rows, k, p, q),
    decreases k,
{
    if k > 0 {
        lemma_rows_ms_wo_update(rows, k - 1, p, q, a, b);
    }
}

/// Replacing rows `p` and `q` by rows with the same jobs between them keeps the jobs.
pub proof fn lemma_rows_ms_swap(rows: Seq<Vec<usize>>, p: int, q: int, a: Vec<usize>, b: Vec<usize>)
    requires
        p != q,
        0 <= p < rows.len(),
        0 <= q < rows.len(),
        (a@ + b@).to_multiset() == (rows[p]@ + rows[q]@).to_multiset(),
    ensures
        rows_ms(rows.update(p, a).update(q, b), rows.len() as int) == rows_ms(rows, rows.len() as int),
{
    broadcast use vstd::multiset::group_multiset_axioms;
    let new_rows = rows.update(p, a).update(q, b);
    lemma_rows_ms_split(rows, rows.len() as int, p, q);
    lemma_rows_ms_split(new_rows, rows.len() as int, p, q);
    lemma_rows_ms_wo_update(rows, rows.len() as int, p, q, a, b);
    vstd::seq_lib::lemma_multiset_commutative(a@, b@);
    vstd::seq_lib::lemma_multiset_commutative(rows[p]@, rows[q]@);
    assert(new_rows[p] == a);
    assert(new_rows[q] == b);
    assert(new_rows.len() == rows.len());
    let w = rows_ms_wo(rows, rows.len() as int, p, q);
    assert(rows_ms(new_rows, rows.len() as int) == w.add(a@.to_multiset()).add(b@.to_multiset()));
    assert(rows_ms(rows, rows.len() as int) == w.add(rows[p]@.to_multiset()).add(rows[q]@.to_multiset()));
    assert forall|x: usize| #[trigger] rows_ms(new_rows, rows.len() as int).count(x) == rows_ms(rows, rows.len() as int).count(x) by {
        assert((a@ + b@).to_multiset().count(x) == (rows[p]@ + rows[q]@).to_multiset().count(x));
        assert((a@ + b@).to_multiset().count(x) == a@.to_multiset().count(x) + b@.to_multiset().count(x));
        assert((rows[p]@ + rows[q]@).to_multiset().count(x) == rows[p]@.to_multiset().count(x) + rows[q]@.to_multiset().count(x));
        assert(w.add(a@.to_multiset()).add(b@.to_multiset()).count(x) == w.count(x) + a@.to_multiset().count(x) + b@.to_multiset().count(x));
        assert(w.add(rows[p]@.to_multiset()).add(rows[q]@.to_multiset()).count(x) == w.count(x) + rows[p]@.to_multiset().count(x) + rows[q]@.to_multiset().count(x));
    }
    assert(rows_ms(new_rows, rows.len() as int) =~= rows_ms(rows, rows.len() as int));
}

/// Two different rows, together, hold jobs of the whole.
pub proof fn lemma_rows_pair_sub(rows: Seq<Vec<usize>>, p: int, q: int)
    requires
        p != q,
        0 <= p < rows.len(),
        0 <= q < rows.len(),
    ensures
        (rows[p]@ + rows[q]@).to_multiset().subset_of(rows_ms(rows, rows.len() as int)),
{
    broadcast use vstd::multiset::group_multiset_axioms;
    lemma_rows_ms_split(rows, rows.len() as int, p, q);
    vstd::seq_lib::lemma_multiset_commutative(rows[p]@, rows[q]@);
}

proof fn lemma_ids(n: nat)
    requires
        n <= usize::MAX,
    ensures
        ids(n).no_duplicates(),
        forall|x: usize| ids(n).to_multiset().count(x) > 0 ==> x < n,
        forall|x: usize| ids(n).to_multiset().count(x) <= 1,
{
    broadcast use vstd::seq_lib::group_to_multiset_ensures;
    assert forall|i: int, j: int| 0 <= i < ids(n).len() && 0 <= j < ids(n).len() && i != j implies ids(n)[i] != ids(n)[j] by {
    }
    ids(n).lemma_multiset_has_no_duplicates();
    assert forall|x: usize| ids(n).to_multiset().count(x) > 0 implies x < n by {
        assert(ids(n).contains(x));
    }
}

/// A part of a list adds up to at most the list.
pub proof fn lemma_sum_sizes_sub(sizes: Seq<usize>, a: Seq<usize>, b: Seq<usize>)
    requires
        a.to_multiset().subset_of(b.to_multiset()),
    ensures
        sum_sizes(sizes, a) <= sum_sizes(sizes, b),
    decreases a.len(),
{
    broadcast use vstd::seq_lib::group_to_multiset_ensures;
    broadcast use vstd::multiset::group_multiset_axioms;
    if a.len() == 0 {
        lemma_sum_sizes_nonneg(sizes, b);
    } else {
        let x = a.last();
        assert(a.drop_last().push(x) =~= a);
        assert(a.to_multiset().count(x) > 0);
        assert(b.to_multiset().count(x) > 0);
        assert(b.contains(x));
        let i = choose|i: int| 0 <= i < b.len() && b[i] == x;
        assert(b.remove(i).to_multiset() =~= b.to_multiset().remove(x));
        assert(a.drop_last().to_multiset() =~= a.to_multiset().remove(x));
        lemma_sum_sizes_sub(sizes, a.drop_last(), b.remove(i));
        lemma_sum_sizes_remove(sizes, b, i);
    }
}

/// With every size one, a list of jobs below `n` adds up to its length.
proof fn lemma_sum_ones(n: nat, s: Seq<usize>)
    requires
        forall|k: int| 0 <= k < s.len() ==> #[trigger] s[k] < n,
    ensures
        sum_sizes(Seq::new(n, |i: int| 1usize), s) == s.len(),
    decreases s.len(),
{
    if s.len() > 0 {
        lemma_sum_ones(n, s.drop_last());
    }
}

/// The sizes of the jobs `0..n` add up to the total.
proof fn lemma_sum_ids(sizes: Seq<usize>, n: nat)
    requires
        n <= usize::MAX,
    ensures
        sum_sizes(sizes, ids(n)) == prefix_total(sizes, n as int),
    decreases n,
{
    if n > 0 {
        lemma_sum_ids(sizes, (n - 1) as nat);
        assert(ids(n).drop_last() =~= ids((n - 1) as nat));
    }
}

/// What a partition gives about two of its rows.
pub proof fn lemma_pair_facts(sizes: Seq<usize>, rows: Seq<Vec<usize>>, n: nat, p: int, q: int)
    requires
        n <= usize::MAX,
        partition(rows, n),
        p != q,
        0 <= p < rows.len(),
        0 <= q < rows.len(),
    ensures
        ({
            let both = rows[p]@ + rows[q]@;
            &&& both.no_duplicates()
            &&& forall|k: int| 0 <= k < both.len() ==> #[trigger] both[k] < n
            &&& both.len() <= n
            &&& sum_sizes(sizes, both) <= prefix_total(sizes, n as int)
        }),
{
    broadcast use vstd::seq_lib::group_to_multiset_ensures;
    broadcast use vstd::multiset::group_multiset_axioms;
    let both = rows[p]@ + rows[q]@;
    lemma_rows_pair_sub(rows, p, q);
    lemma_ids(n);
    assert forall|x: usize| both.to_multiset().contains(x) implies both.to_multiset().count(x) == 1 by {
        assert(both.to_multiset().count(x) <= ids(n).to_multiset().count(x));
    }
    both.lemma_multiset_has_no_duplicates_conv();
    assert forall|k: int| 0 <= k < both.len() implies #[trigger] both[k] < n by {
        assert(both.to_multiset().count(both[k]) > 0);
        assert(ids(n).to_multiset().count(both[k]) > 0);
    }
    let ones = Seq::new(n, |i: int| 1usize);
    lemma_sum_sizes_sub(ones, both, ids(n));
    lemma_sum_ones(n, both);
    lemma_sum_ones(n, ids(n));
    lemma_sum_sizes_sub(sizes, both, ids(n));
    lemma_sum_ids(sizes, n);
}

/// The largest of the row sums of the rows `0..k` (`0` when there are none).
pub open spec fn max_row_sum(sizes: Seq<usize>, rows: Seq<Vec<usize>>, k: int) -> int
    decreases k,
{
    if k <= 0 {
        0
    } else {
        let prev = max_row_sum(sizes, rows, k - 1);
        let here = sum_sizes(sizes, rows[k - 1]@);
        if prev >= here {
            prev
        } else {
            here
        }
    }
}

/// The state of the search: the current schedule as rows of jobs per processor with their
/// loads, the best schedule met, and the counters of the perturbation.
pub struct MssState {
    pub proc_assignments: Vec<Vec<usize>>,
    pub assigned_makespans: Vec<usize>,
    pub best_makespan: usize,
    pub best_assignment: Vec<Vec<usize>>,
    pub num_iter_without_improvement: usize,
    pub max_num_iter_without_improvement: usize,
    pub pertubation_amount: usize,
    pub max_num_pertubations: usize,
    pub rng: StdRng,
}

/// The instances the search runs on: at least two processors, jobs that fit under the
/// lower bound, and sizes whose total fits.
pub open spec fn mss_instance(problem: &ProblemInstance, lower_bound: usize) -> bool {
    &&& problem.wf()
    &&& problem.num_processors >= 2
    &&& problem.num_jobs <= 32768
    &&& lower_bound < usize::MAX
    &&& forall|j: int| 0 <= j < problem.num_jobs ==> #[trigger] problem.job_sizes[j] <= lower_bound
    &&& prefix_total(problem.job_sizes@, problem.num_jobs as int) < usize::MAX - 1
}

impl MssState {
    /// Both schedules list every job once, the loads are the row sums, and the best
    /// makespan is the largest row sum of the best schedule.
    pub open spec fn wf(&self, problem: &ProblemInstance) -> bool {
        let sizes = problem.job_sizes@;
        let m = problem.num_processors as int;
        let n = problem.num_jobs as nat;
        &&& self.proc_assignments.len() == m
        &&& self.assigned_makespans.len() == m
        &&& partition(self.proc_assignments@, n)
        &&& forall|p: int| 0 <= p < m ==> #[trigger] self.assigned_makespans[p] == sum_sizes(sizes, self.proc_assignments[p]@)
        &&& self.best_assignment.len() == m
        &&& partition(self.best_assignment@, n)
        &&& self.best_makespan == max_row_sum(sizes, self.best_assignment@, m)
    }
}

/// A copy of the rows.
fn copy_rows(rows: &Vec<Vec<usize>>) -> (r: Vec<Vec<usize>>)
    ensures
        r@.len() == rows@.len(),
        forall|p: int| 0 <= p < rows.len() ==> (#[trigger] r@[p])@ == rows@[p]@,
{
    let mut r: Vec<Vec<usize>> = Vec::new();
    let mut p: usize = 0;
    while p < rows.len()
        invariant
            p <= rows.len(),
            r.len() == p,
            forall|k: int| 0 <= k < p ==> (#[trigger] r@[k])@ == rows@[k]@,
        decreases rows.len() - p,
    {
        r.push(copy_usizes(&rows[p]));
        p = p + 1;
    }
    r
}

/// Rows with the same jobs in each place hold the same jobs and sums.
proof fn lemma_rows_same(sizes: Seq<usize>, a: Seq<Vec<usize>>, b: Seq<Vec<usize>>, k: int)
    requires
        0 <= k <= a.len(),
        a.len() == b.len(),
        forall|p: int| 0 <= p < a.len() ==> (#[trigger] a[p])@ == b[p]@,
    ensures
        rows_ms(a, k) == rows_ms(b, k),
        max_row_sum(sizes, a, k) == max_row_sum(sizes, b, k),
    decreases k,
{
    if k > 0 {
        lemma_rows_same(sizes, a, b, k - 1);
    }
}

/// The largest of the loads.
fn max_of(v: &Vec<usize>) -> (r: usize)
    ensures
        forall|p: int| 0 <= p < v.len() ==> v[p] <= r,
        v.len() == 0 ==> r == 0,
        v.len() > 0 ==> exists|p: int| 0 <= p < v.len() && v[p] == r,
{
    let mut r: usize = 0;
    let mut p: usize = 0;
    while p < v.len()
        invariant
            p <= v.len(),
            forall|k: int| 0 <= k < p ==> v[k] <= r,
            p == 0 ==> r == 0,
            p > 0 ==> exists|k: int| 0 <= k < p && v[k] == r,
        decreases v.len() - p,
    {
        if p == 0 || v[p] > r {
            r = v[p];
        }
        p = p + 1;
    }
    r
}

/// The largest row sum equals the largest recorded load when the loads are the row sums.
proof fn lemma_max_row_sum(sizes: Seq<usize>, rows: Seq<Vec<usize>>, mks: Seq<usize>, k: int)
    requires
        0 <= k <= rows.len(),
        mks.len() == rows.len(),
        forall|p: int| 0 <= p < rows.len() ==> #[trigger] mks[p] == sum_sizes(sizes, rows[p]@),
    ensures
        forall|p: int| 0 <= p < k ==> mks[p] <= max_row_sum(sizes, rows, k),
        k == 0 || exists|p: int| 0 <= p < k && mks[p] == max_row_sum(sizes, rows, k),
        max_row_sum(sizes, rows, k) >= 0,
    decreases k,
{
    if k > 0 {
        lemma_max_row_sum(sizes, rows, mks, k - 1);
        lemma_sum_sizes_nonneg(sizes, rows[k - 1]@);
        assert(mks[k - 1] == sum_sizes(sizes, rows[k - 1]@));
        if max_row_sum(sizes, rows, k) == sum_sizes(sizes, rows[k - 1]@) {
            assert(mks[k - 1] == max_row_sum(sizes, rows, k));
        } else if k - 1 == 0 {
            assert(false);
        } else {
            let p = choose|p: int| 0 <= p < k - 1 && mks[p] == max_row_sum(sizes, rows, k - 1);
            assert(mks[p] == max_row_sum(sizes, rows, k));
        }
    }
}

/// Appending a job to one row adds it to the jobs of the rows.
proof fn lemma_rows_ms_push(rows: Seq<Vec<usize>>, q: int, v: Vec<usize>, x: usize, k: int)
    requires
        0 <= q < rows.len(),
        0 <= k <= rows.len(),
        v@ == rows[q]@.push(x),
    ensures
        rows_ms(rows.update(q, v), k) == if q < k { rows_ms(rows, k).insert(x) } else { rows_ms(rows, k) },
    decreases k,
{
    broadcast use vstd::multiset::group_multiset_axioms;
    broadcast use vstd::seq_lib::group_to_multiset_ensures;
    if k > 0 {
        lemma_rows_ms_push(rows, q, v, x, k - 1);
        if k - 1 == q {
            assert(v@.to_multiset() =~= rows[q]@.to_multiset().insert(x));
        }
        assert(rows_ms(rows.update(q, v), k) =~= if q < k { rows_ms(rows, k).insert(x) } else { rows_ms(rows, k) });
    }
}

/// When the row sums are the loads, the largest row sum is the makespan.
proof fn lemma_max_row_sum_is_max_load(sizes: Seq<usize>, rows: Seq<Vec<usize>>, assignment: Seq<usize>, k: int)
    requires
        0 <= k <= rows.len(),
        forall|p: int| 0 <= p < rows.len() ==> #[trigger] sum_sizes(sizes, rows[p]@) == load(sizes, assignment, p, assignment.len() as int),
    ensures
        max_row_sum(sizes, rows, k) == max_load(sizes, assignment, k),
    decreases k,
{
    if k > 0 {
        lemma_max_row_sum_is_max_load(sizes, rows, assignment, k - 1);
    }
}

impl MSS {
    /// The state at the start of the search from `upper_bound`: the rows list the jobs of
    /// each processor in order, and the best schedule is the given one.
    pub fn start(&self, problem: &ProblemInstance, upper_bound: &Solution, lower_bound: usize) -> (st: MssState)
        requires
            mss_instance(problem, lower_bound),
            upper_bound.valid_for(problem),
        ensures
            st.wf(problem),
            st.best_makespan == upper_bound.makespan,
            st.num_iter_without_improvement == 0,
            st.pertubation_amount == 1,
            st.max_num_iter_without_improvement == if problem.num_processors * problem.num_processors + 10 <= 100 {
                problem.num_processors * problem.num_processors + 10
            } else {
                100
            },
            st.max_num_pertubations == (2 * problem.num_jobs) as int / problem.num_processors as int,
            forall|p: int| 0 <= p < problem.num_processors ==> (#[trigger] st.proc_assignments@[p])@
                == ids(problem.num_jobs as nat).filter(|j: usize| upper_bound.assignment@[j as int] == p),
    {
        let ghost sizes = problem.job_sizes@;
        let ghost asg = upper_bound.assignment@;
        let m = problem.num_processors;
        let n = problem.num_jobs;
        let rng = rng_from_seed(self.seed);
        let mut rows: Vec<Vec<usize>> = Vec::new();
        let mut mks: Vec<usize> = Vec::new();
        while rows.len() < m
            invariant
                rows.len() <= m,
                mks.len() == rows.len(),
                forall|p: int| 0 <= p < rows.len() ==> (#[trigger] rows@[p])@ == Seq::<usize>::empty(),
                forall|p: int| 0 <= p < mks.len() ==> #[trigger] mks@[p] == 0,
            decreases m - rows.len(),
        {
            rows.push(Vec::new());
            mks.push(0);
        }
        proof {
            broadcast use vstd::seq_lib::group_to_multiset_ensures;
            assert(rows_ms(rows@, m as int) =~= ids(0).to_multiset()) by {
                lemma_rows_ms_empty(rows@, m as int);
            }
        }
        let mut i: usize = 0;
        while i < n
            invariant
                sizes == problem.job_sizes@,
                asg == upper_bound.assignment@,
                m == problem.num_processors,
                n == problem.num_jobs,
                mss_instance(problem, lower_bound),
                upper_bound.valid_for(problem),
                i <= n,
                rows.len() == m,
                mks.len() == m,
                rows_ms(rows@, m as int) == ids(i as nat).to_multiset(),
                forall|p: int| 0 <= p < m ==> #[trigger] mks@[p] == sum_sizes(sizes, rows@[p]@),
                forall|p: int| 0 <= p < m ==> sum_sizes(sizes, (#[trigger] rows@[p])@) == load(sizes, asg, p, i as int),
                forall|p: int| 0 <= p < m ==> (#[trigger] rows@[p])@ == ids(i as nat).filter(|j: usize| asg[j as int] == p),
            decreases n - i,
        {
            let q = upper_bound.assignment[i];
            proof {
                assert(q < m);
                crate::common::common::lemma_load_le_total(sizes, asg, q as int, i + 1);
                crate::common::common::lemma_prefix_total_monotone(sizes, i + 1, n as int);
            }
            let mut row = copy_usizes(&rows[q]);
            let ghost old_rows = rows@;
            row.push(i);
            let mk = mks[q];
            proof {
                lemma_sum_sizes_push(sizes, old_rows[q as int]@, i);
                assert(load(sizes, asg, q as int, i + 1) == load(sizes, asg, q as int, i as int) + sizes[i as int]);
            }
            mks.set(q, mk + problem.job_sizes[i]);
            rows.set(q, row);
            proof {
                broadcast use vstd::seq_lib::group_to_multiset_ensures;
                lemma_rows_ms_push(old_rows, q as int, rows@[q as int], i, m as int);
                assert(rows@ == old_rows.update(q as int, rows@[q as int]));
                assert(ids((i + 1) as nat) =~= ids(i as nat).push(i));
                reveal(Seq::filter);
                assert forall|p: int| 0 <= p < m implies sum_sizes(sizes, (#[trigger] rows@[p])@) == load(sizes, asg, p, i + 1) by {
                }
                assert forall|p: int| 0 <= p < m implies (#[trigger] rows@[p])@ == ids((i + 1) as nat).filter(|j: usize| asg[j as int] == p) by {
                    assert(ids((i + 1) as nat).drop_last() =~= ids(i as nat));
                }
            }
            i = i + 1;
        }
        proof {
            assert forall|p: int| 0 <= p < m implies #[trigger] sum_sizes(sizes, rows@[p]@) == load(sizes, asg, p, asg.len() as int) by {
            }
            lemma_max_row_sum_is_max_load(sizes, rows@, asg, m as int);
        }
        let best_assignment = copy_rows(&rows);
        proof {
            lemma_rows_same(sizes, best_assignment@, rows@, m as int);
        }
        proof {
            if m < 10 {
                assert(m * m <= 81) by (nonlinear_arith)
                    requires
                        m < 10,
                ;
            }
        }
        let max_iter = if m >= 10 { 100 } else { m * m + 10 };
        proof {
            if m >= 10 {
                assert(m * m >= 100) by (nonlinear_arith)
                    requires
                        m >= 10,
                ;
            }
        }
        MssState {
            proc_assignments: rows,
            assigned_makespans: mks,
            best_makespan: upper_bound.makespan,
            best_assignment,
            num_iter_without_improvement: 0,
            max_num_iter_without_improvement: max_iter,
            pertubation_amount: 1,
            max_num_pertubations: 2 * n / m,
            rng,
        }
    }
}

proof fn lemma_rows_ms_empty(rows: Seq<Vec<usize>>, k: int)
    requires
        0 <= k <= rows.len(),
        forall|p: int| 0 <= p < rows.len() ==> (#[trigger] rows[p])@ == Seq::<usize>::empty(),
    ensures
        rows_ms(rows, k) == Multiset::<usize>::empty(),
    decreases k,
{
    broadcast use vstd::multiset::group_multiset_axioms;
    broadcast use vstd::seq_lib::group_to_multiset_ensures;
    if k > 0 {
        lemma_rows_ms_empty(rows, k - 1);
        assert(rows[k - 1]@.to_multiset() =~= Multiset::<usize>::empty());
        assert(rows_ms(rows, k) =~= Multiset::<usize>::empty());
    }
}

/// Two distinct processors drawn at random.
fn draw_pair(rng: &mut StdRng, m: usize) -> (r: (usize, usize))
    requires
        m >= 2,
    ensures
        r.0 < m,
        r.1 < m,
        r.0 != r.1,
{
    let first = rng_range(rng, 0, m);
    let second = rng_range(rng, 0, m - 1);
    let second = if second < first { second } else { second + 1 };
    (first, second)
}

impl MSS {
    /// One round of the search: two distinct processors drawn at random are rebalanced, a
    /// better schedule becomes the best one, and after the set number of rounds in which
    /// neither load went down, jobs are moved at random. Returns the makespan reached.
    pub fn step(&self, problem: &ProblemInstance, state: &mut MssState, lower_bound: usize) -> (makespan: usize)
        requires
            mss_instance(problem, lower_bound),
            old(state).wf(problem),
        ensures
            final(state).wf(problem),
            final(state).best_makespan <= old(state).best_makespan,
            final(state).best_makespan <= makespan,
            problem.num_processors == 2 ==> ({
                let l = old(state).assigned_makespans@;
                let hi = if l[0] >= l[1] { l[0] as int } else { l[1] as int };
                let lo = if l[0] >= l[1] { l[1] as int } else { l[0] as int };
                lopsided(problem.job_sizes@, lo, hi) && lower_bound < hi ==> makespan < hi
            }),
    {
        let ghost sizes = problem.job_sizes@;
        let ghost n = problem.num_jobs as nat;
        let m = problem.num_processors;
        let (first, second) = draw_pair(&mut state.rng, m);
        let first_proc_makespan = state.assigned_makespans[first];
        let second_proc_makespan = state.assigned_makespans[second];
        let ghost old_rows = state.proc_assignments@;
        let ghost old_mks = state.assigned_makespans@;
        proof {
            lemma_pair_facts(sizes, old_rows, n, first as int, second as int);
            lemma_sum_sizes_concat(sizes, old_rows[first as int]@, old_rows[second as int]@);
        }
        self.improve_procs(problem, first, second, &mut state.proc_assignments, &mut state.assigned_makespans, &mut state.rng, lower_bound);
        proof {
            let new_rows = state.proc_assignments@;
            if !balanced(first_proc_makespan as int, second_proc_makespan as int) {
                assert(new_rows =~= old_rows.update(first as int, new_rows[first as int]).update(second as int, new_rows[second as int]));
                lemma_rows_ms_swap(old_rows, first as int, second as int, new_rows[first as int], new_rows[second as int]);
            }
        }
        let makespan = max_of(&state.assigned_makespans);
        proof {
            if m == 2 {
                let hi = if old_mks[0] >= old_mks[1] { old_mks[0] as int } else { old_mks[1] as int };
                let lo = if old_mks[0] >= old_mks[1] { old_mks[1] as int } else { old_mks[0] as int };
                if lopsided(sizes, lo, hi) && lower_bound < hi {
                    assert(first + second == 1);
                    if balanced(first_proc_makespan as int, second_proc_makespan as int) {
                        assert forall|k: int| 0 <= k < old_rows[first as int]@.len() implies #[trigger] old_rows[first as int]@[k] < sizes.len()
                            && sizes[old_rows[first as int]@[k] as int] == 0 by {
                            assert((old_rows[first as int]@ + old_rows[second as int]@)[k] == old_rows[first as int]@[k]);
                        }
                        assert forall|k: int| 0 <= k < old_rows[second as int]@.len() implies #[trigger] old_rows[second as int]@[k] < sizes.len()
                            && sizes[old_rows[second as int]@[k] as int] == 0 by {
                            assert((old_rows[first as int]@ + old_rows[second as int]@)[old_rows[first as int]@.len() + k] == old_rows[second as int]@[k]);
                        }
                        lemma_sum_sizes_zero(sizes, old_rows[first as int]@);
                        lemma_sum_sizes_zero(sizes, old_rows[second as int]@);
                    } else {
                        let jobs = choose|jobs: Seq<usize>| {
                            &&& #[trigger] jobs.to_multiset() == (old_rows[first as int]@ + old_rows[second as int]@).to_multiset()
                            &&& state.assigned_makespans@[first as int] == first_share(sizes, jobs,
                                old_mks[first as int] + old_mks[second as int], lower_bound as int)
                        };
                        lemma_rebalance_lowers(sizes, old_rows, old_mks, state.proc_assignments@, state.assigned_makespans@,
                            first as int, second as int, lower_bound as int, jobs);
                    }
                }
            }
        }
        if makespan < state.best_makespan {
            state.best_makespan = makespan;
            state.best_assignment = copy_rows(&state.proc_assignments);
            proof {
                lemma_rows_same(sizes, state.best_assignment@, state.proc_assignments@, m as int);
                lemma_max_row_sum(sizes, state.proc_assignments@, state.assigned_makespans@, m as int);
            }
        }
        if state.assigned_makespans[first] < first_proc_makespan || state.assigned_makespans[second] < second_proc_makespan {
            state.num_iter_without_improvement = 0;
        } else {
            if state.num_iter_without_improvement < usize::MAX {
                state.num_iter_without_improvement = state.num_iter_without_improvement + 1;
            }
            if state.num_iter_without_improvement == state.max_num_iter_without_improvement {
                self.perturb(problem, state, lower_bound);
            }
        }
        makespan
    }

    /// Moves up to the perturbation amount of jobs from a processor drawn at random to
    /// others drawn at random, then adjusts the amount.
    fn perturb(&self, problem: &ProblemInstance, state: &mut MssState, lower_bound: usize)
        requires
            mss_instance(problem, lower_bound),
            old(state).wf(problem),
        ensures
            final(state).wf(problem),
            final(state).best_makespan == old(state).best_makespan,
            final(state).best_assignment@ == old(state).best_assignment@,
            final(state).num_iter_without_improvement == old(state).num_iter_without_improvement,
            final(state).max_num_iter_without_improvement == old(state).max_num_iter_without_improvement,
            final(state).max_num_pertubations == old(state).max_num_pertubations,
            final(state).pertubation_amount == next_amount(old(state).pertubation_amount, old(state).max_num_pertubations)
                || final(state).pertubation_amount == next_amount(0, old(state).max_num_pertubations),
            exists|first: int| 0 <= first < problem.num_processors && {
                &&& is_prefix(final(state).proc_assignments@[first]@, old(state).proc_assignments@[first]@)
                &&& forall|p: int| 0 <= p < problem.num_processors && p != first
                    ==> is_prefix(old(state).proc_assignments@[p]@, #[trigger] final(state).proc_assignments@[p]@)
            },
    {
        let ghost sizes = problem.job_sizes@;
        let ghost n = problem.num_jobs as nat;
        let m = problem.num_processors;
        let first = rng_range(&mut state.rng, 0, m);
        let amount = state.pertubation_amount;
        let ghost rows0 = state.proc_assignments@;
        proof {
            assert forall|p: int| 0 <= p < m implies #[trigger] rows0[p]@.take(rows0[p]@.len() as int) == rows0[p]@ by {
                assert(rows0[p]@.take(rows0[p]@.len() as int) =~= rows0[p]@);
            }
            assert(rows0[first as int]@.take(rows0[first as int]@.len() as int) == rows0[first as int]@);
        }
        let mut k: usize = 0;
        while k < amount
            invariant
                mss_instance(problem, lower_bound),
                state.wf(problem),
                m == problem.num_processors,
                sizes == problem.job_sizes@,
                n == problem.num_jobs,
                first < m,
                state.best_makespan == old(state).best_makespan,
                state.best_assignment@ == old(state).best_assignment@,
                state.num_iter_without_improvement == old(state).num_iter_without_improvement,
                state.max_num_iter_without_improvement == old(state).max_num_iter_without_improvement,
                state.max_num_pertubations == old(state).max_num_pertubations,
                state.pertubation_amount == amount || state.pertubation_amount == 0,
                amount == old(state).pertubation_amount,
                rows0 == old(state).proc_assignments@,
                is_prefix(state.proc_assignments@[first as int]@, rows0[first as int]@),
                forall|p: int| 0 <= p < m && p != first ==> is_prefix(rows0[p]@, #[trigger] state.proc_assignments@[p]@),
            decreases amount - k,
        {
            if state.proc_assignments[first].len() == 0 {
                state.pertubation_amount = 0;
                break;
            }
            let s0 = rng_range(&mut state.rng, 0, m - 1);
            let second = if s0 < first { s0 } else { s0 + 1 };
            let ghost old_rows = state.proc_assignments@;
            proof {
                lemma_pair_facts(sizes, old_rows, n, first as int, second as int);
            }
            let mut a = copy_usizes(&state.proc_assignments[first]);
            let mut b = copy_usizes(&state.proc_assignments[second]);
            let job = match a.pop() {
                Some(j) => j,
                None => {
                    break;
                },
            };
            proof {
                assert(old_rows[first as int]@ =~= a@.push(job));
                lemma_sum_sizes_push(sizes, a@, job);
                lemma_sum_sizes_push(sizes, b@, job);
                lemma_sum_sizes_nonneg(sizes, a@);
                lemma_sum_sizes_concat(sizes, old_rows[first as int]@, old_rows[second as int]@);
                lemma_sum_sizes_nonneg(sizes, old_rows[second as int]@);
                assert((old_rows[first as int]@ + old_rows[second as int]@)[old_rows[first as int]@.len() - 1] == job);
            }
            b.push(job);
            proof {
                let ra = rows0[first as int]@;
                assert(a@ =~= old_rows[first as int]@.take(a@.len() as int));
                let ol = old_rows[first as int]@;
                assert(ra.take(ol.len() as int) == ol);
                assert(is_prefix(a@, ra)) by {
                    assert(ra.take(a@.len() as int) =~= ra.take(ol.len() as int).take(a@.len() as int));
                }
                let rb = rows0[second as int]@;
                assert(is_prefix(rb, old_rows[second as int]@)) by {
                    assert(old_rows[second as int]@ == state.proc_assignments@[second as int]@);
                }
                assert(is_prefix(rb, b@)) by {
                    assert(b@.take(rb.len() as int) =~= old_rows[second as int]@.take(rb.len() as int));
                }
            }
            state.proc_assignments.set(first, a);
            state.proc_assignments.set(second, b);
            let size = problem.job_sizes[job];
            let mf = state.assigned_makespans[first];
            let ms = state.assigned_makespans[second];
            state.assigned_makespans.set(first, mf - size);
            state.assigned_makespans.set(second, ms + size);
            proof {
                broadcast use vstd::seq_lib::group_to_multiset_ensures;
                let new_rows = state.proc_assignments@;
                assert(new_rows =~= old_rows.update(first as int, new_rows[first as int]).update(second as int, new_rows[second as int]));
                vstd::seq_lib::lemma_multiset_commutative(new_rows[first as int]@, new_rows[second as int]@);
                vstd::seq_lib::lemma_multiset_commutative(old_rows[first as int]@, old_rows[second as int]@);
                assert((new_rows[first as int]@ + new_rows[second as int]@).to_multiset() =~= (old_rows[first as int]@ + old_rows[second as int]@).to_multiset());
                lemma_rows_ms_swap(old_rows, first as int, second as int, new_rows[first as int], new_rows[second as int]);
            }
            k = k + 1;
        }
        if state.pertubation_amount < state.max_num_pertubations {
            state.pertubation_amount = 1;
        } else if state.pertubation_amount < usize::MAX {
            state.pertubation_amount = state.pertubation_amount + 1;
        }
    }

    /// The best schedule, as the processor of each job.
    pub fn finish(&self, problem: &ProblemInstance, state: &MssState) -> (s: Solution)
        requires
            problem.wf(),
            problem.num_processors >= 1,
            state.wf(problem),
        ensures
            s.makespan == state.best_makespan,
            s.assignment.len() == problem.num_jobs,
            forall|j: int| 0 <= j < problem.num_jobs ==> #[trigger] s.assignment[j] < problem.num_processors,
            s.makespan == max_load(problem.job_sizes@, s.assignment@, problem.num_processors as int),
    {
        let ghost n = problem.num_jobs as nat;
        let m = problem.num_processors;
        let mut assignments: Vec<usize> = Vec::new();
        while assignments.len() < problem.num_jobs
            invariant
                assignments.len() <= problem.num_jobs,
                forall|j: int| 0 <= j < assignments.len() ==> #[trigger] assignments[j] == 0,
            decreases problem.num_jobs - assignments.len(),
        {
            assignments.push(0);
        }
        let mut i: usize = 0;
        while i < m
            invariant
                state.wf(problem),
                m == problem.num_processors,
                i <= m,
                assignments.len() == problem.num_jobs,
                n == problem.num_jobs,
                m >= 1,
                forall|j: int| 0 <= j < assignments.len() ==> #[trigger] assignments[j] < m,
                forall|p: int, k: int| 0 <= p < i && 0 <= k < state.best_assignment[p].len()
                    ==> assignments@[#[trigger] state.best_assignment[p]@[k] as int] == p,
            decreases m - i,
        {
            proof {
                lemma_row_in_range(state.best_assignment@, n, i as int);
            }
            let mut t: usize = 0;
            while t < state.best_assignment[i].len()
                invariant
                    state.wf(problem),
                    i < m,
                    m == problem.num_processors,
                    assignments.len() == problem.num_jobs,
                    n == problem.num_jobs,
                    forall|k: int| 0 <= k < state.best_assignment[i as int].len() ==> #[trigger] state.best_assignment[i as int]@[k] < n,
                    forall|j: int| 0 <= j < assignments.len() ==> #[trigger] assignments[j] < m,
                    forall|p: int, k: int| 0 <= p < i && 0 <= k < state.best_assignment[p].len()
                        ==> assignments@[#[trigger] state.best_assignment[p]@[k] as int] == p,
                    forall|k: int| 0 <= k < t ==> assignments@[#[trigger] state.best_assignment[i as int]@[k] as int] == i,
                    t <= state.best_assignment[i as int].len(),
                decreases state.best_assignment[i as int].len() - t,
            {
                let job = state.best_assignment[i][t];
                let ghost before = assignments@;
                assignments.set(job, i);
                proof {
                    let rows = state.best_assignment@;
                    assert(rows[i as int]@.contains(job));
                    assert forall|p: int, k: int| 0 <= p < i && 0 <= k < rows[p].len()
                        implies assignments@[#[trigger] rows[p]@[k] as int] == p by {
                        lemma_rows_disjoint(rows, n, i as int, p, job);
                        assert(rows[p]@[k] != job) by {
                            if rows[p]@[k] == job {
                                assert(rows[p]@.contains(job));
                            }
                        }
                        let x = state.best_assignment[p]@[k];
                        assert(x == rows[p]@[k]);
                        assert(x != job);
                        assert(rows[p]@.contains(x));
                        lemma_row_once(rows, n, p, x);
                        assert(before[x as int] == p);
                        assert(assignments@[x as int] == before[x as int]);
                    }
                    assert forall|k: int| 0 <= k < t + 1 implies assignments@[#[trigger] rows[i as int]@[k] as int] == i by {
                        if k < t {
                            assert(before[rows[i as int]@[k] as int] == i);
                        }
                    }
                }
                t = t + 1;
            }
            i = i + 1;
        }
        proof {
            let sizes = problem.job_sizes@;
            let rows = state.best_assignment@;
            let asg = assignments@;
            broadcast use vstd::seq_lib::group_to_multiset_ensures;
            broadcast use vstd::multiset::group_multiset_axioms;
            lemma_ids(n);
            assert forall|p: int| 0 <= p < rows.len() implies #[trigger] sum_sizes(sizes, rows[p]@) == load(sizes, asg, p, asg.len() as int) by {
                assert forall|x: usize| rows[p]@.to_multiset().count(x) == ids(n).filter(on_proc(asg, p)).to_multiset().count(x) by {
                    lemma_filter_ids_count(asg, p, n, x);
                    if rows[p]@.contains(x) {
                        lemma_row_once(rows, n, p, x);
                        let k = choose|k: int| 0 <= k < rows[p]@.len() && rows[p]@[k] == x;
                        assert(asg[rows[p]@[k] as int] == p);
                    } else if x < n && asg[x as int] == p {
                        assert(ids(n).to_multiset().count(x) > 0) by {
                            assert(ids(n)[x as int] == x);
                        }
                        lemma_rows_ms_member(rows, rows.len() as int, x);
                        let q = choose|q: int| 0 <= q < rows.len() && #[trigger] rows[q]@.contains(x);
                        let k = choose|k: int| 0 <= k < rows[q]@.len() && rows[q]@[k] == x;
                        assert(asg[rows[q]@[k] as int] == q);
                    }
                }
                assert(rows[p]@.to_multiset() =~= ids(n).filter(on_proc(asg, p)).to_multiset());
                lemma_sum_sizes_perm(sizes, rows[p]@, ids(n).filter(on_proc(asg, p)));
                lemma_filter_ids_load(sizes, asg, p, n);
            }
            lemma_max_row_sum_is_max_load(sizes, rows, asg, m as int);
        }
        Solution { makespan: state.best_makespan, assignment: assignments }
    }
}

/// The jobs of a row of a partition are jobs of the instance.
proof fn lemma_row_in_range(rows: Seq<Vec<usize>>, n: nat, p: int)
    requires
        partition(rows, n),
        0 <= p < rows.len(),
    ensures
        forall|k: int| 0 <= k < rows[p].len() ==> #[trigger] rows[p]@[k] < n,
{
    broadcast use vstd::seq_lib::group_to_multiset_ensures;
    broadcast use vstd::multiset::group_multiset_axioms;
    lemma_row_sub(rows, p, rows.len() as int);
    assert forall|k: int| 0 <= k < rows[p].len() implies #[trigger] rows[p]@[k] < n by {
        let x = rows[p]@[k];
        assert(rows[p]@.to_multiset().count(x) > 0);
        assert(ids(n).to_multiset().count(x) > 0);
        assert(ids(n).contains(x));
    }
}

/// The jobs that `asg` puts on `p`.
pub open spec fn on_proc(asg: Seq<usize>, p: int) -> spec_fn(usize) -> bool {
    |j: usize| asg[j as int] == p
}

/// The jobs `0..k` on `p`, one step down.
proof fn lemma_filter_ids_step(asg: Seq<usize>, p: int, k: nat)
    requires
        0 < k <= usize::MAX,
    ensures
        ids(k).filter(on_proc(asg, p)) == if asg[k - 1] == p {
            ids((k - 1) as nat).filter(on_proc(asg, p)).push((k - 1) as usize)
        } else {
            ids((k - 1) as nat).filter(on_proc(asg, p))
        },
{
    reveal(Seq::filter);
    assert(ids(k).drop_last() =~= ids((k - 1) as nat));
    assert(ids(k).last() == (k - 1) as usize);
}

/// Among the jobs `0..k`, those on `p` appear once each.
proof fn lemma_filter_ids_count(asg: Seq<usize>, p: int, k: nat, x: usize)
    requires
        k <= usize::MAX,
    ensures
        ids(k).filter(on_proc(asg, p)).to_multiset().count(x) == if x < k && asg[x as int] == p { 1nat } else { 0nat },
    decreases k,
{
    broadcast use vstd::seq_lib::group_to_multiset_ensures;
    broadcast use vstd::multiset::group_multiset_axioms;
    if k > 0 {
        lemma_filter_ids_count(asg, p, (k - 1) as nat, x);
        lemma_filter_ids_step(asg, p, k);
    } else {
        assert(ids(0).filter(on_proc(asg, p)).len() == 0) by {
            ids(0).filter_lemma(on_proc(asg, p));
        }
        assert(ids(0).filter(on_proc(asg, p)) =~= Seq::<usize>::empty());
    }
}

/// The jobs `0..k` on `p` add up to the load of `p`.
proof fn lemma_filter_ids_load(sizes: Seq<usize>, asg: Seq<usize>, p: int, k: nat)
    requires
        k <= usize::MAX,
    ensures
        sum_sizes(sizes, ids(k).filter(on_proc(asg, p))) == load(sizes, asg, p, k as int),
    decreases k,
{
    if k > 0 {
        lemma_filter_ids_load(sizes, asg, p, (k - 1) as nat);
        lemma_filter_ids_step(asg, p, k);
        let prev = ids((k - 1) as nat).filter(on_proc(asg, p));
        if asg[k - 1] == p {
            lemma_sum_sizes_push(sizes, prev, (k - 1) as usize);
        }
    } else {
        assert(ids(0).filter(on_proc(asg, p)).len() == 0) by {
            ids(0).filter_lemma(on_proc(asg, p));
        }
    }
}

/// A job counted by the rows `0..k` is in one of them.
proof fn lemma_rows_ms_member(rows: Seq<Vec<usize>>, k: int, x: usize)
    requires
        0 <= k <= rows.len(),
        rows_ms(rows, k).count(x) > 0,
    ensures
        exists|q: int| 0 <= q < k && #[trigger] rows[q]@.contains(x),
    decreases k,
{
    broadcast use vstd::seq_lib::group_to_multiset_ensures;
    broadcast use vstd::multiset::group_multiset_axioms;
    if k > 0 {
        if rows[k - 1]@.to_multiset().count(x) > 0 {
            assert(rows[k - 1]@.contains(x));
        } else {
            lemma_rows_ms_member(rows, k - 1, x);
        }
    }
}

/// A job of a row appears there once, and is one of the jobs `0..n`.
proof fn lemma_row_once(rows: Seq<Vec<usize>>, n: nat, p: int, x: usize)
    requires
        partition(rows, n),
        n <= usize::MAX,
        0 <= p < rows.len(),
        rows[p]@.contains(x),
    ensures
        rows[p]@.to_multiset().count(x) == 1,
        x < n,
{
    broadcast use vstd::seq_lib::group_to_multiset_ensures;
    broadcast use vstd::multiset::group_multiset_axioms;
    lemma_row_sub(rows, p, rows.len() as int);
    lemma_ids(n);
    assert(rows[p]@.to_multiset().count(x) > 0);
    assert(rows[p]@.to_multiset().count(x) <= rows_ms(rows, rows.len() as int).count(x));
    assert(ids(n).to_multiset().count(x) > 0);
}

/// A job of row `p` is in no other row.
proof fn lemma_rows_disjoint(rows: Seq<Vec<usize>>, n: nat, p: int, q: int, x: usize)
    requires
        partition(rows, n),
        n <= usize::MAX,
        p != q,
        0 <= p < rows.len(),
        0 <= q < rows.len(),
        rows[p]@.contains(x),
    ensures
        !rows[q]@.contains(x),
{
    broadcast use vstd::seq_lib::group_to_multiset_ensures;
    broadcast use vstd::multiset::group_multiset_axioms;
    lemma_rows_pair_sub(rows, p, q);
    vstd::seq_lib::lemma_multiset_commutative(rows[p]@, rows[q]@);
    lemma_ids(n);
    let both = (rows[p]@ + rows[q]@).to_multiset();
    assert(both.count(x) <= rows_ms(rows, rows.len() as int).count(x));
    assert(both.count(x) == rows[p]@.to_multiset().count(x) + rows[q]@.to_multiset().count(x));
    assert(rows[p]@.to_multiset().count(x) > 0);
    assert(ids(n).to_multiset().count(x) <= 1);
}

proof fn lemma_row_sub(rows: Seq<Vec<usize>>, p: int, k: int)
    requires
        0 <= p < k <= rows.len(),
    ensures
        rows[p]@.to_multiset().subset_of(rows_ms(rows, k)),
    decreases k,
{
    broadcast use vstd::multiset::group_multiset_axioms;
    if p < k - 1 {
        lemma_row_sub(rows, p, k - 1);
    }
}

impl Bound for MSS {
    open spec fn bound_requires(&self, problem: &ProblemInstance, lower_bound: usize, upper_bound: Option<Solution>) -> bool {
        problem.num_processors != 1 ==> {
            &&& mss_instance(problem, lower_bound)
            &&& upper_bound matches Some(u) && u.valid_for(problem)
        }
    }

    /// On one processor nothing changes. Otherwise the search runs from the given schedule,
    /// a round at a time, until the time is up or a round reaches the lower bound, and the
    /// best schedule met is returned: a schedule of the instance, whose makespan is its
    /// largest load, never worse than the given one. The lower bound is handed back. At
    /// least one round runs whatever the clock says, so on two processors whose loads
    /// differ by more than any job, with the lower bound below the given makespan, the
    /// schedule returned is strictly better than the given one.
    fn bound(
        &self,
        problem: &ProblemInstance,
        lower_bound: usize,
        upper_bound: Option<Solution>,
        timeout: &Timeout,
    ) -> (r: (usize, Option<Solution>))
        ensures
            r.0 == lower_bound,
            problem.num_processors == 1 ==> r.1 == upper_bound,
            problem.num_processors != 1 ==> (r.1 matches Some(s) && {
                &&& s.makespan <= upper_bound->0.makespan
                &&& s.valid_for(problem)
            }),
            problem.num_processors == 2 && lower_bound < upper_bound->0.makespan
                && two_lopsided(problem.job_sizes@, upper_bound->0.assignment@)
                ==> r.1->0.makespan < upper_bound->0.makespan,
    {
        if problem.num_processors == 1 {
            return (lower_bound, upper_bound);
        }
        let upper = match upper_bound {
            Some(u) => u,
            None => {
                return (lower_bound, None);
            },
        };
        let mut state = self.start(problem, &upper, lower_bound);
        let ghost init_mks = state.assigned_makespans@;
        let ghost sizes = problem.job_sizes@;
        let ghost asg = upper.assignment@;
        proof {
            let n = problem.num_jobs as nat;
            assert forall|p: int| 0 <= p < problem.num_processors implies #[trigger] init_mks[p] == load(sizes, asg, p, asg.len() as int) by {
                assert(on_proc(asg, p) =~= (|j: usize| asg[j as int] == p));
                lemma_filter_ids_load(sizes, asg, p, n);
            }
        }
        let ghost claim = problem.num_processors == 2 && lower_bound < upper.makespan && two_lopsided(sizes, asg);
        proof {
            if problem.num_processors == 2 {
                let l0 = load(sizes, asg, 0, asg.len() as int);
                let l1 = load(sizes, asg, 1, asg.len() as int);
                assert(l0 == init_mks[0] && l1 == init_mks[1]);
                assert(max_load(sizes, asg, 0) == 0);
                assert(max_load(sizes, asg, 1) == l0);
                assert(upper.makespan == if l0 >= l1 { l0 } else { l1 });
            }
        }
        let ghost mut stepped = false;
        // the rounds are counted only so that the loop has a measure; the clock ends it
        let mut rounds: u64 = 0;
        loop
            invariant
                mss_instance(problem, lower_bound),
                state.wf(problem),
                state.best_makespan <= upper.makespan,
                !stepped ==> state.assigned_makespans@ == init_mks,
                claim ==> problem.num_processors == 2 && ({
                    let hi = if init_mks[0] >= init_mks[1] { init_mks[0] as int } else { init_mks[1] as int };
                    let lo = if init_mks[0] >= init_mks[1] { init_mks[1] as int } else { init_mks[0] as int };
                    lopsided(problem.job_sizes@, lo, hi) && lower_bound < hi && hi == upper.makespan
                }),
                claim && stepped ==> state.best_makespan < upper.makespan,
            ensures
                state.wf(problem),
                state.best_makespan <= upper.makespan,
                claim ==> state.best_makespan < upper.makespan,
            decreases u64::MAX - rounds,
        {
            let makespan = self.step(problem, &mut state, lower_bound);
            proof {
                stepped = true;
            }
            if timeout.time_finished() || makespan == lower_bound || rounds == u64::MAX {
                break;
            }
            rounds = rounds + 1;
        }
        (lower_bound, Some(self.finish(problem, &state)))
    }
}

} // verus!
