//! Lifting with the quick bounds only, over at most ten thousand and one lifted instances.
use vstd::prelude::*;
use crate::bounds::lower_bounds::lifting::lifted_instances;
use crate::bounds::lower_bounds::lifting::lifted_up_to;
use crate::bounds::lower_bounds::lifting::lifting_params;
use crate::bounds::upper_bounds::mss::random_seed;
use crate::problem_instance::problem_instance::ProblemInstance;
use crate::problem_instance::solution::Solution;
use crate::bounds::bound::Bound;
use crate::bounds::lower_bounds::fs::FeketeSchepers;
use crate::bounds::lower_bounds::max_job_size::MaxJobSize;
use crate::bounds::lower_bounds::middle::MiddleJobs;
use crate::bounds::lower_bounds::pigeon_hole::PigeonHole;
use crate::bounds::lower_bounds::sss_bound_tightening::SSSBoundStrengthening;
use crate::bounds::upper_bounds::lpt::LPT;
use crate::bounds::upper_bounds::lptp::Lptp;
use crate::bounds::upper_bounds::lptpp::Lptpp;
use crate::bounds::upper_bounds::mss::MSS;
use crate::common::common::calc_makespan;
use crate::common::common::lemma_load_le_total;
use crate::common::common::lemma_prefix_total_monotone;
use crate::common::common::prefix_total;
use crate::common::timeout::Timeout;

verus! {

#[derive(Clone, Debug)]
pub struct LiftingWeak {
    seed: u64,
}

impl LiftingWeak {
    /// The seed that the heuristic search among the bounds starts from.
    pub closed spec fn seed(&self) -> u64 {
        self.seed
    }

    pub fn new_deterministic(seed: u64) -> (l: LiftingWeak)
        ensures
            l.seed() == seed,
    {
        LiftingWeak { seed }
    }

    /// A bound whose seed is drawn at random.
    pub fn new() -> LiftingWeak {
        LiftingWeak { seed: random_seed() }
    }

    /// The seed, for the heuristic search among the bounds.
    pub fn get_seed(&self) -> (s: u64)
        ensures
            s == self.seed(),
    {
        self.seed
    }
}

/// The lifted instances on `1..=m` processors, stopping after the ten thousand and first.
pub fn get_instances(instance: &ProblemInstance) -> (r: Vec<ProblemInstance>)
    requires
        instance.wf(),
        instance.num_processors >= 1,
        instance.num_processors < usize::MAX,
        instance.num_jobs < usize::MAX,
    ensures
        ({
            let params = lifting_params(instance.num_jobs as nat, instance.num_processors, instance.num_processors as int);
            &&& lifted_up_to(r@, instance.job_sizes@, instance.num_processors, params)
            &&& r.len() == if params.len() <= 10000 { params.len() as int } else { 10001 }
        }),
{
    lifted_instances(instance, 10000)
}

/// The total of the sizes, where it fits in a `usize`.
fn checked_total(sizes: &Vec<usize>) -> (r: Option<usize>)
    ensures
        r matches Some(t) ==> t == prefix_total(sizes@, sizes.len() as int),
        r is None ==> prefix_total(sizes@, sizes.len() as int) > usize::MAX,
{
    let mut total: usize = 0;
    let mut i: usize = 0;
    while i < sizes.len()
        invariant
            i <= sizes.len(),
            total == prefix_total(sizes@, i as int),
        decreases sizes.len() - i,
    {
        match total.checked_add(sizes[i]) {
            Some(t) => {
                total = t;
            },
            None => {
                proof {
                    lemma_prefix_total_monotone(sizes@, i + 1, sizes.len() as int);
                }
                return None;
            },
        }
        i = i + 1;
    }
    Some(total)
}

/// Whether the sizes are in non-increasing order.
fn sizes_sorted(sizes: &Vec<usize>) -> (r: bool)
    ensures
        r ==> forall|a: int, b: int| 0 <= a <= b < sizes.len() ==> sizes[a] >= sizes[b],
{
    let mut i: usize = 1;
    while i < sizes.len()
        invariant
            1 <= i,
            forall|a: int, b: int| 0 <= a <= b < i && b < sizes.len() ==> sizes[a] >= sizes[b],
        decreases sizes.len() - i,
    {
        if sizes[i - 1] < sizes[i] {
            return false;
        }
        proof {
            assert forall|a: int, b: int| 0 <= a <= b < i + 1 && b < sizes.len() implies sizes[a] >= sizes[b] by {
                if b == i && a < i {
                    assert(sizes[a] >= sizes[i - 1]);
                }
            }
        }
        i = i + 1;
    }
    true
}

/// Whether every size is at most `k`.
fn all_at_most(sizes: &Vec<usize>, k: usize) -> (r: bool)
    ensures
        r ==> forall|j: int| 0 <= j < sizes.len() ==> #[trigger] sizes[j] <= k,
{
    let mut i: usize = 0;
    while i < sizes.len()
        invariant
            i <= sizes.len(),
            forall|j: int| 0 <= j < i ==> #[trigger] sizes[j] <= k,
        decreases sizes.len() - i,
    {
        if sizes[i] > k {
            return false;
        }
        i = i + 1;
    }
    true
}

/// Whether `ub` is a schedule of `problem` with its true makespan.
fn schedule_checked(problem: &ProblemInstance, ub: &Option<Solution>) -> (r: bool)
    requires
        problem.wf(),
        prefix_total(problem.job_sizes@, problem.num_jobs as int) <= usize::MAX,
    ensures
        r ==> (ub matches Some(u) && u.valid_for(problem)),
{
    match ub {
        None => false,
        Some(u) => {
            if u.assignment.len() != problem.num_jobs {
                return false;
            }
            let mut j: usize = 0;
            while j < u.assignment.len()
                invariant
                    j <= u.assignment.len(),
                    forall|k: int| 0 <= k < j ==> #[trigger] u.assignment[k] < problem.num_processors,
                decreases u.assignment.len() - j,
            {
                if u.assignment[j] >= problem.num_processors {
                    return false;
                }
                j = j + 1;
            }
            proof {
                assert forall|p: int| 0 <= p < problem.num_processors implies
                    #[trigger] crate::common::common::load(problem.job_sizes@, u.assignment@, p, u.assignment@.len() as int) <= usize::MAX by {
                    lemma_load_le_total(problem.job_sizes@, u.assignment@, p, problem.num_jobs as int);
                }
            }
            calc_makespan(problem, &u.assignment) == u.makespan
        },
    }
}

/// The search among the bounds is over: the schedule reaches the lower bound found, or is
/// no longer than the bound it is asked to beat.
fn settled(target: usize, lb: usize, ub: &Option<Solution>) -> (r: bool)
    ensures
        r == (ub matches Some(u) && (u.makespan <= target || u.makespan == lb)),
{
    match ub {
        Some(u) => u.makespan <= target || u.makespan == lb,
        None => false,
    }
}

impl LiftingWeak {
    /// Runs the quick bounds in turn on one lifted instance, from no bounds at all: the
    /// pigeon-hole bound, the largest job, the middle jobs, LPT, LPT with a fixed makespan,
    /// Fekete–Schepers, the subset-sum tightening, LPT with subset sums and the multi-start
    /// search. It stops once a schedule reaches the lower bound found or `lower_bound`,
    /// when the time is up (once there is a schedule), or where the instance is outside
    /// what the next bound is made for (sizes that do not add up within a third of a
    /// `usize`, and the like).
    fn bound_instance(&self, instance: &ProblemInstance, lower_bound: usize, remaining_time: &Timeout) -> (r: (usize, Option<Solution>))
        requires
            instance.wf(),
            1 <= instance.num_processors < usize::MAX,
    {
        let total = match checked_total(&instance.job_sizes) {
            Some(t) => t,
            None => {
                return (0, None);
            },
        };
        if total > usize::MAX / 3 {
            return (0, None);
        }
        let mut lb: usize = 0;
        let mut ub: Option<Solution> = None;
        let step = PigeonHole {}.bound(instance, lb, ub, remaining_time);
        lb = step.0;
        ub = step.1;
        if settled(lower_bound, lb, &ub) || instance.num_jobs == 0 {
            return (lb, ub);
        }
        let step = MaxJobSize {}.bound(instance, lb, ub, remaining_time);
        lb = step.0;
        ub = step.1;
        if settled(lower_bound, lb, &ub) {
            return (lb, ub);
        }
        let m = instance.num_processors;
        if m + 1 < instance.num_jobs && instance.job_sizes[m - 1] > usize::MAX - instance.job_sizes[m] {
            return (lb, ub);
        }
        let step = MiddleJobs {}.bound(instance, lb, ub, remaining_time);
        lb = step.0;
        ub = step.1;
        if settled(lower_bound, lb, &ub) {
            return (lb, ub);
        }
        proof {
            crate::bounds::upper_bounds::lpt::lpt_makespan_bound(instance.job_sizes@, instance.num_processors as int);
        }
        let step = LPT {}.bound(instance, lb, ub, remaining_time);
        lb = step.0;
        ub = step.1;
        if settled(lower_bound, lb, &ub) || remaining_time.time_finished() || !schedule_checked(instance, &ub) {
            return (lb, ub);
        }
        let step = Lptp {}.bound(instance, lb, ub, remaining_time);
        lb = step.0;
        ub = step.1;
        if settled(lower_bound, lb, &ub) || remaining_time.time_finished() {
            return (lb, ub);
        }
        let sorted = sizes_sorted(&instance.job_sizes);
        let small = all_at_most(&instance.job_sizes, usize::MAX / 101);
        if sorted && small && lb >= 1 && instance.job_sizes[0] <= lb && (total as u128) + (instance.num_jobs as u128) < 0xffff_ffff_ffff_ffffu128 {
            let step = FeketeSchepers {}.bound(instance, lb, ub, remaining_time);
        lb = step.0;
        ub = step.1;
            if settled(lower_bound, lb, &ub) || remaining_time.time_finished() {
                return (lb, ub);
            }
        }
        if !schedule_checked(instance, &ub) {
            return (lb, ub);
        }
        let upper = match &ub {
            Some(u) => u.makespan,
            None => 0,
        };
        if upper >= usize::MAX / 8 || lb > upper {
            return (lb, ub);
        }
        let step = SSSBoundStrengthening {}.bound(instance, lb, ub, remaining_time);
        lb = step.0;
        ub = step.1;
        if settled(lower_bound, lb, &ub) || remaining_time.time_finished() {
            return (lb, ub);
        }
        let fit = all_at_most(&instance.job_sizes, lb);
        if instance.num_jobs > 32768 || !fit || lb == usize::MAX {
            return (lb, ub);
        }
        let step = Lptpp {}.bound(instance, lb, ub, remaining_time);
        lb = step.0;
        ub = step.1;
        if settled(lower_bound, lb, &ub) || remaining_time.time_finished() || !schedule_checked(instance, &ub) {
            return (lb, ub);
        }
        let mss = MSS::new_deterministic(self.seed);
        mss.bound(instance, lb, ub, remaining_time)
    }
}

impl Bound for LiftingWeak {
    open spec fn bound_requires(&self, problem: &ProblemInstance, lower_bound: usize, upper_bound: Option<Solution>) -> bool {
        &&& problem.wf()
        &&& 1 <= problem.num_processors < usize::MAX
        &&& problem.num_jobs < usize::MAX
    }

    /// The largest of `lower_bound` and the lower bounds found on the lifted instances,
    /// each bounded within its share of a quarter of the remaining time; the schedule is
    /// handed back.
    fn bound(
        &self,
        problem: &ProblemInstance,
        lower_bound: usize,
        upper_bound: Option<Solution>,
        timeout: &Timeout,
    ) -> (r: (usize, Option<Solution>))
        ensures
            r.1 == upper_bound,
            r.0 >= lower_bound,
    {
        let instances = get_instances(problem);
        let mut best_bound = lower_bound;
        let bounding_timeout = timeout.clone_with_new_timeout(timeout.remaining_time() / 4);
        let mut i: usize = 0;
        while i < instances.len()
            invariant
                i <= instances.len(),
                best_bound >= lower_bound,
            decreases instances.len() - i,
        {
            if bounding_timeout.time_finished() {
                break;
            }
            let share = bounding_timeout.remaining_time() / ((instances.len() - i) as u128);
            let instance_bound_time = bounding_timeout.clone_with_new_timeout(share);
            let instance = &instances[i];
            if instance.job_sizes.len() == instance.num_jobs && 1 <= instance.num_processors && instance.num_processors < usize::MAX {
                let (lower, _upper) = self.bound_instance(instance, best_bound, &instance_bound_time);
                if lower > best_bound {
                    best_bound = lower;
                }
            }
            i = i + 1;
        }
        (best_bound, upper_bound)
    }
}

} // verus!
