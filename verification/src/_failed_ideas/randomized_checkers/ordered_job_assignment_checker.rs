//! Puts the first jobs of a given order, one by one, on the least loaded processor, and
//! leaves the other jobs to a solver.
use vstd::prelude::*;
use crate::problem_instance::partial_solution::PartialSolution;
use crate::problem_instance::partial_solution::all_processors;
use crate::problem_instance::problem_instance::ProblemInstance;
use crate::problem_instance::solution::Solution;

verus! {

/// The first processor among `0..k` with the least load.
pub open spec fn least_loaded(loads: Seq<int>, k: int) -> int
    decreases k,
{
    if k <= 1 {
        0
    } else {
        let j = least_loaded(loads, k - 1);
        if loads[k - 1] < loads[j] {
            k - 1
        } else {
            j
        }
    }
}

/// Some processor among `0..m` is loaded beyond `mk`.
pub open spec fn too_far(loads: Seq<int>, m: int, mk: int) -> bool {
    exists|p: int| 0 <= p < m && loads[p] > mk
}

/// The processors of the jobs and the loads after the first `k` jobs of `order` went on
/// the least loaded processor (a job already fixed to one processor is passed over);
/// `None` when a processor was beyond `mk` before one of these steps.
pub open spec fn assigned_in_order(order: Seq<usize>, sizes: Seq<usize>, m: int, mk: int, k: int) -> Option<(Seq<Seq<usize>>, Seq<int>)>
    decreases k,
{
    if k <= 0 {
        Some((Seq::new(sizes.len(), |j: int| all_processors(m as nat)), Seq::new(m as nat, |p: int| 0int)))
    } else {
        match assigned_in_order(order, sizes, m, mk, k - 1) {
            None => None,
            Some((pa, loads)) => if too_far(loads, m, mk) {
                None
            } else if pa[order[k - 1] as int].len() == 1 {
                Some((pa, loads))
            } else {
                let p = least_loaded(loads, m);
                Some((pa.update(order[k - 1] as int, seq![p as usize]), loads.update(p, loads[p] + sizes[order[k - 1] as int])))
            },
        }
    }
}

/// The largest of the first `k` loads, or 0.
pub open spec fn largest(loads: Seq<int>, k: int) -> int
    decreases k,
{
    if k <= 0 {
        0
    } else {
        let rest = largest(loads, k - 1);
        if loads[k - 1] > rest {
            loads[k - 1]
        } else {
            rest
        }
    }
}

/// What fixing the first jobs gives: nothing within the makespan, a whole schedule, or a
/// partial schedule for a solver to finish.
pub enum OrderedOutcome {
    TooFar,
    Scheduled(Solution),
    Reduced(PartialSolution),
}

#[derive(Clone)]
pub struct OrderedJobAssignmentChecker {
    pub job_order: Vec<usize>,
    pub num_jobs_to_assign: usize,
}

/// The first processor among `0..loads.len()` with the least load.
fn least_loaded_exec(loads: &Vec<usize>) -> (r: usize)
    requires
        loads.len() >= 1,
    ensures
        r == least_loaded(Seq::new(loads.len() as nat, |p: int| loads@[p] as int), loads.len() as int),
        r < loads.len(),
{
    let ghost ls = Seq::new(loads.len() as nat, |p: int| loads@[p] as int);
    let mut best: usize = 0;
    let mut k: usize = 1;
    while k < loads.len()
        invariant
            ls == Seq::new(loads.len() as nat, |p: int| loads@[p] as int),
            1 <= k <= loads.len(),
            best == least_loaded(ls, k as int),
            best < k,
        decreases loads.len() - k,
    {
        if loads[k] < loads[best] {
            best = k;
        }
        k = k + 1;
    }
    best
}

/// Whether some load is beyond `mk`.
fn any_beyond(loads: &Vec<usize>, mk: usize) -> (r: bool)
    ensures
        r == too_far(Seq::new(loads.len() as nat, |p: int| loads@[p] as int), loads.len() as int, mk as int),
{
    let ghost ls = Seq::new(loads.len() as nat, |p: int| loads@[p] as int);
    let mut k: usize = 0;
    while k < loads.len()
        invariant
            ls == Seq::new(loads.len() as nat, |p: int| loads@[p] as int),
            k <= loads.len(),
            forall|p: int| 0 <= p < k ==> ls[p] <= mk,
        decreases loads.len() - k,
    {
        if loads[k] > mk {
            assert(ls[k as int] > mk);
            return true;
        }
        k = k + 1;
    }
    false
}

impl OrderedJobAssignmentChecker {
    /// Puts the first `num_jobs_to_assign` jobs of `job_order`, one after the other, on the
    /// least loaded processor (passing over a job already fixed), starting from the empty
    /// schedule of `part`'s instance, and stops with `TooFar` as soon as a processor is
    /// beyond the makespan. When every job is fixed, the schedule with the largest load
    /// as its makespan; else the partial schedule that a solver has to finish.
    pub fn assign_first_jobs(&self, part: &PartialSolution, makespan_to_test: usize) -> (r: OrderedOutcome)
        requires
            part.instance.wf(),
            part.instance.num_processors >= 1,
            makespan_to_test <= usize::MAX / 2,
            forall|j: int| 0 <= j < part.instance.num_jobs ==> #[trigger] part.instance.job_sizes@[j] <= usize::MAX / 2,
            self.num_jobs_to_assign <= self.job_order.len(),
            forall|i: int| 0 <= i < self.num_jobs_to_assign ==> #[trigger] self.job_order@[i] < part.instance.num_jobs,
        ensures
            ({
                let sizes = part.instance.job_sizes@;
                let m = part.instance.num_processors as int;
                let mk = makespan_to_test as int;
                match assigned_in_order(self.job_order@, sizes, m, mk, self.num_jobs_to_assign as int) {
                    None => r is TooFar,
                    Some((pa, loads)) => if too_far(loads, m, mk) {
                        r is TooFar
                    } else if forall|j: int| 0 <= j < pa.len() ==> #[trigger] pa[j].len() == 1 {
                        r matches OrderedOutcome::Scheduled(s) && s.makespan == largest(loads, m)
                            && s.assignment@ == Seq::new(pa.len(), |j: int| pa[j][0])
                    } else {
                        r matches OrderedOutcome::Reduced(reduced) && reduced.instance.num_processors == m
                            && reduced.instance.num_jobs == part.instance.num_jobs && reduced.instance.job_sizes@ == sizes
                            && reduced.possible_allocations.len() == pa.len()
                            && (forall|j: int| 0 <= j < pa.len() ==> (#[trigger] reduced.possible_allocations@[j])@ == pa[j])
                            && reduced.assigned_makespan.len() == m
                            && (forall|p: int| 0 <= p < m ==> #[trigger] reduced.assigned_makespan@[p] == loads[p])
                    }
                }
            }),
    {
        let ghost sizes = part.instance.job_sizes@;
        let m = part.instance.num_processors;
        let n = part.instance.num_jobs;
        let mk = makespan_to_test;
        let instance = ProblemInstance {
            num_processors: m,
            num_jobs: n,
            job_sizes: part.instance.job_sizes.clone(),
        };
        let mut reduced = PartialSolution::new(instance);
        let ghost ls0 = Seq::new(m as nat, |p: int| reduced.assigned_makespan@[p] as int);
        proof {
            assert(ls0 =~= Seq::new(m as nat, |p: int| 0int));
            assert(Seq::new(n as nat, |j: int| reduced.possible_allocations@[j]@) =~= Seq::new(sizes.len(), |j: int| all_processors(m as nat)));
        }
        let mut i: usize = 0;
        while i < self.num_jobs_to_assign
            invariant
                sizes == part.instance.job_sizes@,
                m == part.instance.num_processors,
                n == part.instance.num_jobs,
                m >= 1,
                sizes.len() == n,
                mk <= usize::MAX / 2,
                mk == makespan_to_test,
                forall|j: int| 0 <= j < n ==> #[trigger] sizes[j] <= usize::MAX / 2,
                self.num_jobs_to_assign <= self.job_order.len(),
                forall|i2: int| 0 <= i2 < self.num_jobs_to_assign ==> #[trigger] self.job_order@[i2] < n,
                i <= self.num_jobs_to_assign,
                reduced.instance.num_processors == m,
                reduced.instance.num_jobs == n,
                reduced.instance.job_sizes@ == sizes,
                reduced.possible_allocations.len() == n,
                reduced.assigned_makespan.len() == m,
                forall|p: int| 0 <= p < m ==> #[trigger] reduced.assigned_makespan@[p] <= mk + usize::MAX / 2,
                assigned_in_order(self.job_order@, sizes, m as int, mk as int, i as int) == Some((
                    Seq::new(n as nat, |j: int| reduced.possible_allocations@[j]@),
                    Seq::new(m as nat, |p: int| reduced.assigned_makespan@[p] as int),
                )),
            decreases self.num_jobs_to_assign - i,
        {
            let ghost pa = Seq::new(n as nat, |j: int| reduced.possible_allocations@[j]@);
            let ghost loads = Seq::new(m as nat, |p: int| reduced.assigned_makespan@[p] as int);
            assert(Seq::new(reduced.assigned_makespan.len() as nat, |p: int| reduced.assigned_makespan@[p] as int) =~= loads);
            if any_beyond(&reduced.assigned_makespan, mk) {
                proof {
                    assert(assigned_in_order(self.job_order@, sizes, m as int, mk as int, i + 1) is None);
                    lemma_none_stays(self.job_order@, sizes, m as int, mk as int, i + 1, self.num_jobs_to_assign as int);
                }
                return OrderedOutcome::TooFar;
            }
            let job = self.job_order[i];
            if reduced.possible_allocations[job].len() == 1 {
                proof {
                    assert(pa[job as int].len() == 1);
                }
            } else {
                let p = least_loaded_exec(&reduced.assigned_makespan);
                assert(reduced.assigned_makespan@[p as int] <= mk);
                let load = reduced.assigned_makespan[p] + reduced.instance.job_sizes[job];
                reduced.assigned_makespan.set(p, load);
                let mut only: Vec<usize> = Vec::new();
                only.push(p);
                reduced.possible_allocations.set(job, only);
                proof {
                    assert(Seq::new(n as nat, |j: int| reduced.possible_allocations@[j]@) =~= pa.update(job as int, seq![p]));
                    assert(Seq::new(m as nat, |q: int| reduced.assigned_makespan@[q] as int) =~= loads.update(p as int, loads[p as int] + sizes[job as int]));
                }
            }
            i = i + 1;
        }
        let ghost pa = Seq::new(n as nat, |j: int| reduced.possible_allocations@[j]@);
        let ghost loads = Seq::new(m as nat, |p: int| reduced.assigned_makespan@[p] as int);
        assert(Seq::new(reduced.assigned_makespan.len() as nat, |p: int| reduced.assigned_makespan@[p] as int) =~= loads);
        if any_beyond(&reduced.assigned_makespan, mk) {
            return OrderedOutcome::TooFar;
        }
        proof {
            lemma_largest_bound(loads, m as int, mk as int);
        }
        let mut all_fixed = true;
        let mut j: usize = 0;
        while j < n
            invariant
                pa == Seq::new(n as nat, |j2: int| reduced.possible_allocations@[j2]@),
                reduced.possible_allocations.len() == n,
                j <= n,
                all_fixed <==> forall|j2: int| 0 <= j2 < j ==> #[trigger] pa[j2].len() == 1,
            decreases n - j,
        {
            assert(pa[j as int].len() == reduced.possible_allocations@[j as int].len());
            if reduced.possible_allocations[j].len() != 1 {
                all_fixed = false;
            }
            j = j + 1;
        }
        if !all_fixed {
            assert(forall|p: int| 0 <= p < m ==> #[trigger] reduced.assigned_makespan@[p] == loads[p]);
            return OrderedOutcome::Reduced(reduced);
        }
        let mut assignment: Vec<usize> = Vec::new();
        let mut j: usize = 0;
        while j < n
            invariant
                pa == Seq::new(n as nat, |j2: int| reduced.possible_allocations@[j2]@),
                reduced.possible_allocations.len() == n,
                forall|j2: int| 0 <= j2 < n ==> #[trigger] pa[j2].len() == 1,
                j <= n,
                assignment@ == Seq::new(j as nat, |j2: int| pa[j2][0]),
            decreases n - j,
        {
            assert(pa[j as int].len() == 1);
            assignment.push(reduced.possible_allocations[j][0]);
            assert(assignment@ =~= Seq::new((j + 1) as nat, |j2: int| pa[j2][0]));
            j = j + 1;
        }
        let mut makespan: usize = 0;
        let mut p: usize = 0;
        while p < m
            invariant
                loads == Seq::new(m as nat, |q: int| reduced.assigned_makespan@[q] as int),
                reduced.assigned_makespan.len() == m,
                p <= m,
                makespan == largest(loads, p as int),
            decreases m - p,
        {
            if reduced.assigned_makespan[p] > makespan {
                makespan = reduced.assigned_makespan[p];
            }
            p = p + 1;
        }
        let sol = Solution { makespan, assignment };
        if sol.makespan > makespan_to_test {
            return OrderedOutcome::TooFar;
        }
        OrderedOutcome::Scheduled(sol)
    }
}

/// Loads none of which is beyond `mk` have their largest within `mk`.
proof fn lemma_largest_bound(loads: Seq<int>, k: int, mk: int)
    requires
        mk >= 0,
        !too_far(loads, k, mk),
    ensures
        largest(loads, k) <= mk,
    decreases k,
{
    if k > 0 {
        assert(!too_far(loads, k - 1, mk)) by {
            if too_far(loads, k - 1, mk) {
                let p = choose|p: int| 0 <= p < k - 1 && loads[p] > mk;
                assert(0 <= p < k && loads[p] > mk);
            }
        }
        lemma_largest_bound(loads, k - 1, mk);
        if loads[k - 1] > mk {
            assert(too_far(loads, k, mk));
        }
    }
}

/// Once the assignment stops, it stays stopped.
proof fn lemma_none_stays(order: Seq<usize>, sizes: Seq<usize>, m: int, mk: int, k: int, k2: int)
    requires
        k <= k2,
        assigned_in_order(order, sizes, m, mk, k) is None,
    ensures
        assigned_in_order(order, sizes, m, mk, k2) is None,
    decreases k2 - k,
{
    if k < k2 {
        lemma_none_stays(order, sizes, m, mk, k, k2 - 1);
    }
}

} // verus!
