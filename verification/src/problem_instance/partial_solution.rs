//! A schedule under construction: the processors each job may still go to, and the
//! load that is already fixed on each processor.
use vstd::prelude::*;
use crate::problem_instance::problem_instance::ProblemInstance;

verus! {

/// `possible_allocations[j]` lists the processors that job `j` may be put on;
/// `assigned_makespan[p]` is the load already fixed on processor `p`.
#[derive(Clone, Debug)]
pub struct PartialSolution {
    pub instance: ProblemInstance,
    pub possible_allocations: Vec<Vec<usize>>,
    pub assigned_makespan: Vec<usize>,
}

/// The processors `0..m` in order.
pub open spec fn all_processors(m: nat) -> Seq<usize> {
    Seq::new(m, |p: int| p as usize)
}

impl PartialSolution {
    /// Well formed: one list of processors per job, one fixed load per processor.
    pub open spec fn wf(&self) -> bool {
        &&& self.instance.wf()
        &&& self.possible_allocations.len() == self.instance.num_jobs
        &&& self.assigned_makespan.len() == self.instance.num_processors
    }

    /// The empty schedule: every job may go on every processor and nothing is fixed.
    pub fn new(instance: ProblemInstance) -> (s: PartialSolution)
        ensures
            s.instance == instance,
            s.possible_allocations.len() == instance.num_jobs,
            forall|j: int| 0 <= j < instance.num_jobs ==> (#[trigger] s.possible_allocations[j])@
                == all_processors(instance.num_processors as nat),
            s.assigned_makespan@ == Seq::new(instance.num_processors as nat, |p: int| 0usize),
    {
        let m = instance.num_processors;
        let n = instance.num_jobs;
        let mut row: Vec<usize> = Vec::new();
        let mut p: usize = 0;
        while p < m
            invariant
                p <= m,
                row@ == all_processors(p as nat),
            decreases m - p,
        {
            row.push(p);
            p = p + 1;
            proof {
                assert(row@ =~= all_processors(p as nat));
            }
        }
        let mut possible_allocations: Vec<Vec<usize>> = Vec::new();
        let mut j: usize = 0;
        while j < n
            invariant
                j <= n,
                row@ == all_processors(m as nat),
                possible_allocations.len() == j,
                forall|k: int| 0 <= k < j ==> (#[trigger] possible_allocations[k])@ == all_processors(m as nat),
            decreases n - j,
        {
            let copy = copy_usizes(&row);
            possible_allocations.push(copy);
            j = j + 1;
        }
        let mut assigned_makespan: Vec<usize> = Vec::new();
        let mut q: usize = 0;
        while q < m
            invariant
                q <= m,
                assigned_makespan@ == Seq::new(q as nat, |p: int| 0usize),
            decreases m - q,
        {
            assigned_makespan.push(0);
            q = q + 1;
            proof {
                assert(assigned_makespan@ =~= Seq::new(q as nat, |p: int| 0usize));
            }
        }
        PartialSolution { instance, possible_allocations, assigned_makespan }
    }

    /// Job `job` is fixed: exactly one processor is left for it.
    pub fn is_assigned(&self, job: usize) -> (r: bool)
        requires
            job < self.possible_allocations.len(),
        ensures
            r == (self.possible_allocations@[job as int]@.len() == 1),
    {
        self.possible_allocations[job].len() == 1
    }
}

/// An element-wise copy.
pub fn copy_usizes(v: &Vec<usize>) -> (r: Vec<usize>)
    ensures
        r@ == v@,
{
    let mut r: Vec<usize> = Vec::new();
    let mut i: usize = 0;
    while i < v.len()
        invariant
            i <= v.len(),
            r@ == v@.take(i as int),
        decreases v.len() - i,
    {
        r.push(v[i]);
        i = i + 1;
        proof {
            assert(r@ =~= v@.take(i as int));
        }
    }
    proof {
        assert(v@.take(v.len() as int) =~= v@);
    }
    r
}

} // verus!
