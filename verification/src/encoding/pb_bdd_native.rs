//! The pseudo-boolean encoding: for each processor, a decision diagram states that the
//! jobs put on it fit within the makespan.
use vstd::prelude::*;
use crate::bdd::bdd::BDD;
use crate::bdd::bdd::assign_aux_vars;
use crate::bdd::bdd::encode;
use crate::bdd::bdd::leq;
use crate::bdd::bdd::Node;
use crate::bdd::bdd::accepts;
use crate::bdd::bdd::bdd_clauses;
use crate::bdd::bdd::lemma_accepts_same;
use crate::bdd::bdd::same_up_to;
use crate::bdd::bdd::var_weights_ok;
use crate::encoding::problem_encoding::one_hot_encoding::lemma_position_var_injective;
use crate::encoding::problem_encoding::one_hot_encoding::row_count;
use crate::encoding::problem_encoding::one_hot_encoding::rows_count;
use crate::common::common::load;
use crate::common::timeout::Timeout;
use crate::encoding::encoder::Clauses;
use crate::encoding::encoder::Encoder;
use crate::encoding::encoder::OneHotEncoder;
use crate::encoding::problem_encoding::one_hot_encoding::OneHot;
use crate::encoding::problem_encoding::one_hot_encoding::OneHotProblemEncoding;
use crate::encoding::problem_encoding::one_hot_encoding::allowed;
use crate::encoding::problem_encoding::one_hot_encoding::decoded;
use crate::encoding::problem_encoding::one_hot_encoding::lemma_position_var_range;
use crate::encoding::problem_encoding::one_hot_encoding::lemma_rows_count_bound;
use crate::encoding::problem_encoding::one_hot_encoding::one_hot_clauses;
use crate::encoding::problem_encoding::one_hot_encoding::position_var;
use crate::encoding::problem_encoding::one_hot_encoding::true_vars;
use crate::problem_instance::partial_solution::PartialSolution;
use crate::problem_instance::problem_instance::ProblemInstance;
use crate::problem_instance::solution::Solution;

verus! {

#[derive(Clone, Debug)]
pub struct PbNativeEncoder {
    one_hot: OneHotProblemEncoding,
    pub clauses: Clauses,
}

/// Job `j` is still open (it may go on more than one processor) and may go on `p`.
pub open spec fn open_on(partial_solution: &PartialSolution, j: int, p: int) -> bool {
    allowed(partial_solution.possible_allocations@, j, p) && partial_solution.possible_allocations@[j].len() > 1
}

/// The open jobs of processor `p` among the first `upto`, in order.
pub open spec fn open_jobs_on(partial_solution: &PartialSolution, p: int, upto: int) -> Seq<usize>
    decreases upto,
{
    if upto <= 0 {
        Seq::empty()
    } else {
        let prev = open_jobs_on(partial_solution, p, upto - 1);
        if open_on(partial_solution, upto - 1, p) {
            prev.push((upto - 1) as usize)
        } else {
            prev
        }
    }
}

/// The position variables of `jobs` on processor `p`.
pub open spec fn jobs_vars(pa: Seq<Vec<usize>>, m: int, jobs: Seq<usize>, p: int) -> Seq<usize> {
    Seq::new(jobs.len(), |t: int| (1 + rows_count(pa, m, jobs[t] as int) + row_count(pa, jobs[t] as int, p)) as usize)
}

/// The sizes of `jobs`.
pub open spec fn jobs_weights(sizes: Seq<usize>, jobs: Seq<usize>) -> Seq<usize> {
    Seq::new(jobs.len(), |t: int| sizes[jobs[t] as int])
}

/// The clauses of the diagrams of the processors below `p`, in order; a processor without
/// a diagram adds none.
pub open spec fn diagram_clauses(ds: Seq<Seq<Node>>, p: int) -> Seq<Seq<i32>>
    decreases p,
{
    if p <= 0 {
        Seq::empty()
    } else {
        diagram_clauses(ds, p - 1) + if ds[p - 1].len() == 0 {
            Seq::<Seq<i32>>::empty()
        } else {
            bdd_clauses(ds[p - 1])
        }
    }
}

/// The diagram of processor `p` bounds its open jobs by the room left: it is empty exactly
/// when `p` has no open job, and otherwise every walk from its root, starting from the load
/// already fixed on `p`, reaches the true node exactly when its sum stays within `makespan`.
pub open spec fn diagram_bounds(partial_solution: &PartialSolution, makespan: usize, d: Seq<Node>, p: int) -> bool {
    let pa = partial_solution.possible_allocations@;
    let m = partial_solution.instance.num_processors as int;
    let jobs = open_jobs_on(partial_solution, p, partial_solution.instance.num_jobs as int);
    let vs = jobs_vars(pa, m, jobs, p);
    let ws = jobs_weights(partial_solution.instance.job_sizes@, jobs);
    &&& (d.len() == 0 <==> jobs.len() == 0)
    &&& d.len() > 0 ==> accepts(d, vs, ws, vs.len() as int, makespan as int, d.len() - 1, partial_solution.assigned_makespan[p] as int)
}

proof fn lemma_diagram_clauses_prefix(ds: Seq<Seq<Node>>, e: Seq<Node>, p: int)
    requires
        p <= ds.len(),
    ensures
        diagram_clauses(ds.push(e), p) == diagram_clauses(ds, p),
    decreases p,
{
    if p > 0 {
        lemma_diagram_clauses_prefix(ds, e, p - 1);
        assert(ds.push(e)[p - 1] == ds[p - 1]);
    }
}

/// The inputs that the diagram encoding takes: on every processor, the load already fixed
/// is below the makespan, and the first open job fits on top of it; the variables fit in a
/// literal.
pub open spec fn pb_inputs(partial_solution: &PartialSolution, makespan: usize) -> bool {
    let n = partial_solution.instance.num_jobs as int;
    let m = partial_solution.instance.num_processors as int;
    &&& partial_solution.instance.wf()
    &&& partial_solution.possible_allocations.len() >= n
    &&& partial_solution.assigned_makespan.len() >= m
    &&& makespan < usize::MAX / 8
    &&& 1 + n * m + m * (3 + n * (makespan + 1)) <= i32::MAX
    &&& forall|p: int, j: int| 0 <= p < m && 0 <= j < n && #[trigger] open_on(partial_solution, j, p)
        && (forall|j2: int| 0 <= j2 < j ==> !open_on(partial_solution, j2, p)) ==> {
            &&& partial_solution.assigned_makespan[p] < makespan
            &&& partial_solution.assigned_makespan[p] + partial_solution.instance.job_sizes[j] <= makespan
        }
}

/// Whether two children of a node share their auxiliary variable only in a diagram of
/// three nodes.
pub fn children_distinct(bdd: &BDD) -> (r: bool)
    requires
        crate::bdd::bdd::well_shaped(bdd.nodes@),
    ensures
        r == forall|i: int| 2 <= i < bdd.nodes.len() ==>
            bdd.nodes@[#[trigger] bdd.nodes@[i].left_child as int].aux_var == bdd.nodes@[bdd.nodes@[i].right_child as int].aux_var ==> bdd.nodes.len() == 3,
{
    if bdd.nodes.len() == 3 {
        return true;
    }
    let mut i: usize = 2;
    while i < bdd.nodes.len()
        invariant
            crate::bdd::bdd::well_shaped(bdd.nodes@),
            bdd.nodes.len() != 3,
            2 <= i <= bdd.nodes.len(),
            forall|k: int| 2 <= k < i ==> bdd.nodes@[#[trigger] bdd.nodes@[k].left_child as int].aux_var != bdd.nodes@[bdd.nodes@[k].right_child as int].aux_var,
        decreases bdd.nodes.len() - i,
    {
        let l = bdd.nodes[i].left_child;
        let r = bdd.nodes[i].right_child;
        if bdd.nodes[l].aux_var == bdd.nodes[r].aux_var {
            return false;
        }
        i = i + 1;
    }
    true
}

impl PbNativeEncoder {
    pub fn new() -> (e: PbNativeEncoder)
        ensures
            e.pending().wf(),
            e.pending()@ == Seq::<Seq<i32>>::empty(),
    {
        PbNativeEncoder { one_hot: OneHotProblemEncoding::new(), clauses: Clauses::new() }
    }

    /// The one-hot part of the encoding.
    pub closed spec fn one_hot(&self) -> OneHotProblemEncoding {
        self.one_hot
    }

    /// The diagram clauses not yet handed out.
    pub closed spec fn pending(&self) -> Clauses {
        self.clauses
    }
}

impl Encoder for PbNativeEncoder {
    open spec fn encode_requires(&self, partial_solution: &PartialSolution, makespan: usize) -> bool {
        pb_inputs(partial_solution, makespan)
    }

    closed spec fn encoded(&self) -> bool {
        self.clauses.wf() && self.one_hot.clauses.wf()
    }

    closed spec fn decode_requires(&self, instance: &ProblemInstance, solution: &Vec<i32>) -> bool {
        let t = true_vars(solution@);
        let pv = self.one_hot.position_vars@;
        &&& self.one_hot.fits(instance)
        &&& instance.wf()
        &&& decoded(pv, t, pv.len() as int).len() == pv.len()
        &&& forall|p: int| 0 <= p < instance.num_processors ==> #[trigger] load(instance.job_sizes@, decoded(pv, t, pv.len() as int), p, instance.num_jobs as int) <= usize::MAX
    }

    /// On success the one-hot part is that of `partial_solution`, and the clauses are those
    /// of one diagram per processor with an open job, in processor order, each bounding the
    /// open jobs on it by the room left (`diagram_bounds`). It fails when
    /// the time runs out, when the clauses exceed `max_num_clauses`, or when a diagram has a
    /// root that does not depend on its variable.
    fn basic_encode(
        &mut self,
        partial_solution: &PartialSolution,
        makespan: usize,
        timeout: &Timeout,
        max_num_clauses: usize,
    ) -> (r: bool)
        ensures
            !r ==> final(self).pending() == old(self).pending(),
            r ==> {
                let pa = partial_solution.possible_allocations@;
                let n = partial_solution.instance.num_jobs as int;
                let m = partial_solution.instance.num_processors as int;
                &&& final(self).one_hot().position_vars.len() == n
                &&& forall|i: int, j: int| 0 <= i < n && 0 <= j < m ==> (#[trigger] final(self).one_hot().position_vars[i]@[j]) == position_var(pa, m, i, j)
                &&& final(self).one_hot().clauses@ == one_hot_clauses(pa, m, n)
                &&& final(self).pending().get_num_clauses_spec() <= max_num_clauses
                &&& exists|ds: Seq<Seq<Node>>| ds.len() == m && final(self).pending()@ == diagram_clauses(ds, m)
                    && forall|p: int| 0 <= p < m ==> #[trigger] diagram_bounds(partial_solution, makespan, ds[p], p)
            },
    {
        let ghost pa = partial_solution.possible_allocations@;
        let n = partial_solution.instance.num_jobs;
        let m = partial_solution.instance.num_processors;
        proof {
            assert(n * m <= n * m + m * (3 + n * (makespan + 1))) by (nonlinear_arith)
                requires
                    n >= 0,
                    m >= 0,
                    makespan >= 0,
            ;
        }
        self.one_hot.encode(partial_solution);
        proof {
            lemma_rows_count_bound(pa, m as int, n as int);
        }
        let mut clauses = Clauses::new();
        let ghost mut ds: Seq<Seq<Node>> = Seq::empty();
        let ghost sizes = partial_solution.instance.job_sizes@;
        let ghost per = 3 + n * (makespan + 1);
        let mut proc: usize = 0;
        while proc < m
            invariant
                self.clauses == old(self).clauses,
                pa == partial_solution.possible_allocations@,
                n == partial_solution.instance.num_jobs,
                m == partial_solution.instance.num_processors,
                pb_inputs(partial_solution, makespan),
                per == 3 + n * (makespan + 1),
                proc <= m,
                self.one_hot.position_vars.len() == n,
                forall|i: int, j: int| 0 <= i < n && 0 <= j < m ==> (#[trigger] self.one_hot.position_vars[i]@[j]) == position_var(pa, m as int, i, j),
                forall|i: int| 0 <= i < n ==> (#[trigger] self.one_hot.position_vars[i]).len() == m,
                self.one_hot.clauses@ == one_hot_clauses(pa, m as int, n as int),
                self.one_hot.clauses.wf(),
                1 <= self.one_hot.var_name_generator.spec_peek() <= 1 + n * m + proc * per,
                clauses.wf(),
                clauses.get_num_clauses_spec() <= max_num_clauses || clauses.get_num_clauses_spec() == 0,
                sizes == partial_solution.instance.job_sizes@,
                ds.len() == proc,
                clauses@ == diagram_clauses(ds, proc as int),
                forall|q: int| 0 <= q < proc ==> #[trigger] diagram_bounds(partial_solution, makespan, ds[q], q),
            decreases m - proc,
        {
            proof {
                assert(proc * per + per <= m * per) by (nonlinear_arith)
                    requires
                        proc < m,
                        per >= 0,
                ;
                assert((proc + 1) * per == proc * per + per) by (nonlinear_arith);
                assert(proc * per >= 0) by (nonlinear_arith)
                    requires
                        proc >= 0,
                        per >= 0,
                ;
            }
            let mut job_vars: Vec<usize> = Vec::new();
            let mut weights: Vec<usize> = Vec::new();
            let mut jobs: Vec<usize> = Vec::new();
            let mut job: usize = 0;
            while job < n
                invariant
                    self.clauses == old(self).clauses,
                    pa == partial_solution.possible_allocations@,
                    n == partial_solution.instance.num_jobs,
                    m == partial_solution.instance.num_processors,
                    pb_inputs(partial_solution, makespan),
                    proc < m,
                    job <= n,
                    self.one_hot.position_vars.len() == n,
                    forall|i: int, j: int| 0 <= i < n && 0 <= j < m ==> (#[trigger] self.one_hot.position_vars[i]@[j]) == position_var(pa, m as int, i, j),
                    forall|i: int| 0 <= i < n ==> (#[trigger] self.one_hot.position_vars[i]).len() == m,
                    jobs.len() == job_vars.len() && jobs.len() == weights.len(),
                    jobs.len() <= job,
                    forall|k: int| 0 <= k < job_vars.len() ==> 1 <= #[trigger] job_vars@[k] <= n * m,
                    jobs.len() == 0 <==> forall|j2: int| 0 <= j2 < job ==> !open_on(partial_solution, j2, proc as int),
                    jobs.len() > 0 ==> {
                        let j0 = jobs@[0] as int;
                        &&& 0 <= j0 < n
                        &&& open_on(partial_solution, j0, proc as int)
                        &&& forall|j2: int| 0 <= j2 < j0 ==> !open_on(partial_solution, j2, proc as int)
                        &&& weights@[0] == partial_solution.instance.job_sizes[j0]
                    },
                    sizes == partial_solution.instance.job_sizes@,
                    jobs@ == open_jobs_on(partial_solution, proc as int, job as int),
                    job_vars@ == jobs_vars(pa, m as int, jobs@, proc as int),
                    weights@ == jobs_weights(sizes, jobs@),
                    forall|t: int| 0 <= t < jobs.len() ==> #[trigger] jobs@[t] < job && open_on(partial_solution, jobs@[t] as int, proc as int),
                    forall|t1: int, t2: int| 0 <= t1 < t2 < jobs.len() ==> #[trigger] jobs@[t1] < #[trigger] jobs@[t2],
                decreases n - job,
            {
                proof {
                    assert(self.one_hot.position_vars[job as int]@[proc as int] == position_var(pa, m as int, job as int, proc as int));
                }
                match self.one_hot.position_vars[job][proc] {
                    Some(v) => {
                        proof {
                            assert(allowed(pa, job as int, proc as int));
                        }
                        if partial_solution.possible_allocations[job].len() > 1 {
                            proof {
                                lemma_position_var_range(pa, m as int, n as int, job as int, proc as int);
                                lemma_rows_count_bound(pa, m as int, n as int);
                            }
                            let ghost was_empty = jobs.len() == 0;
                            let ghost jobs0 = jobs@;
                            job_vars.push(v);
                            jobs.push(job);
                            weights.push(partial_solution.instance.job_sizes[job]);
                            proof {
                                assert(jobs@ == jobs0.push(job));
                                assert(job_vars@ =~= jobs_vars(pa, m as int, jobs@, proc as int));
                                assert(weights@ =~= jobs_weights(sizes, jobs@));
                                assert(open_on(partial_solution, job as int, proc as int));
                                if was_empty {
                                    assert(jobs@[0] == job);
                                }
                            }
                        } else {
                            proof {
                                assert(!open_on(partial_solution, job as int, proc as int));
                            }
                        }
                    },
                    None => {
                        proof {
                            assert(!allowed(pa, job as int, proc as int));
                            assert(!open_on(partial_solution, job as int, proc as int));
                        }
                    },
                }
                job = job + 1;
            }
            if jobs.len() == 0 {
                proof {
                    lemma_diagram_clauses_prefix(ds, Seq::<Node>::empty(), proc as int);
                    let ds0 = ds;
                    ds = ds.push(Seq::<Node>::empty());
                    assert(ds[proc as int].len() == 0);
                    assert(clauses@ =~= diagram_clauses(ds, proc + 1));
                    assert forall|q: int| 0 <= q < proc + 1 implies #[trigger] diagram_bounds(partial_solution, makespan, ds[q], q) by {
                        if q < proc {
                            assert(ds[q] == ds0[q]);
                        }
                    }
                }
                proc = proc + 1;
                continue;
            }
            proof {
                assert(var_weights_ok(job_vars@, weights@, job_vars.len() as int)) by {
                    assert forall|t1: int, t2: int| 0 <= t1 < job_vars.len() && 0 <= t2 < job_vars.len() && #[trigger] job_vars@[t1] == #[trigger] job_vars@[t2]
                        implies weights@[t1] == weights@[t2] by {
                        if t1 != t2 {
                            if t1 < t2 {
                                assert(jobs@[t1] < jobs@[t2]);
                            } else {
                                assert(jobs@[t2] < jobs@[t1]);
                            }
                            assert(open_on(partial_solution, jobs@[t1] as int, proc as int));
                            assert(open_on(partial_solution, jobs@[t2] as int, proc as int));
                            lemma_position_var_range(pa, m as int, n as int, jobs@[t1] as int, proc as int);
                            lemma_position_var_range(pa, m as int, n as int, jobs@[t2] as int, proc as int);
                            lemma_position_var_injective(pa, m as int, jobs@[t1] as int, proc as int, jobs@[t2] as int, proc as int);
                        }
                    }
                }
            }
            proof {
                let j0 = jobs@[0] as int;
                assert(open_on(partial_solution, j0, proc as int));
            }
            let diagram = leq(&jobs, &job_vars, &weights, makespan, false, partial_solution.assigned_makespan[proc], timeout);
            let diagram = match diagram {
                Some(b) => b,
                None => {
                    return false;
                },
            };
            proof {
                assert(n * (makespan + 1) >= job_vars.len() * (makespan + 1)) by (nonlinear_arith)
                    requires
                        n >= job_vars.len(),
                        makespan >= 0,
                ;
            }
            let ghost start = self.one_hot.var_name_generator.spec_peek();
            let ghost pre = diagram.nodes@;
            let bdd = assign_aux_vars(diagram, &mut self.one_hot.var_name_generator);
            proof {
                crate::bdd::bdd::lemma_unnamed_above_pub(pre, -1);
                assert forall|i: int| 0 <= i < bdd.nodes.len() implies valid_aux(#[trigger] bdd.nodes@[i].aux_var as int) by {
                    crate::bdd::bdd::lemma_unnamed_above_pub(pre, i);
                    assert(pre[i].aux_var == 0);
                }
            }
            if !children_distinct(&bdd) {
                return false;
            }
            proof {
                assert forall|i: int| 2 <= i < bdd.nodes.len() implies crate::encoding::encoder::valid_var(#[trigger] bdd.nodes@[i].var as int) by {
                    let k = choose|k: int| 0 <= k < job_vars.len() && job_vars@[k] == bdd.nodes@[i].var;
                }
            }
            let mut a: Clauses = encode(&bdd);
            let ghost cs0 = clauses@;
            clauses.add_many_clauses(&mut a);
            proof {
                let nodes = bdd.nodes@;
                assert(nodes.len() == pre.len());
                assert(same_up_to(pre, nodes, pre.len() - 1));
                lemma_accepts_same(pre, nodes, job_vars@, weights@, job_vars.len() as int, makespan as int, pre.len() - 1,
                    partial_solution.assigned_makespan[proc as int] as int);
                assert(jobs@ == open_jobs_on(partial_solution, proc as int, n as int));
                lemma_diagram_clauses_prefix(ds, nodes, proc as int);
                let ds0 = ds;
                ds = ds.push(nodes);
                assert(clauses@ =~= diagram_clauses(ds, proc + 1));
                assert forall|q: int| 0 <= q < proc + 1 implies #[trigger] diagram_bounds(partial_solution, makespan, ds[q], q) by {
                    if q < proc {
                        assert(ds[q] == ds0[q]);
                    }
                }
            }
            if timeout.time_finished() {
                return false;
            }
            if clauses.get_num_clauses() > max_num_clauses {
                return false;
            }
            proc = proc + 1;
        }
        self.clauses = clauses;
        true
    }

    /// The diagram clauses followed by the one-hot clauses; the encoder keeps none of them.
    fn output(&mut self) -> (out: Clauses)
        ensures
            out.wf(),
            out@ == old(self).pending()@ + old(self).one_hot().clauses@,
    {
        let mut out = Clauses::new();
        std::mem::swap(&mut out, &mut self.clauses);
        out.add_many_clauses(&mut self.one_hot.clauses);
        out
    }

    fn decode(&self, instance: &ProblemInstance, var_assignment: &Vec<i32>) -> (s: Solution)
        ensures
            s.assignment@ == decoded(self.one_hot().position_vars@, true_vars(var_assignment@), self.one_hot().position_vars.len() as int),
    {
        self.one_hot.decode(instance, var_assignment)
    }

    fn get_num_vars(&self) -> (n: usize)
        ensures
            n == self.one_hot().var_name_generator.spec_peek(),
    {
        self.one_hot.var_name_generator.peek()
    }
}

/// An auxiliary variable fits in a literal.
pub open spec fn valid_aux(v: int) -> bool {
    1 <= v <= i32::MAX
}

impl OneHot for PbNativeEncoder {
    closed spec fn has_position(&self, job_num: usize, proc_num: usize) -> bool {
        self.one_hot.has_position(job_num, proc_num)
    }

    fn get_position_var(&self, job_num: usize, proc_num: usize) -> (r: Option<usize>)
        ensures
            r == self.one_hot().position_vars[job_num as int]@[proc_num as int],
    {
        self.one_hot.get_position_var(job_num, proc_num)
    }
}

impl OneHotEncoder for PbNativeEncoder {}

} // verus!
