//! The decision-diagram encoding with interchangeability: one diagram per processor over a
//! shared range table, and optionally the rules that two processors at an equivalent load
//! take a job in order, and that a job which exactly fills a processor is not put on a
//! later one.
use vstd::prelude::*;
use crate::bdd::bdd::job_listed;
use crate::bdd::bdd_dyn::DynBDD;
use crate::bdd::bdd_dyn::DynNode;
use crate::bdd::bdd_dyn::RangeTable;
use crate::bdd::bdd_dyn::dyn_encodable;
use crate::bdd::bdd_dyn::job_runs;
use crate::bdd::bdd_dyn::lemma_fur_pairs;
use crate::bdd::bdd_dyn::lemma_job_runs;
use crate::bdd::bdd_dyn::plain_nodes;
use crate::bdd::bdd_dyn::position_map;
use crate::bdd::bdd_dyn::range_of;
use crate::bdd::bdd_dyn::table_covers;
use crate::bdd::bdd_dyn::lemma_table_from;
use crate::common::timeout::Timeout;
use crate::encoding::encoder::Clause;
use crate::encoding::encoder::Clauses;
use crate::encoding::encoder::Encoder;
use crate::encoding::encoder::OneHotEncoder;
use crate::encoding::encoder::valid_var;
use crate::encoding::encoder::starts_with;
use crate::encoding::pb_bdd_native::open_on;
use crate::encoding::pb_bdd_native::open_jobs_on;
use crate::encoding::pb_bdd_native::jobs_vars;
use crate::encoding::pb_bdd_native::jobs_weights;
use crate::bdd::bdd::accepts;
use crate::bdd::bdd::lemma_accepts_same;
use crate::bdd::bdd::same_up_to;
use crate::bdd::bdd::var_weights_ok;
use crate::bdd::bdd_dyn::dyn_clauses;
use crate::encoding::problem_encoding::one_hot_encoding::lemma_position_var_injective;
use crate::encoding::problem_encoding::one_hot_encoding::OneHot;
use crate::encoding::problem_encoding::one_hot_encoding::OneHotProblemEncoding;
use crate::encoding::problem_encoding::one_hot_encoding::decoded;
use crate::encoding::problem_encoding::one_hot_encoding::lemma_position_var_range;
use crate::encoding::problem_encoding::one_hot_encoding::lemma_rows_count_bound;
use crate::encoding::problem_encoding::one_hot_encoding::one_hot_clauses;
use crate::encoding::problem_encoding::one_hot_encoding::position_var;
use crate::encoding::problem_encoding::one_hot_encoding::true_vars;
use crate::encoding::sat_encoding::binary_arithmetic::lit_neg;
use crate::encoding::sat_encoding::binmerge_native::positions_of;
use crate::encoding::sat_encoding::binmerge_native::room_for;
use crate::problem_instance::partial_solution::PartialSolution;
use crate::problem_instance::problem_instance::ProblemInstance;
use crate::problem_instance::solution::Solution;

verus! {

/// The inputs of the encoding: some job is still open, the open jobs fit within the
/// makespan, on every processor the load already fixed is below the makespan with room
/// for the first open job, and the table and the one-hot variables have room.
pub open spec fn inter_comp_inputs(ps: &PartialSolution, makespan: usize) -> bool {
    let pa = ps.possible_allocations@;
    let sizes = ps.instance.job_sizes@;
    let n = ps.instance.num_jobs as int;
    let m = ps.instance.num_processors as int;
    &&& ps.instance.wf()
    &&& pa.len() >= n
    &&& ps.assigned_makespan.len() >= m
    &&& makespan < usize::MAX / 8
    &&& 1 + n * m <= i32::MAX
    &&& n * (makespan + 1) + 2 < usize::MAX
    &&& exists|j: int| 0 <= j < n && #[trigger] pa[j]@.len() > 1
    &&& forall|j: int| 0 <= j < n && #[trigger] pa[j]@.len() > 1 ==> sizes[j] <= makespan
    &&& forall|p: int, j: int| 0 <= p < m && 0 <= j < n && #[trigger] open_on(ps, j, p) && (forall|j2: int|
        0 <= j2 < j ==> !open_on(ps, j2, p)) ==> {
        &&& ps.assigned_makespan@[p] < makespan
        &&& ps.assigned_makespan@[p] + sizes[j] <= makespan
    }
}

/// The jobs among `0..k` that are still open, in order.
pub open spec fn open_jobs(pa: Seq<Vec<usize>>, k: int) -> Seq<usize>
    decreases k,
{
    if k <= 0 {
        Seq::empty()
    } else if pa[k - 1]@.len() > 1 {
        open_jobs(pa, k - 1).push((k - 1) as usize)
    } else {
        open_jobs(pa, k - 1)
    }
}

/// A diagram kept for the rules: empty, or encodable with every node of a job numbered
/// with a range of the table and of an open job that fits.
pub open spec fn kept_diagram(nodes: Seq<DynNode>, t: RangeTable, sizes: Seq<usize>, n: int, mk: int) -> bool {
    nodes.len() == 0 || {
        &&& dyn_encodable(nodes)
        &&& forall|q: int| 0 <= q < nodes.len() && (#[trigger] nodes[q]).job_num != usize::MAX ==> {
            &&& nodes[q].range_num < t.bounds().len()
            &&& nodes[q].job_num < n
            &&& sizes[nodes[q].job_num as int] <= mk
        }
    }
}

proof fn lemma_open_jobs(pa: Seq<Vec<usize>>, k: int)
    requires
        0 <= k <= usize::MAX,
    ensures
        forall|t: int| 0 <= t < open_jobs(pa, k).len() ==> (#[trigger] open_jobs(pa, k)[t]) < k && pa[open_jobs(pa, k)[t] as int]@.len() > 1,
        forall|j: int| 0 <= j < k && pa[j]@.len() > 1 ==> open_jobs(pa, k).contains(j as usize),
        forall|a: int, b: int| 0 <= a < b < open_jobs(pa, k).len() ==> #[trigger] open_jobs(pa, k)[a] < #[trigger] open_jobs(pa, k)[b],
        open_jobs(pa, k).len() <= k,
    decreases k,
{
    if k > 0 {
        lemma_open_jobs(pa, k - 1);
        let prev = open_jobs(pa, k - 1);
        if pa[k - 1]@.len() > 1 {
            let cur = prev.push((k - 1) as usize);
            assert forall|t: int| 0 <= t < cur.len() implies (#[trigger] cur[t]) < k && pa[cur[t] as int]@.len() > 1 by {
                if t < prev.len() {
                    assert(cur[t] == prev[t]);
                }
            }
            assert forall|a: int, b: int| 0 <= a < b < cur.len() implies #[trigger] cur[a] < #[trigger] cur[b] by {
                assert(cur[a] == prev[a]);
                if b < prev.len() {
                    assert(cur[b] == prev[b]);
                }
            }
            assert forall|j: int| 0 <= j < k && pa[j]@.len() > 1 implies cur.contains(j as usize) by {
                if j < k - 1 {
                    let t = choose|t: int| 0 <= t < prev.len() && prev[t] == j as usize;
                    assert(cur[t] == prev[t]);
                } else {
                    assert(cur[prev.len() as int] == (k - 1) as usize);
                }
            }
        }
    }
}

/// The position of a job in a list of distinct jobs is where it stands.
proof fn lemma_position_map(jobs: Seq<usize>, k: int)
    requires
        0 <= k <= jobs.len(),
        k <= usize::MAX,
        forall|a: int, b: int| 0 <= a < b < jobs.len() ==> jobs[a] != jobs[b],
    ensures
        forall|t: int| 0 <= t < k ==> position_map(jobs, k).contains_key(#[trigger] jobs[t]) && position_map(jobs, k)[jobs[t]] == t,
    decreases k,
{
    if k > 0 {
        lemma_position_map(jobs, k - 1);
        assert forall|t: int| 0 <= t < k implies position_map(jobs, k).contains_key(#[trigger] jobs[t]) && position_map(jobs, k)[jobs[t]] == t by {
            if t < k - 1 {
                assert(jobs[t] != jobs[k - 1]);
            }
        }
    }
}

/// The clauses of the diagrams of the processors below `p`, in order; a processor without
/// a diagram adds none.
pub open spec fn kept_clauses(ds: Seq<Seq<DynNode>>, p: int) -> Seq<Seq<i32>>
    decreases p,
{
    if p <= 0 {
        Seq::empty()
    } else {
        kept_clauses(ds, p - 1) + if ds[p - 1].len() == 0 {
            Seq::<Seq<i32>>::empty()
        } else {
            dyn_clauses(ds[p - 1])
        }
    }
}

/// The diagram of processor `p` bounds its open jobs by the room left: it is empty exactly
/// when `p` has no open job, and otherwise every walk from its root, starting from the load
/// already fixed on `p`, reaches the true node exactly when its sum stays within `makespan`.
pub open spec fn kept_bounds(partial_solution: &PartialSolution, makespan: usize, d: Seq<DynNode>, p: int) -> bool {
    let pa = partial_solution.possible_allocations@;
    let m = partial_solution.instance.num_processors as int;
    let jobs = open_jobs_on(partial_solution, p, partial_solution.instance.num_jobs as int);
    let vs = jobs_vars(pa, m, jobs, p);
    let ws = jobs_weights(partial_solution.instance.job_sizes@, jobs);
    &&& (d.len() == 0 <==> jobs.len() == 0)
    &&& d.len() > 0 ==> accepts(plain_nodes(d), vs, ws, vs.len() as int, makespan as int, d.len() - 1,
        partial_solution.assigned_makespan[p] as int)
}

proof fn lemma_kept_clauses_prefix(ds: Seq<Seq<DynNode>>, e: Seq<DynNode>, p: int)
    requires
        p <= ds.len(),
    ensures
        kept_clauses(ds.push(e), p) == kept_clauses(ds, p),
    decreases p,
{
    if p > 0 {
        lemma_kept_clauses_prefix(ds, e, p - 1);
        assert(ds.push(e)[p - 1] == ds[p - 1]);
    }
}

#[derive(Clone)]
pub struct BddInterComp {
    one_hot: OneHotProblemEncoding,
    pub clauses: Clauses,
    fur_rule: bool,
    inter_rule: bool,
}

impl BddInterComp {
    /// Both rules.
    pub fn new() -> (e: BddInterComp)
        ensures
            e.pending().wf(),
            e.rules() == (true, true),
    {
        BddInterComp { one_hot: OneHotProblemEncoding::new(), clauses: Clauses::new(), fur_rule: true, inter_rule: true }
    }

    /// Only the rule on processors at an equivalent load.
    pub fn new_inter_only() -> (e: BddInterComp)
        ensures
            e.pending().wf(),
            e.rules() == (false, true),
    {
        BddInterComp { one_hot: OneHotProblemEncoding::new(), clauses: Clauses::new(), fur_rule: false, inter_rule: true }
    }

    /// Neither rule: the diagrams alone.
    pub fn new_basic() -> (e: BddInterComp)
        ensures
            e.pending().wf(),
            e.rules() == (false, false),
    {
        BddInterComp { one_hot: OneHotProblemEncoding::new(), clauses: Clauses::new(), fur_rule: false, inter_rule: false }
    }

    /// Whether the fill-up rule and the interchangeability rule are encoded.
    pub closed spec fn rules(&self) -> (bool, bool) {
        (self.fur_rule, self.inter_rule)
    }

    /// The one-hot part of the encoding.
    pub closed spec fn one_hot(&self) -> OneHotProblemEncoding {
        self.one_hot
    }

    /// The diagram and rule clauses not yet handed out.
    pub closed spec fn pending(&self) -> Clauses {
        self.clauses
    }
}

impl Encoder for BddInterComp {
    open spec fn encode_requires(&self, partial_solution: &PartialSolution, makespan: usize) -> bool {
        &&& inter_comp_inputs(partial_solution, makespan)
        &&& self.rules().0 ==> partial_solution.instance.num_processors >= 1
    }

    closed spec fn encoded(&self) -> bool {
        self.clauses.wf() && self.one_hot.clauses.wf()
    }

    closed spec fn decode_requires(&self, instance: &ProblemInstance, solution: &Vec<i32>) -> bool {
        let t = true_vars(solution@);
        let pv = self.one_hot.position_vars@;
        &&& self.one_hot.fits(instance)
        &&& instance.wf()
        &&& decoded(pv, t, pv.len() as int).len() == pv.len()
        &&& forall|p: int| 0 <= p < instance.num_processors ==> #[trigger] crate::common::common::load(
            instance.job_sizes@,
            decoded(pv, t, pv.len() as int),
            p,
            instance.num_jobs as int,
        ) <= usize::MAX
    }

    /// On success the one-hot part is that of `partial_solution`, and the clauses begin with
    /// those of one diagram per processor with an open job, in processor order, each bounding
    /// the open jobs on it by the room left (`kept_bounds`); the clauses between diagrams and
    /// of the fill-up rule follow. It fails when the time runs out, when the clauses exceed `max_num_clauses`
    /// after a step, or when the variables of a diagram would not fit in a literal; as the
    /// clauses only grow, a success leaves at most `max_num_clauses` of them.
    #[verifier::rlimit(100)]
    #[verifier::spinoff_prover]
    fn basic_encode(
        &mut self,
        partial_solution: &PartialSolution,
        makespan: usize,
        timeout: &Timeout,
        max_num_clauses: usize,
    ) -> (r: bool)
        ensures
            r ==> {
                let pa = partial_solution.possible_allocations@;
                let n = partial_solution.instance.num_jobs as int;
                let m = partial_solution.instance.num_processors as int;
                &&& positions_of(final(self).one_hot().position_vars@, partial_solution)
                &&& final(self).one_hot().clauses@ == one_hot_clauses(pa, m, n)
                &&& final(self).pending().wf()
                &&& final(self).pending()@.len() <= max_num_clauses
                &&& exists|ds: Seq<Seq<DynNode>>| ds.len() == m && starts_with(final(self).pending()@, kept_clauses(ds, m))
                    && forall|p: int| 0 <= p < m ==> #[trigger] kept_bounds(partial_solution, makespan, ds[p], p)
            },
            !r ==> final(self).pending() == old(self).pending(),
    {
        let ghost pa = partial_solution.possible_allocations@;
        let ghost sizes = partial_solution.instance.job_sizes@;
        let n = partial_solution.instance.num_jobs;
        let m = partial_solution.instance.num_processors;
        let fur_rule = self.fur_rule;
        let inter_rule = self.inter_rule;
        assert(fur_rule ==> m >= 1);
        self.one_hot.encode(partial_solution);
        proof {
            lemma_rows_count_bound(pa, m as int, n as int);
        }
        let mut clauses: Clauses = Clauses::new();
        let mut bdds: Vec<DynBDD> = Vec::new();
        let mut undesignated_jobs: Vec<usize> = Vec::new();
        let mut job_sizes: Vec<usize> = Vec::new();
        let mut j: usize = 0;
        while j < n
            invariant
                self.clauses == old(self).clauses,
                pa == partial_solution.possible_allocations@,
                sizes == partial_solution.instance.job_sizes@,
                n == partial_solution.instance.num_jobs,
                inter_comp_inputs(partial_solution, makespan),
                j <= n,
                undesignated_jobs@ == open_jobs(pa, j as int),
                job_sizes.len() == undesignated_jobs.len(),
                forall|t: int| 0 <= t < job_sizes.len() ==> #[trigger] job_sizes@[t] == sizes[undesignated_jobs@[t] as int],
            decreases n - j,
        {
            if partial_solution.possible_allocations[j].len() > 1 {
                undesignated_jobs.push(j);
                job_sizes.push(partial_solution.instance.job_sizes[j]);
            }
            j = j + 1;
        }
        proof {
            lemma_open_jobs(pa, n as int);
            let j0 = choose|j0: int| 0 <= j0 < n && #[trigger] pa[j0]@.len() > 1;
            assert(undesignated_jobs@.contains(j0 as usize));
            assert forall|t: int| 0 <= t < job_sizes.len() implies #[trigger] job_sizes@[t] <= makespan by {
                assert(pa[undesignated_jobs@[t] as int]@.len() > 1);
            }
            assert(job_sizes.len() * (makespan + 1) <= n * (makespan + 1)) by (nonlinear_arith)
                requires
                    job_sizes.len() <= n,
            ;
            lemma_position_map(undesignated_jobs@, undesignated_jobs.len() as int);
        }
        let range_table = RangeTable::new(&undesignated_jobs, &job_sizes, makespan);
        let ghost und = undesignated_jobs@;
        let ghost mk = makespan as int;
        proof {
            lemma_table_from(job_sizes@, mk, 0);
        }
        let ghost mut ds: Seq<Seq<DynNode>> = Seq::empty();
        let mut proc: usize = 0;
        while proc < m
            invariant
                clauses@.len() <= max_num_clauses,
                ds.len() == proc,
                clauses@ == kept_clauses(ds, proc as int),
                forall|q: int| 0 <= q < proc ==> #[trigger] kept_bounds(partial_solution, makespan, ds[q], q),
                self.clauses == old(self).clauses,
                pa == partial_solution.possible_allocations@,
                sizes == partial_solution.instance.job_sizes@,
                n == partial_solution.instance.num_jobs,
                m == partial_solution.instance.num_processors,
                mk == makespan,
                inter_comp_inputs(partial_solution, makespan),
                positions_of(self.one_hot.position_vars@, partial_solution),
                self.one_hot.clauses@ == one_hot_clauses(pa, m as int, n as int),
                self.one_hot.clauses.wf(),
                1 <= self.one_hot.var_name_generator.spec_peek() <= i32::MAX + 1,
                clauses.wf(),
                und == open_jobs(pa, n as int),
                forall|j2: int| 0 <= j2 < n && pa[j2]@.len() > 1 ==> und.contains(j2 as usize),
                forall|t: int| 0 <= t < und.len() ==> range_table.positions().contains_key(#[trigger] und[t]) && range_table.positions()[und[t]] == t,
                range_table.rows().len() == und.len(),
                forall|k: int| 0 <= k < range_table.rows().len() ==> (#[trigger] range_table.rows()[k]).len() == mk + 1,
                range_table.wf(),
                range_table.table_makespan() == makespan,
                proc <= m,
                bdds.len() == proc,
                forall|k: int| 0 <= k < proc ==> kept_diagram((#[trigger] bdds@[k]).nodes@, range_table, sizes, n as int, mk),
            decreases m - proc,
        {
            let mut job_vars: Vec<usize> = Vec::new();
            let mut weights: Vec<usize> = Vec::new();
            let mut jobs: Vec<usize> = Vec::new();
            let mut job: usize = 0;
            while job < n
                invariant
                    self.clauses == old(self).clauses,
                    pa == partial_solution.possible_allocations@,
                    sizes == partial_solution.instance.job_sizes@,
                    n == partial_solution.instance.num_jobs,
                    m == partial_solution.instance.num_processors,
                    inter_comp_inputs(partial_solution, makespan),
                    positions_of(self.one_hot.position_vars@, partial_solution),
                    proc < m,
                    job <= n,
                    jobs.len() == job_vars.len() && jobs.len() == weights.len(),
                    forall|k: int| 0 <= k < jobs.len() ==> (#[trigger] jobs@[k]) < n && open_on(partial_solution, jobs@[k] as int, proc as int),
                    forall|k: int| 0 <= k < jobs.len() ==> valid_var(#[trigger] job_vars@[k] as int),
                    forall|k: int| 0 <= k < jobs.len() ==> #[trigger] weights@[k] == sizes[jobs@[k] as int],
                    jobs.len() == 0 <==> forall|j2: int| 0 <= j2 < job ==> !open_on(partial_solution, j2, proc as int),
                    jobs.len() > 0 ==> forall|j2: int| 0 <= j2 < jobs@[0] ==> !open_on(partial_solution, j2, proc as int),
                    jobs@ == open_jobs_on(partial_solution, proc as int, job as int),
                    job_vars@ == jobs_vars(pa, m as int, jobs@, proc as int),
                    weights@ == jobs_weights(sizes, jobs@),
                    forall|t: int| 0 <= t < jobs.len() ==> #[trigger] jobs@[t] < job,
                    forall|t1: int, t2: int| 0 <= t1 < t2 < jobs.len() ==> #[trigger] jobs@[t1] < #[trigger] jobs@[t2],
                decreases n - job,
            {
                proof {
                    assert(self.one_hot.position_vars@[job as int]@[proc as int] == position_var(pa, m as int, job as int, proc as int));
                }
                match self.one_hot.position_vars[job][proc] {
                    Some(v) => {
                        if partial_solution.possible_allocations[job].len() > 1 {
                            proof {
                                lemma_position_var_range(pa, m as int, n as int, job as int, proc as int);
                                assert(open_on(partial_solution, job as int, proc as int));
                            }
                            let ghost was_empty = jobs.len() == 0;
                            let ghost jobs0 = jobs@;
                            job_vars.push(v);
                            jobs.push(job);
                            weights.push(partial_solution.instance.job_sizes[job]);
                            proof {
                                assert(jobs@ == jobs0.push(job));
                                assert(job_vars@ =~= jobs_vars(pa, m as int, jobs@, proc as int));
                                assert(weights@ =~= jobs_weights(sizes, jobs@));
                            }
                        } else {
                            proof {
                                assert(!open_on(partial_solution, job as int, proc as int));
                            }
                        }
                    },
                    None => {
                        proof {
                            assert(!open_on(partial_solution, job as int, proc as int));
                        }
                    },
                }
                job = job + 1;
            }
            if jobs.len() == 0 {
                bdds.push(DynBDD { nodes: Vec::new() });
                proof {
                    lemma_kept_clauses_prefix(ds, Seq::<DynNode>::empty(), proc as int);
                    let ds0 = ds;
                    ds = ds.push(Seq::<DynNode>::empty());
                    assert(ds[proc as int].len() == 0);
                    assert(clauses@ =~= kept_clauses(ds, proc + 1));
                    assert forall|q: int| 0 <= q < proc + 1 implies #[trigger] kept_bounds(partial_solution, makespan, ds[q], q) by {
                        if q < proc {
                            assert(ds[q] == ds0[q]);
                        }
                    }
                }
            } else {
                proof {
                    assert(var_weights_ok(job_vars@, weights@, job_vars.len() as int)) by {
                        assert forall|t1: int, t2: int| 0 <= t1 < job_vars.len() && 0 <= t2 < job_vars.len() && #[trigger] job_vars@[t1] == #[trigger] job_vars@[t2]
                            implies weights@[t1] == weights@[t2] by {
                            if t1 != t2 {
                                if t1 < t2 {
                                    assert(jobs@[t1] < jobs@[t2]);
                                } else {
                                    assert(jobs@[t2] < jobs@[t1]);
                                }
                                assert(open_on(partial_solution, jobs@[t1] as int, proc as int));
                                assert(open_on(partial_solution, jobs@[t2] as int, proc as int));
                                lemma_position_var_range(pa, m as int, n as int, jobs@[t1] as int, proc as int);
                                lemma_position_var_range(pa, m as int, n as int, jobs@[t2] as int, proc as int);
                                lemma_position_var_injective(pa, m as int, jobs@[t1] as int, proc as int, jobs@[t2] as int, proc as int);
                            }
                        }
                    }
                }
                proof {
                    let j0 = jobs@[0] as int;
                    assert(open_on(partial_solution, j0, proc as int));
                    assert forall|k: int| 0 <= k < jobs.len() implies {
                        &&& range_table.positions().contains_key(#[trigger] jobs@[k])
                        &&& range_table.positions()[jobs@[k]] < range_table.rows().len()
                        &&& range_table.rows()[range_table.positions()[jobs@[k]] as int].len() > mk
                    } by {
                        let jk = jobs@[k] as int;
                        assert(pa[jk]@.len() > 1);
                        assert(und.contains(jk as usize));
                        let t = choose|t: int| 0 <= t < und.len() && und[t] == jk as usize;
                        assert(range_table.positions()[und[t]] == t);
                    }
                    assert(table_covers(range_table, jobs@, job_vars.len() as int, mk));
                }
                let bdd = DynBDD::leq(
                    &jobs,
                    &job_vars,
                    &weights,
                    makespan,
                    false,
                    partial_solution.assigned_makespan[proc],
                    &range_table,
                    timeout,
                );
                let mut bdd = match bdd {
                    Some(b) => b,
                    None => {
                        return false;
                    },
                };
                if !room_for(self.one_hot.var_name_generator.peek(), bdd.nodes.len() as u64) {
                    return false;
                }
                let ghost before = bdd.nodes@;
                let ghost start = self.one_hot.var_name_generator.spec_peek();
                bdd.assign_aux_vars(&mut self.one_hot.var_name_generator);
                proof {
                    let after = bdd.nodes@;
                    let pb = plain_nodes(before);
                    let pa2 = plain_nodes(after);
                    crate::bdd::bdd::lemma_unnamed_above_pub(pb, -1);
                    assert forall|i: int| 0 <= i < after.len() implies valid_var(#[trigger] after[i].aux_var as int) by {
                        crate::bdd::bdd::lemma_unnamed_above_pub(pb, i);
                        assert(before[i].aux_var == 0);
                    }
                    assert forall|i: int| 2 <= i < after.len() implies valid_var(#[trigger] after[i].var as int) by {
                        assert(job_vars@.contains(before[i].var));
                        let k = choose|k: int| 0 <= k < job_vars.len() && job_vars@[k] == before[i].var;
                    }
                    assert forall|i: int| 2 <= i < pa2.len() implies #[trigger] pa2[i].left_child < i && pa2[i].right_child < i by {
                        assert(pb[i].left_child < i && pb[i].right_child < i);
                    }
                    assert(pa2[0] == crate::bdd::bdd_dyn::plain(after[0]) && pb[0] == crate::bdd::bdd_dyn::plain(before[0]));
                    assert(pa2[1] == crate::bdd::bdd_dyn::plain(after[1]) && pb[1] == crate::bdd::bdd_dyn::plain(before[1]));
                    assert(dyn_encodable(after));
                    assert forall|q: int| 0 <= q < after.len() && (#[trigger] after[q]).job_num != usize::MAX implies {
                        &&& after[q].range_num < range_table.bounds().len()
                        &&& after[q].job_num < n
                        &&& sizes[after[q].job_num as int] <= mk
                    } by {
                        assert(q >= 2);
                        assert(job_listed(jobs@, job_vars.len() as int, before[q].job_num));
                        let t = choose|t: int| 0 <= t < job_vars.len() && jobs@[t] == before[q].job_num;
                        let jt = jobs@[t];
                        assert(pa[jt as int]@.len() > 1);
                        assert(und.contains(jt));
                        let u = choose|u: int| 0 <= u < und.len() && und[u] == jt;
                        assert(range_table.positions()[und[u]] == u);
                        assert(before[q].range.0 <= makespan);
                        assert(before[q].range_num == range_of(range_table, jt, before[q].range.0));
                        assert(range_table.rows()[u][before[q].range.0 as int] < range_table.bounds().len());
                    }
                }
                let mut a = bdd.encode();
                clauses.add_many_clauses(&mut a);
                proof {
                    let after = bdd.nodes@;
                    assert(same_up_to(plain_nodes(before), plain_nodes(after), before.len() - 1));
                    lemma_accepts_same(plain_nodes(before), plain_nodes(after), job_vars@, weights@, job_vars.len() as int, makespan as int,
                        before.len() - 1, partial_solution.assigned_makespan[proc as int] as int);
                    assert(jobs@ == open_jobs_on(partial_solution, proc as int, n as int));
                    lemma_kept_clauses_prefix(ds, after, proc as int);
                    let ds0 = ds;
                    ds = ds.push(after);
                    assert(clauses@ =~= kept_clauses(ds, proc + 1));
                    assert forall|q: int| 0 <= q < proc + 1 implies #[trigger] kept_bounds(partial_solution, makespan, ds[q], q) by {
                        if q < proc {
                            assert(ds[q] == ds0[q]);
                        }
                    }
                }
                bdds.push(bdd);
            }
            proof {
                assert forall|k: int| 0 <= k < proc + 1 implies kept_diagram((#[trigger] bdds@[k]).nodes@, range_table, sizes, n as int, mk) by {
                }
            }
            if timeout.time_finished() || clauses.get_num_clauses() > max_num_clauses {
                return false;
            }
            proc = proc + 1;
        }
        let ghost diag = clauses@;
        if inter_rule {
            let mut i: usize = 0;
            while i < m
                invariant
                    clauses@.len() <= max_num_clauses,
                    self.clauses == old(self).clauses,
                    m == partial_solution.instance.num_processors,
                    bdds.len() == m,
                    forall|k: int| 0 <= k < m ==> kept_diagram((#[trigger] bdds@[k]).nodes@, range_table, sizes, n as int, mk),
                    clauses.wf(),
                    starts_with(clauses@, diag),
                    i <= m,
                decreases m - i,
            {
                let mut j: usize = i + 1;
                while j < m
                    invariant
                        self.clauses == old(self).clauses,
                        m == partial_solution.instance.num_processors,
                        bdds.len() == m,
                        forall|k: int| 0 <= k < m ==> kept_diagram((#[trigger] bdds@[k]).nodes@, range_table, sizes, n as int, mk),
                        clauses.wf(),
                        starts_with(clauses@, diag),
                        i < m,
                        i + 1 <= j <= m,
                    decreases m - j,
                {
                    if !(bdds[j].nodes.len() == 0 || bdds[i].nodes.len() == 0) {
                        proof {
                            assert(kept_diagram(bdds@[i as int].nodes@, range_table, sizes, n as int, mk));
                            assert(kept_diagram(bdds@[j as int].nodes@, range_table, sizes, n as int, mk));
                        }
                        let mut c = bdds[i].encode_bdd_bijective_relation(&bdds[j]);
                        clauses.add_many_clauses(&mut c);
                    }
                    j = j + 1;
                }
                if timeout.time_finished() || clauses.get_num_clauses() > max_num_clauses {
                    return false;
                }
                i = i + 1;
            }
        }
        if fur_rule {
            let mut i: usize = 0;
            while i < m - 1
                invariant
                    clauses@.len() <= max_num_clauses,
                    self.clauses == old(self).clauses,
                    pa == partial_solution.possible_allocations@,
                    sizes == partial_solution.instance.job_sizes@,
                    n == partial_solution.instance.num_jobs,
                    m == partial_solution.instance.num_processors,
                    m >= 1,
                    mk == makespan,
                    inter_comp_inputs(partial_solution, makespan),
                    positions_of(self.one_hot.position_vars@, partial_solution),
                    self.one_hot.clauses@ == one_hot_clauses(pa, m as int, n as int),
                    self.one_hot.clauses.wf(),
                    range_table.table_makespan() == makespan,
                    bdds.len() == m,
                    forall|k: int| 0 <= k < m ==> kept_diagram((#[trigger] bdds@[k]).nodes@, range_table, sizes, n as int, mk),
                    clauses.wf(),
                    starts_with(clauses@, diag),
                    i <= m - 1,
                decreases m - 1 - i,
            {
                if bdds[i].nodes.len() != 0 {
                    let ghost nodes = bdds@[i as int].nodes@;
                    proof {
                        assert(kept_diagram(nodes, range_table, sizes, n as int, mk));
                    }
                    let fur_vars = bdds[i].get_fur_vars(&range_table, partial_solution);
                    proof {
                        let runs = job_runs(nodes, nodes.len() as int);
                        lemma_fur_pairs(nodes, range_table.bounds(), sizes, mk, runs, 0);
                        lemma_job_runs(nodes, nodes.len() as int);
                    }
                    let mut t: usize = 0;
                    while t < fur_vars.len()
                        invariant
                            self.clauses == old(self).clauses,
                            pa == partial_solution.possible_allocations@,
                            n == partial_solution.instance.num_jobs,
                            m == partial_solution.instance.num_processors,
                            inter_comp_inputs(partial_solution, makespan),
                            positions_of(self.one_hot.position_vars@, partial_solution),
                            i < m - 1,
                            forall|t2: int| 0 <= t2 < fur_vars.len() ==> (#[trigger] fur_vars@[t2]).0 < n && valid_var(fur_vars@[t2].1 as int),
                            clauses.wf(),
                            starts_with(clauses@, diag),
                            t <= fur_vars.len(),
                        decreases fur_vars.len() - t,
                    {
                        let (job_num, fur_var) = fur_vars[t];
                        let mut j: usize = i + 1;
                        while j < m
                            invariant
                                self.clauses == old(self).clauses,
                                pa == partial_solution.possible_allocations@,
                                n == partial_solution.instance.num_jobs,
                                m == partial_solution.instance.num_processors,
                                inter_comp_inputs(partial_solution, makespan),
                                positions_of(self.one_hot.position_vars@, partial_solution),
                                job_num < n,
                                valid_var(fur_var as int),
                                clauses.wf(),
                                starts_with(clauses@, diag),
                                j <= m,
                            decreases m - j,
                        {
                            proof {
                                assert(self.one_hot.position_vars@[job_num as int]@[j as int] == position_var(pa, m as int, job_num as int, j as int));
                            }
                            match self.one_hot.position_vars[job_num][j] {
                                Some(v) => {
                                    proof {
                                        lemma_position_var_range(pa, m as int, n as int, job_num as int, j as int);
                                    }
                                    let l1 = lit_neg(fur_var);
                                    let l2 = lit_neg(v);
                                    let c = Clause { vars: vec![l1, l2] };
                                    assert(c.vars@ =~= seq![l1, l2]);
                                    clauses.add_clause(c);
                                },
                                None => {},
                            }
                            j = j + 1;
                        }
                        t = t + 1;
                    }
                }
                if timeout.time_finished() || clauses.get_num_clauses() > max_num_clauses {
                    return false;
                }
                i = i + 1;
            }
        }
        self.clauses = clauses;
        true
    }

    /// The diagram clauses followed by the one-hot clauses; the encoder keeps none of them.
    fn output(&mut self) -> (out: Clauses)
        ensures
            out.wf(),
            out@ == old(self).pending()@ + old(self).one_hot().clauses@,
    {
        let mut out = Clauses::new();
        std::mem::swap(&mut out, &mut self.clauses);
        out.add_many_clauses(&mut self.one_hot.clauses);
        out
    }

    fn decode(&self, instance: &ProblemInstance, var_assignment: &Vec<i32>) -> (s: Solution)
        ensures
            s.assignment@ == decoded(self.one_hot().position_vars@, true_vars(var_assignment@), self.one_hot().position_vars.len() as int),
    {
        self.one_hot.decode(instance, var_assignment)
    }

    fn get_num_vars(&self) -> (n: usize)
        ensures
            n == self.one_hot().var_name_generator.spec_peek(),
    {
        self.one_hot.var_name_generator.peek()
    }
}

impl OneHot for BddInterComp {
    closed spec fn has_position(&self, job_num: usize, proc_num: usize) -> bool {
        self.one_hot.has_position(job_num, proc_num)
    }

    fn get_position_var(&self, job_num: usize, proc_num: usize) -> (r: Option<usize>)
        ensures
            r == self.one_hot().position_vars[job_num as int]@[proc_num as int],
    {
        self.one_hot.get_position_var(job_num, proc_num)
    }
}

impl OneHotEncoder for BddInterComp {}

} // verus!
