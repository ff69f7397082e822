//! The basic encoding with the fill-up rule: when the jobs before a job already fill a
//! processor up to exactly the room for that job, the job goes on that processor or an
//! earlier one.
use vstd::prelude::*;
use crate::common::timeout::Timeout;
use crate::encoding::basic_encoder::BasicEncoder;
use crate::encoding::basic_encoder::basic_inputs;
use crate::encoding::basic_encoder::tight;
use crate::encoding::basic_encoder::basic_models_are_schedules;
use crate::encoding::basic_encoder::jobs_fit;
use crate::encoding::encoder::all_sat;
use crate::encoding::encoder::lemma_all_sat_append;
use crate::encoding::sat_encoding::binary_arithmetic::model_assignment;
use crate::encoding::problem_encoding::one_hot_encoding::allowed;
use crate::common::common::load;
use crate::encoding::encoder::Clause;
use crate::encoding::encoder::Clauses;
use crate::encoding::encoder::Encoder;
use crate::encoding::encoder::pos;
use crate::encoding::encoder::zero_free;
use crate::encoding::problem_encoding::one_hot_encoding::decoded;
use crate::encoding::problem_encoding::one_hot_encoding::lemma_position_var_range;
use crate::encoding::problem_encoding::one_hot_encoding::one_hot_clauses;
use crate::encoding::problem_encoding::one_hot_encoding::position_var;
use crate::encoding::problem_encoding::one_hot_encoding::true_vars;
use crate::encoding::sat_encoding::binary_arithmetic::BinaryNumber;
use crate::encoding::sat_encoding::binary_arithmetic::lemma_bitlength_monotone;
use crate::encoding::sat_encoding::binary_arithmetic::lit_pos;
use crate::encoding::sat_encoding::binary_arithmetic::ne_lits;
use crate::encoding::sat_encoding::binary_arithmetic::not_equals_constant_encoding;
use crate::problem_instance::partial_solution::PartialSolution;
use crate::problem_instance::problem_instance::ProblemInstance;
use crate::problem_instance::solution::Solution;

verus! {

/// The positive literals of a job's variables on the first `count` processors, in order.
pub open spec fn earlier_positions(row: Seq<Option<usize>>, count: int) -> Seq<i32>
    decreases count,
{
    if count <= 0 {
        Seq::empty()
    } else {
        let rest = earlier_positions(row, count - 1);
        match row[count - 1] {
            Some(v) => rest.push(pos(v)),
            None => rest,
        }
    }
}

/// Whether the fill-up rule gives a clause for `job` on processor `p`: the job may go
/// there, fits in the makespan, and the room for it is within the partial sum's range.
pub open spec fn fills_up(
    psv: Seq<Vec<Option<BinaryNumber>>>,
    pv: Seq<Vec<Option<usize>>>,
    sizes: Seq<usize>,
    makespan: usize,
    job: int,
    p: int,
) -> bool {
    &&& pv[job]@[p] is Some
    &&& sizes[job] <= makespan
    &&& makespan - sizes[job] <= psv[p]@[job]->0.max
}

/// The fill-up clause for `job` on processor `p`: the partial sum before the job is not
/// the room for it, or the job is on one of the processors `0..=p`.
pub open spec fn fill_up_clause(
    psv: Seq<Vec<Option<BinaryNumber>>>,
    pv: Seq<Vec<Option<usize>>>,
    sizes: Seq<usize>,
    makespan: usize,
    job: int,
    p: int,
) -> Seq<i32> {
    ne_lits(psv[p]@[job]->0.vars@, (makespan - sizes[job]) as nat) + earlier_positions(pv[job]@, p + 1)
}

/// The fill-up clauses of `job` on the first `count` processors, in order.
pub open spec fn fill_up_row(
    psv: Seq<Vec<Option<BinaryNumber>>>,
    pv: Seq<Vec<Option<usize>>>,
    sizes: Seq<usize>,
    makespan: usize,
    job: int,
    count: int,
) -> Seq<Seq<i32>>
    decreases count,
{
    if count <= 0 {
        Seq::empty()
    } else {
        let rest = fill_up_row(psv, pv, sizes, makespan, job, count - 1);
        if fills_up(psv, pv, sizes, makespan, job, count - 1) {
            rest.push(fill_up_clause(psv, pv, sizes, makespan, job, count - 1))
        } else {
            rest
        }
    }
}

/// The fill-up clauses of the first `jobs` jobs on `m` processors, job by job.
pub open spec fn fill_up_clauses(
    psv: Seq<Vec<Option<BinaryNumber>>>,
    pv: Seq<Vec<Option<usize>>>,
    sizes: Seq<usize>,
    makespan: usize,
    jobs: int,
    m: int,
) -> Seq<Seq<i32>>
    decreases jobs,
{
    if jobs <= 0 {
        Seq::empty()
    } else {
        fill_up_clauses(psv, pv, sizes, makespan, jobs - 1, m) + fill_up_row(psv, pv, sizes, makespan, jobs - 1, m)
    }
}

pub struct FillUpLite {
    pub basic: BasicEncoder,
    pub clauses: Clauses,
}

impl FillUpLite {
    pub fn new() -> (e: FillUpLite)
        ensures
            e.clauses.wf(),
            e.clauses@ == Seq::<Seq<i32>>::empty(),
            e.basic.problem.position_vars.len() == 0,
    {
        FillUpLite { basic: BasicEncoder::new(), clauses: Clauses::new() }
    }
}

impl Encoder for FillUpLite {
    open spec fn encode_requires(&self, partial_solution: &PartialSolution, makespan: usize) -> bool {
        basic_inputs(partial_solution, makespan)
    }

    open spec fn encoded(&self) -> bool {
        self.clauses.wf() && self.basic.encoded()
    }

    open spec fn decode_requires(&self, instance: &ProblemInstance, solution: &Vec<i32>) -> bool {
        self.basic.decode_requires(instance, solution)
    }

    /// On success the basic encoding is done, and the fill-up clauses are those of
    /// `fill_up_clauses`: for every job, then every processor where the job may go and
    /// the room for it is within the partial sum's range, "the partial sum before the job
    /// is not the room for it, or the job is on this processor or an earlier one".
    fn basic_encode(
        &mut self,
        partial_solution: &PartialSolution,
        makespan: usize,
        timeout: &Timeout,
        max_num_clauses: usize,
    ) -> (r: bool)
        ensures
            !r ==> final(self).clauses == old(self).clauses,
            r ==> {
                let pa = partial_solution.possible_allocations@;
                let n = partial_solution.instance.num_jobs as int;
                let m = partial_solution.instance.num_processors as int;
                &&& final(self).basic.encodes(partial_solution, makespan)
                &&& final(self).basic.problem.position_vars.len() == n
                &&& forall|i: int, j: int| 0 <= i < n && 0 <= j < m ==> (#[trigger] final(self).basic.problem.position_vars[i]@[j]) == position_var(pa, m, i, j)
                &&& final(self).basic.problem.clauses@ == one_hot_clauses(pa, m, n)
                &&& final(self).clauses.wf()
                &&& final(self).clauses@ == fill_up_clauses(
                    final(self).basic.partial_sum_variables@,
                    final(self).basic.problem.position_vars@,
                    partial_solution.instance.job_sizes@,
                    makespan,
                    n,
                    m,
                )
            },
    {
        if !self.basic.basic_encode(partial_solution, makespan, timeout, max_num_clauses) {
            return false;
        }
        let ghost pa = partial_solution.possible_allocations@;
        let n = partial_solution.instance.num_jobs;
        let m = partial_solution.instance.num_processors;
        let ghost psv = self.basic.partial_sum_variables@;
        let ghost pv = self.basic.problem.position_vars@;
        let ghost sizes = partial_solution.instance.job_sizes@;
        let mut clauses = Clauses::new();
        let mut job: usize = 0;
        while job < n
            invariant
                self.clauses == old(self).clauses,
                pa == partial_solution.possible_allocations@,
                n == partial_solution.instance.num_jobs,
                m == partial_solution.instance.num_processors,
                sizes == partial_solution.instance.job_sizes@,
                basic_inputs(partial_solution, makespan),
                psv == self.basic.partial_sum_variables@,
                pv == self.basic.problem.position_vars@,
                pv.len() == n,
                forall|i: int, j: int| 0 <= i < n && 0 <= j < m ==> (#[trigger] pv[i]@[j]) == position_var(pa, m as int, i, j),
                forall|i: int| 0 <= i < n ==> (#[trigger] pv[i]).len() == m,
                psv.len() == m,
                forall|p: int| 0 <= p < m ==> (#[trigger] psv[p]).len() == n,
                forall|p: int, j: int| 0 <= p < m && 0 <= j < n ==> ((#[trigger] psv[p]@[j]) is Some <==> pv[j]@[p] is Some),
                forall|p: int, j: int| 0 <= p < m && 0 <= j < n && (#[trigger] psv[p]@[j]) is Some ==> tight(psv[p]@[j]->0),
                clauses.wf(),
                clauses@ == fill_up_clauses(psv, pv, sizes, makespan, job as int, m as int),
                job <= n,
            decreases n - job,
        {
            let mut processor: usize = 0;
            while processor < m
                invariant
                    self.clauses == old(self).clauses,
                    pa == partial_solution.possible_allocations@,
                    n == partial_solution.instance.num_jobs,
                    m == partial_solution.instance.num_processors,
                    sizes == partial_solution.instance.job_sizes@,
                    basic_inputs(partial_solution, makespan),
                    psv == self.basic.partial_sum_variables@,
                    pv == self.basic.problem.position_vars@,
                    pv.len() == n,
                    forall|i: int, j: int| 0 <= i < n && 0 <= j < m ==> (#[trigger] pv[i]@[j]) == position_var(pa, m as int, i, j),
                    forall|i: int| 0 <= i < n ==> (#[trigger] pv[i]).len() == m,
                    psv.len() == m,
                    forall|p: int| 0 <= p < m ==> (#[trigger] psv[p]).len() == n,
                    forall|p: int, j: int| 0 <= p < m && 0 <= j < n ==> ((#[trigger] psv[p]@[j]) is Some <==> pv[j]@[p] is Some),
                    forall|p: int, j: int| 0 <= p < m && 0 <= j < n && (#[trigger] psv[p]@[j]) is Some ==> tight(psv[p]@[j]->0),
                    clauses.wf(),
                    clauses@ == fill_up_clauses(psv, pv, sizes, makespan, job as int, m as int)
                        + fill_up_row(psv, pv, sizes, makespan, job as int, processor as int),
                    job < n,
                    processor <= m,
                decreases m - processor,
            {
                let ghost before_clauses = clauses@;
                let size = partial_solution.instance.job_sizes[job];
                if self.basic.problem.position_vars[job][processor].is_some() && size <= makespan {
                    let goal_sum = makespan - size;
                    proof {
                        assert(psv[processor as int]@[job as int] is Some);
                    }
                    let sum = match &self.basic.partial_sum_variables[processor][job] {
                        Some(s) => s,
                        None => {
                            proof {
                                assert(false);
                            }
                            return false;
                        },
                    };
                    if goal_sum <= sum.max {
                        proof {
                            lemma_bitlength_monotone(goal_sum as nat, sum.max as nat);
                        }
                        let ne_clause = not_equals_constant_encoding(sum, goal_sum);
                        let mut vars = ne_clause.vars;
                        let ghost head = vars@;
                        let mut i: usize = 0;
                        while i <= processor
                            invariant
                                self.clauses == old(self).clauses,
                                pa == partial_solution.possible_allocations@,
                                n == partial_solution.instance.num_jobs,
                                m == partial_solution.instance.num_processors,
                                basic_inputs(partial_solution, makespan),
                                pv == self.basic.problem.position_vars@,
                                pv.len() == n,
                                forall|i2: int, j: int| 0 <= i2 < n && 0 <= j < m ==> (#[trigger] pv[i2]@[j]) == position_var(pa, m as int, i2, j),
                                forall|i2: int| 0 <= i2 < n ==> (#[trigger] pv[i2]).len() == m,
                                job < n,
                                processor < m,
                                i <= processor + 1,
                                zero_free(head),
                                vars@ == head + earlier_positions(pv[job as int]@, i as int),
                                zero_free(vars@),
                            decreases processor + 1 - i,
                        {
                            let ghost before = vars@;
                            match self.basic.problem.position_vars[job][i] {
                                Some(v) => {
                                    proof {
                                        lemma_position_var_range(pa, m as int, n as int, job as int, i as int);
                                    }
                                    let l = lit_pos(v);
                                    vars.push(l);
                                    proof {
                                        assert forall|t: int| 0 <= t < vars@.len() implies #[trigger] vars@[t] != 0 by {
                                            if t < before.len() {
                                                assert(vars@[t] == before[t]);
                                            }
                                        }
                                        assert(vars@ =~= head + earlier_positions(pv[job as int]@, i + 1));
                                    }
                                },
                                None => {
                                    proof {
                                        assert(vars@ =~= head + earlier_positions(pv[job as int]@, i + 1));
                                    }
                                },
                            }
                            i = i + 1;
                        }
                        let ghost c = vars@;
                        clauses.add_clause(Clause { vars });
                        proof {
                            assert(fills_up(psv, pv, sizes, makespan, job as int, processor as int));
                            assert(c == fill_up_clause(psv, pv, sizes, makespan, job as int, processor as int));
                            assert(clauses@ =~= fill_up_clauses(psv, pv, sizes, makespan, job as int, m as int)
                                + fill_up_row(psv, pv, sizes, makespan, job as int, processor + 1));
                        }
                    } else {
                        proof {
                            assert(!fills_up(psv, pv, sizes, makespan, job as int, processor as int));
                            assert(clauses@ =~= fill_up_clauses(psv, pv, sizes, makespan, job as int, m as int)
                                + fill_up_row(psv, pv, sizes, makespan, job as int, processor + 1));
                        }
                    }
                } else {
                    proof {
                        assert(!fills_up(psv, pv, sizes, makespan, job as int, processor as int));
                        assert(clauses@ =~= fill_up_clauses(psv, pv, sizes, makespan, job as int, m as int)
                            + fill_up_row(psv, pv, sizes, makespan, job as int, processor + 1));
                    }
                }
                processor = processor + 1;
            }
            proof {
                assert(clauses@ =~= fill_up_clauses(psv, pv, sizes, makespan, job + 1, m as int));
            }
            job = job + 1;
        }
        self.clauses = clauses;
        true
    }

    /// The fill-up clauses followed by those of the basic encoding; the encoder keeps none.
    fn output(&mut self) -> (out: Clauses)
        ensures
            out.wf(),
            out@ == old(self).clauses@ + old(self).basic.clauses@ + old(self).basic.problem.clauses@,
    {
        let mut out = Clauses::new();
        std::mem::swap(&mut out, &mut self.clauses);
        let mut rest = self.basic.output();
        out.add_many_clauses(&mut rest);
        out
    }

    fn decode(&self, instance: &ProblemInstance, var_assignment: &Vec<i32>) -> (s: Solution)
        ensures
            s.assignment@ == decoded(self.basic.problem.position_vars@, true_vars(var_assignment@), self.basic.problem.position_vars.len() as int),
    {
        self.basic.decode(instance, var_assignment)
    }

    fn get_num_vars(&self) -> (n: usize)
        ensures
            n == self.basic.problem.var_name_generator.spec_peek(),
    {
        self.basic.get_num_vars()
    }
}

/// The fill-up clauses only add to the basic encoding: every model of the whole output,
/// read back, places each job on one of the processors it may go on, and where every job
/// fits within the makespan, no processor then carries more than the makespan.
pub proof fn fill_up_models_are_schedules(encoder: FillUpLite, partial_solution: PartialSolution, makespan: usize, model: Seq<i32>)
    requires
        encoder.basic.encodes(&partial_solution, makespan),
        all_sat(model_assignment(model), encoder.clauses@ + encoder.basic.clauses@ + encoder.basic.problem.clauses@),
    ensures
        ({
            let pa = partial_solution.possible_allocations@;
            let n = partial_solution.instance.num_jobs as int;
            let m = partial_solution.instance.num_processors as int;
            let sizes = partial_solution.instance.job_sizes@;
            let d = decoded(encoder.basic.problem.position_vars@, true_vars(model), n);
            &&& d.len() == n
            &&& forall|i: int| 0 <= i < n ==> #[trigger] d[i] < m && allowed(pa, i, d[i] as int)
            &&& jobs_fit(sizes, n, makespan) ==> forall|p: int| 0 <= p < m ==> #[trigger] load(sizes, d, p, n) <= makespan
        }),
{
    let a = model_assignment(model);
    lemma_all_sat_append(a, encoder.clauses@ + encoder.basic.clauses@, encoder.basic.problem.clauses@);
    lemma_all_sat_append(a, encoder.clauses@, encoder.basic.clauses@);
    lemma_all_sat_append(a, encoder.basic.clauses@, encoder.basic.problem.clauses@);
    basic_models_are_schedules(encoder.basic, partial_solution, makespan, model);
}

} // verus!
