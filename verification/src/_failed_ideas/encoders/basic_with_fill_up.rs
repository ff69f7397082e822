//! The basic encoding with the fill-up rule stated over "already placed" variables: for
//! each job and processor a variable that holds when the job is on that processor or an
//! earlier one, and the fill-up clause over the table of such variables that the encoder
//! kept from its previous encoding.
use vstd::prelude::*;
use crate::common::timeout::Timeout;
use crate::encoding::basic_encoder::BasicEncoder;
use crate::encoding::basic_encoder::basic_inputs;
use crate::encoding::basic_encoder::tight;
use crate::encoding::encoder::Clause;
use crate::encoding::encoder::Clauses;
use crate::encoding::encoder::Encoder;
use crate::encoding::encoder::neg;
use crate::encoding::encoder::pos;
use crate::encoding::encoder::valid_var;
use crate::encoding::problem_encoding::one_hot_encoding::allowed;
use crate::encoding::problem_encoding::one_hot_encoding::decoded;
use crate::encoding::problem_encoding::one_hot_encoding::lemma_position_var_range;
use crate::encoding::problem_encoding::one_hot_encoding::one_hot_clauses;
use crate::encoding::problem_encoding::one_hot_encoding::position_var;
use crate::encoding::problem_encoding::one_hot_encoding::true_vars;
use crate::encoding::sat_encoding::binary_arithmetic::BinaryNumber;
use crate::encoding::sat_encoding::binary_arithmetic::lemma_bitlength_monotone;
use crate::encoding::sat_encoding::binary_arithmetic::lit_neg;
use crate::encoding::sat_encoding::binary_arithmetic::lit_pos;
use crate::encoding::sat_encoding::binary_arithmetic::ne_lits;
use crate::encoding::sat_encoding::binary_arithmetic::not_equals_constant_encoding;
use crate::problem_instance::partial_solution::PartialSolution;
use crate::problem_instance::problem_instance::ProblemInstance;
use crate::problem_instance::solution::Solution;

verus! {

/// How many of the processors `1..p` job `job` may go on.
pub open spec fn count_row(row: Seq<Option<usize>>, p: int) -> int
    decreases p,
{
    if p <= 1 {
        0
    } else {
        count_row(row, p - 1) + if row[p - 1] is Some {
            1int
        } else {
            0int
        }
    }
}

/// How many fresh variables the first `job` jobs take: one per processor after the first
/// that the job may go on.
pub open spec fn count_rows(pv: Seq<Vec<Option<usize>>>, m: int, job: int) -> int
    decreases job,
{
    if job <= 0 {
        0
    } else {
        count_rows(pv, m, job - 1) + count_row(pv[job - 1]@, m)
    }
}

/// The "placed on `0..=p`" variable of `job`: on processor 0 the position variable;
/// where the job may go on `p`, the next fresh variable from `g0`; else the previous
/// one.
pub open spec fn placed_var(pv: Seq<Vec<Option<usize>>>, m: int, g0: int, job: int, p: int) -> Option<usize>
    decreases p,
{
    if p <= 0 {
        pv[job]@[0]
    } else if pv[job]@[p] is Some {
        Some((g0 + count_rows(pv, m, job) + count_row(pv[job]@, p)) as usize)
    } else {
        placed_var(pv, m, g0, job, p - 1)
    }
}

/// The clauses that tie the placed variable of `job` at `q`: the job on `q` places it;
/// placed before places it; placed before keeps it off `q`.
pub open spec fn chain_step(pv: Seq<Vec<Option<usize>>>, m: int, g0: int, job: int, q: int) -> Seq<Seq<i32>> {
    match pv[job]@[q] {
        Some(v) => {
            let next = placed_var(pv, m, g0, job, q)->0;
            match placed_var(pv, m, g0, job, q - 1) {
                Some(prev) => seq![seq![neg(v), pos(next)], seq![neg(prev), pos(next)], seq![neg(prev), neg(v)]],
                None => seq![seq![neg(v), pos(next)]],
            }
        },
        None => Seq::empty(),
    }
}

/// The chain clauses of `job` on the processors `1..p`.
pub open spec fn chain_row(pv: Seq<Vec<Option<usize>>>, m: int, g0: int, job: int, p: int) -> Seq<Seq<i32>>
    decreases p,
{
    if p <= 1 {
        Seq::empty()
    } else {
        chain_row(pv, m, g0, job, p - 1) + chain_step(pv, m, g0, job, p - 1)
    }
}

/// The chain clauses of the first `k` jobs.
pub open spec fn chains(pv: Seq<Vec<Option<usize>>>, m: int, g0: int, k: int) -> Seq<Seq<i32>>
    decreases k,
{
    if k <= 0 {
        Seq::empty()
    } else {
        chains(pv, m, g0, k - 1) + chain_row(pv, m, g0, k - 1, m)
    }
}

/// The fill-up rule applies to `job` on `p`: it has a placed variable and may go on `p`,
/// it fits the makespan, and the room for it is within the partial sum's range.
pub open spec fn fill_due(
    pv: Seq<Vec<Option<usize>>>,
    psv: Seq<Vec<Option<BinaryNumber>>>,
    sizes: Seq<usize>,
    makespan: int,
    m: int,
    g0: int,
    job: int,
    p: int,
) -> bool {
    &&& placed_var(pv, m, g0, job, p) is Some
    &&& pv[job]@[p] is Some
    &&& sizes[job] <= makespan
    &&& makespan - sizes[job] <= psv[p]@[job]->0.max
}

/// The table kept from the previous encoding has a usable variable for `job` on `p`.
pub open spec fn kept_var(table: Seq<Vec<Option<usize>>>, job: int, p: int) -> bool {
    &&& job < table.len()
    &&& p < table[job]@.len()
    &&& table[job]@[p] is Some
    &&& valid_var(table[job]@[p]->0 as int)
}

/// The fill-up clauses of `job` on the processors `0..p`: the partial sum before the job
/// is not the room for it, or the kept variable of the job on that processor holds.
pub open spec fn fill_row(
    pv: Seq<Vec<Option<usize>>>,
    psv: Seq<Vec<Option<BinaryNumber>>>,
    sizes: Seq<usize>,
    makespan: int,
    m: int,
    g0: int,
    table: Seq<Vec<Option<usize>>>,
    job: int,
    p: int,
) -> Seq<Seq<i32>>
    decreases p,
{
    if p <= 0 {
        Seq::empty()
    } else {
        let rest = fill_row(pv, psv, sizes, makespan, m, g0, table, job, p - 1);
        if fill_due(pv, psv, sizes, makespan, m, g0, job, p - 1) {
            rest.push(ne_lits(psv[p - 1]@[job]->0.vars@, (makespan - sizes[job]) as nat).push(pos(table[job]@[p - 1]->0)))
        } else {
            rest
        }
    }
}

/// The fill-up clauses of the first `k` jobs.
pub open spec fn fills(
    pv: Seq<Vec<Option<usize>>>,
    psv: Seq<Vec<Option<BinaryNumber>>>,
    sizes: Seq<usize>,
    makespan: int,
    m: int,
    g0: int,
    table: Seq<Vec<Option<usize>>>,
    k: int,
) -> Seq<Seq<i32>>
    decreases k,
{
    if k <= 0 {
        Seq::empty()
    } else {
        fills(pv, psv, sizes, makespan, m, g0, table, k - 1) + fill_row(pv, psv, sizes, makespan, m, g0, table, k - 1, m)
    }
}

/// A row's count of fresh variables stays below the number of processors.
proof fn lemma_count_row(row: Seq<Option<usize>>, p: int)
    ensures
        0 <= count_row(row, p),
        p >= 1 ==> count_row(row, p) <= p - 1,
    decreases p,
{
    if p > 1 {
        lemma_count_row(row, p - 1);
    }
}

/// The fresh variables of the first `job` jobs number at most `job * (m - 1)`.
proof fn lemma_count_rows(pv: Seq<Vec<Option<usize>>>, m: int, job: int)
    requires
        m >= 1,
        job >= 0,
    ensures
        0 <= count_rows(pv, m, job) <= job * (m - 1),
    decreases job,
{
    if job > 0 {
        lemma_count_rows(pv, m, job - 1);
        lemma_count_row(pv[job - 1]@, m);
        assert(job * (m - 1) == (job - 1) * (m - 1) + (m - 1)) by (nonlinear_arith);
    }
}

/// Adds the clause of two literals.
fn add_two(clauses: &mut Clauses, a: i32, b: i32)
    requires
        old(clauses).wf(),
        a != 0,
        b != 0,
    ensures
        final(clauses).wf(),
        final(clauses)@ == old(clauses)@.push(seq![a, b]),
{
    let c = Clause { vars: vec![a, b] };
    assert(c.vars@ =~= seq![a, b]);
    clauses.add_clause(c);
}

pub struct BasicWithFillUp {
    pub basic: BasicEncoder,
    pub has_already_been_assigned_vars: Vec<Vec<Option<usize>>>,
    pub clauses: Clauses,
}

impl BasicWithFillUp {
    pub fn new() -> (e: BasicWithFillUp)
        ensures
            e.clauses.wf(),
            e.clauses@ == Seq::<Seq<i32>>::empty(),
            e.has_already_been_assigned_vars.len() == 0,
            e.basic.problem.position_vars.len() == 0,
    {
        BasicWithFillUp { basic: BasicEncoder::new(), has_already_been_assigned_vars: Vec::new(), clauses: Clauses::new() }
    }
}

impl Encoder for BasicWithFillUp {
    open spec fn encode_requires(&self, partial_solution: &PartialSolution, makespan: usize) -> bool {
        &&& basic_inputs(partial_solution, makespan)
        &&& partial_solution.instance.num_jobs >= 1 ==> partial_solution.instance.num_processors >= 1
    }

    open spec fn encoded(&self) -> bool {
        self.clauses.wf() && self.basic.encoded()
    }

    open spec fn decode_requires(&self, instance: &ProblemInstance, solution: &Vec<i32>) -> bool {
        self.basic.decode_requires(instance, solution)
    }

    /// On success: the basic encoding; for each job, from the second processor on, a
    /// fresh "placed on this processor or an earlier one" variable where the job may go,
    /// with its chain clauses (`chains`), and the table of these variables kept for the
    /// next encoding; and the fill-up clauses (`fills`) over the table that was kept from
    /// the previous encoding. It fails when the basic encoding fails, when the fresh
    /// variables would not fit in a literal, and when a fill-up clause needs a variable
    /// that the kept table lacks.
    fn basic_encode(
        &mut self,
        partial_solution: &PartialSolution,
        makespan: usize,
        timeout: &Timeout,
        max_num_clauses: usize,
    ) -> (r: bool)
        ensures
            r ==> {
                let pa = partial_solution.possible_allocations@;
                let n = partial_solution.instance.num_jobs as int;
                let m = partial_solution.instance.num_processors as int;
                let pv = final(self).basic.problem.position_vars@;
                let g0 = final(self).basic.problem.var_name_generator.spec_peek() - count_rows(pv, m, n);
                &&& final(self).basic.problem.position_vars.len() == n
                &&& forall|i: int, j: int| 0 <= i < n && 0 <= j < m ==> (#[trigger] final(self).basic.problem.position_vars[i]@[j]) == position_var(pa, m, i, j)
                &&& final(self).basic.problem.clauses@ == one_hot_clauses(pa, m, n)
                &&& final(self).has_already_been_assigned_vars.len() == n
                &&& forall|i: int, j: int| 0 <= i < n && 0 <= j < m ==> (#[trigger] final(self).has_already_been_assigned_vars@[i]@[j]) == placed_var(pv, m, g0, i, j)
                &&& final(self).clauses.wf()
                &&& final(self).clauses@ == chains(pv, m, g0, n) + fills(
                    pv,
                    final(self).basic.partial_sum_variables@,
                    partial_solution.instance.job_sizes@,
                    makespan as int,
                    m,
                    g0,
                    old(self).has_already_been_assigned_vars@,
                    n,
                )
            },
    {
        if !self.basic.basic_encode(partial_solution, makespan, timeout, max_num_clauses) {
            return false;
        }
        let ghost pa = partial_solution.possible_allocations@;
        let ghost sizes = partial_solution.instance.job_sizes@;
        let ghost kept = self.has_already_been_assigned_vars@;
        let ghost pv = self.basic.problem.position_vars@;
        let ghost psv = self.basic.partial_sum_variables@;
        let n = partial_solution.instance.num_jobs;
        let m = partial_solution.instance.num_processors;
        proof {
            assert(n * m <= 200 * (n * m)) by (nonlinear_arith)
                requires
                    n >= 0,
                    m >= 0,
            ;
        }
        let budget = n * m;
        let g0 = self.basic.problem.var_name_generator.peek();
        if g0 == 0 || g0 > 0x7fff_ffffusize - budget {
            return false;
        }
        let mut clauses = Clauses::new();
        let mut table: Vec<Vec<Option<usize>>> = Vec::new();
        let mut job: usize = 0;
        while job < n
            invariant
                pa == partial_solution.possible_allocations@,
                sizes == partial_solution.instance.job_sizes@,
                n == partial_solution.instance.num_jobs,
                m == partial_solution.instance.num_processors,
                basic_inputs(partial_solution, makespan),
                n >= 1 ==> m >= 1,
                pv == self.basic.problem.position_vars@,
                psv == self.basic.partial_sum_variables@,
                kept == self.has_already_been_assigned_vars@,
                self.basic.clauses.wf(),
                self.basic.problem.clauses.wf(),
                self.basic.problem.clauses@ == one_hot_clauses(pa, m as int, n as int),
                forall|i: int| 0 <= i < n ==> (#[trigger] self.basic.problem.position_vars@[i]).len() == m,
                pv.len() == n,
                forall|i: int, j: int| 0 <= i < n && 0 <= j < m ==> (#[trigger] pv[i]@[j]) == position_var(pa, m as int, i, j),
                forall|i: int| 0 <= i < n ==> (#[trigger] pv[i]).len() == m,
                budget == n * m,
                1 <= g0 <= 0x7fff_ffff - budget,
                job <= n,
                self.basic.problem.var_name_generator.spec_peek() == g0 + count_rows(pv, m as int, job as int),
                table.len() == job,
                forall|i: int| 0 <= i < job ==> (#[trigger] table@[i]).len() == m,
                forall|i: int, j: int| 0 <= i < job && 0 <= j < m ==> (#[trigger] table@[i]@[j]) == placed_var(pv, m as int, g0 as int, i, j),
                clauses.wf(),
                clauses@ == chains(pv, m as int, g0 as int, job as int),
            decreases n - job,
        {
            proof {
                if allowed(pa, job as int, 0) {
                    lemma_position_var_range(pa, m as int, n as int, job as int, 0);
                }
                lemma_count_rows(pv, m as int, job as int);
                assert(job * (m - 1) + (m - 1) <= n * m) by (nonlinear_arith)
                    requires
                        job + 1 <= n,
                        m >= 1,
                ;
            }
            let first = self.basic.problem.position_vars[job][0];
            let mut row: Vec<Option<usize>> = Vec::new();
            row.push(first);
            let mut prev = first;
            let mut p: usize = 1;
            while p < m
                invariant
                    pa == partial_solution.possible_allocations@,
                    n == partial_solution.instance.num_jobs,
                    m == partial_solution.instance.num_processors,
                    basic_inputs(partial_solution, makespan),
                    pv == self.basic.problem.position_vars@,
                    psv == self.basic.partial_sum_variables@,
                    kept == self.has_already_been_assigned_vars@,
                    self.basic.clauses.wf(),
                    self.basic.problem.clauses.wf(),
                    self.basic.problem.clauses@ == one_hot_clauses(pa, m as int, n as int),
                    forall|i: int| 0 <= i < n ==> (#[trigger] self.basic.problem.position_vars@[i]).len() == m,
                    pv.len() == n,
                    forall|i: int, j: int| 0 <= i < n && 0 <= j < m ==> (#[trigger] pv[i]@[j]) == position_var(pa, m as int, i, j),
                    forall|i: int| 0 <= i < n ==> (#[trigger] pv[i]).len() == m,
                    budget == n * m,
                    1 <= g0 <= 0x7fff_ffff - budget,
                    job < n,
                    1 <= p <= m,
                    0 <= count_rows(pv, m as int, job as int) <= job * (m - 1),
                    job * (m - 1) + (m - 1) <= n * m,
                    self.basic.problem.var_name_generator.spec_peek() == g0 + count_rows(pv, m as int, job as int) + count_row(pv[job as int]@, p as int),
                    row.len() == p,
                    forall|q: int| 0 <= q < p ==> (#[trigger] row@[q]) == placed_var(pv, m as int, g0 as int, job as int, q),
                    prev == placed_var(pv, m as int, g0 as int, job as int, p - 1),
                    prev matches Some(x) ==> valid_var(x as int),
                    clauses.wf(),
                    clauses@ == chains(pv, m as int, g0 as int, job as int) + chain_row(pv, m as int, g0 as int, job as int, p as int),
                decreases m - p,
            {
                proof {
                    lemma_count_row(pv[job as int]@, p as int);
                }
                let ghost before = clauses@;
                match self.basic.problem.position_vars[job][p] {
                    None => {
                        row.push(prev);
                        assert(clauses@ =~= chains(pv, m as int, g0 as int, job as int) + chain_row(pv, m as int, g0 as int, job as int, p + 1));
                    },
                    Some(v) => {
                        proof {
                            lemma_position_var_range(pa, m as int, n as int, job as int, p as int);
                        }
                        let next = self.basic.problem.var_name_generator.next();
                        add_two(&mut clauses, lit_neg(v), lit_pos(next));
                        match prev {
                            Some(pr) => {
                                add_two(&mut clauses, lit_neg(pr), lit_pos(next));
                                add_two(&mut clauses, lit_neg(pr), lit_neg(v));
                            },
                            None => {},
                        }
                        prev = Some(next);
                        row.push(prev);
                        assert(clauses@ =~= chains(pv, m as int, g0 as int, job as int) + chain_row(pv, m as int, g0 as int, job as int, p + 1));
                    },
                }
                p = p + 1;
            }
            table.push(row);
            assert(clauses@ =~= chains(pv, m as int, g0 as int, job + 1));
            job = job + 1;
        }
        let ghost chained = clauses@;
        let ghost gstart = g0 as int;
        let mut job: usize = 0;
        while job < n
            invariant
                pa == partial_solution.possible_allocations@,
                sizes == partial_solution.instance.job_sizes@,
                n == partial_solution.instance.num_jobs,
                m == partial_solution.instance.num_processors,
                basic_inputs(partial_solution, makespan),
                pv == self.basic.problem.position_vars@,
                psv == self.basic.partial_sum_variables@,
                kept == self.has_already_been_assigned_vars@,
                self.basic.clauses.wf(),
                self.basic.problem.clauses.wf(),
                self.basic.problem.clauses@ == one_hot_clauses(pa, m as int, n as int),
                forall|i: int| 0 <= i < n ==> (#[trigger] self.basic.problem.position_vars@[i]).len() == m,
                pv.len() == n,
                forall|i: int, j: int| 0 <= i < n && 0 <= j < m ==> (#[trigger] pv[i]@[j]) == position_var(pa, m as int, i, j),
                psv.len() == m,
                forall|q: int| 0 <= q < m ==> (#[trigger] psv[q]).len() == n,
                forall|q: int, j: int| 0 <= q < m && 0 <= j < n ==> ((#[trigger] psv[q]@[j]) is Some <==> pv[j]@[q] is Some),
                forall|q: int, j: int| 0 <= q < m && 0 <= j < n && (#[trigger] psv[q]@[j]) is Some ==> tight(psv[q]@[j]->0),
                table.len() == n,
                forall|i: int| 0 <= i < n ==> (#[trigger] table@[i]).len() == m,
                forall|i: int, j: int| 0 <= i < n && 0 <= j < m ==> (#[trigger] table@[i]@[j]) == placed_var(pv, m as int, gstart, i, j),
                job <= n,
                clauses.wf(),
                clauses@ == chained + fills(pv, psv, sizes, makespan as int, m as int, gstart, kept, job as int),
            decreases n - job,
        {
            let mut p: usize = 0;
            while p < m
                invariant
                    pa == partial_solution.possible_allocations@,
                    sizes == partial_solution.instance.job_sizes@,
                    n == partial_solution.instance.num_jobs,
                    m == partial_solution.instance.num_processors,
                    basic_inputs(partial_solution, makespan),
                    pv == self.basic.problem.position_vars@,
                    psv == self.basic.partial_sum_variables@,
                    kept == self.has_already_been_assigned_vars@,
                    self.basic.clauses.wf(),
                    self.basic.problem.clauses.wf(),
                    self.basic.problem.clauses@ == one_hot_clauses(pa, m as int, n as int),
                    forall|i: int| 0 <= i < n ==> (#[trigger] self.basic.problem.position_vars@[i]).len() == m,
                    pv.len() == n,
                    forall|i: int, j: int| 0 <= i < n && 0 <= j < m ==> (#[trigger] pv[i]@[j]) == position_var(pa, m as int, i, j),
                    psv.len() == m,
                    forall|q: int| 0 <= q < m ==> (#[trigger] psv[q]).len() == n,
                    forall|q: int, j: int| 0 <= q < m && 0 <= j < n ==> ((#[trigger] psv[q]@[j]) is Some <==> pv[j]@[q] is Some),
                    forall|q: int, j: int| 0 <= q < m && 0 <= j < n && (#[trigger] psv[q]@[j]) is Some ==> tight(psv[q]@[j]->0),
                    table.len() == n,
                    forall|i: int| 0 <= i < n ==> (#[trigger] table@[i]).len() == m,
                    forall|i: int, j: int| 0 <= i < n && 0 <= j < m ==> (#[trigger] table@[i]@[j]) == placed_var(pv, m as int, gstart, i, j),
                    job < n,
                    p <= m,
                    clauses.wf(),
                    clauses@ == chained + fills(pv, psv, sizes, makespan as int, m as int, gstart, kept, job as int)
                        + fill_row(pv, psv, sizes, makespan as int, m as int, gstart, kept, job as int, p as int),
                decreases m - p,
            {
                let size = partial_solution.instance.job_sizes[job];
                let due = table[job][p].is_some() && self.basic.problem.position_vars[job][p].is_some() && size <= makespan;
                if due {
                    let goal = makespan - size;
                    assert(psv[p as int]@[job as int] is Some);
                    let sum = match &self.basic.partial_sum_variables[p][job] {
                        Some(s) => s,
                        None => {
                            return false;
                        },
                    };
                    if goal <= sum.max {
                        assert(fill_due(pv, psv, sizes, makespan as int, m as int, gstart, job as int, p as int));
                        if job >= self.has_already_been_assigned_vars.len() || p >= self.has_already_been_assigned_vars[job].len() {
                            return false;
                        }
                        let kept_var = match self.has_already_been_assigned_vars[job][p] {
                            Some(x) => x,
                            None => {
                                return false;
                            },
                        };
                        if kept_var == 0 || kept_var > 0x7fff_ffffusize {
                            return false;
                        }
                        proof {
                            lemma_bitlength_monotone(goal as nat, sum.max as nat);
                        }
                        let ne_clause = not_equals_constant_encoding(sum, goal);
                        let mut vars = ne_clause.vars;
                        let ghost head = vars@;
                        vars.push(lit_pos(kept_var));
                        proof {
                            assert forall|t: int| 0 <= t < vars@.len() implies #[trigger] vars@[t] != 0 by {
                                if t < head.len() {
                                    assert(vars@[t] == head[t]);
                                }
                            }
                        }
                        clauses.add_clause(Clause { vars });
                        assert(clauses@ =~= chained + fills(pv, psv, sizes, makespan as int, m as int, gstart, kept, job as int)
                            + fill_row(pv, psv, sizes, makespan as int, m as int, gstart, kept, job as int, p + 1));
                    } else {
                        assert(clauses@ =~= chained + fills(pv, psv, sizes, makespan as int, m as int, gstart, kept, job as int)
                            + fill_row(pv, psv, sizes, makespan as int, m as int, gstart, kept, job as int, p + 1));
                    }
                } else {
                    assert(clauses@ =~= chained + fills(pv, psv, sizes, makespan as int, m as int, gstart, kept, job as int)
                        + fill_row(pv, psv, sizes, makespan as int, m as int, gstart, kept, job as int, p + 1));
                }
                p = p + 1;
            }
            assert(clauses@ =~= chained + fills(pv, psv, sizes, makespan as int, m as int, gstart, kept, job + 1));
            job = job + 1;
        }
        self.has_already_been_assigned_vars = table;
        self.clauses = clauses;
        true
    }

    /// The chain and fill-up clauses followed by those of the basic encoding; the encoder
    /// keeps none.
    fn output(&mut self) -> (out: Clauses)
        ensures
            out.wf(),
            out@ == old(self).clauses@ + old(self).basic.clauses@ + old(self).basic.problem.clauses@,
    {
        let mut out = Clauses::new();
        std::mem::swap(&mut out, &mut self.clauses);
        let mut rest = self.basic.output();
        out.add_many_clauses(&mut rest);
        out
    }

    fn decode(&self, instance: &ProblemInstance, var_assignment: &Vec<i32>) -> (s: Solution)
        ensures
            s.assignment@ == decoded(self.basic.problem.position_vars@, true_vars(var_assignment@), self.basic.problem.position_vars.len() as int),
    {
        self.basic.decode(instance, var_assignment)
    }

    fn get_num_vars(&self) -> (n: usize)
        ensures
            n == self.basic.problem.var_name_generator.spec_peek(),
    {
        self.basic.get_num_vars()
    }
}

} // verus!
