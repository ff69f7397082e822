//! Binary merging with interchangeability: the loads are counted with totalizers, and
//! besides the bound on each load, symmetric schedules are cut off. A job may not go on a
//! later processor when an earlier one has a load at which it would have been the last to
//! fit, and two processors of equal load take an open job only in order.
use vstd::prelude::*;
use crate::common::timeout::Timeout;
use crate::encoding::encoder::Clause;
use crate::encoding::encoder::Clauses;
use crate::encoding::encoder::Encoder;
use crate::encoding::encoder::OneHotEncoder;
use crate::encoding::encoder::all_valid;
use crate::encoding::encoder::valid_var;
use crate::encoding::encoder::zero_free;
use crate::encoding::encoder::all_sat;
use crate::encoding::encoder::starts_with;
use crate::encoding::encoder::lemma_starts_with_sat;
use crate::encoding::pb_bdd_native::open_on;
use crate::encoding::problem_encoding::one_hot_encoding::OneHot;
use crate::encoding::problem_encoding::one_hot_encoding::OneHotProblemEncoding;
use crate::encoding::problem_encoding::one_hot_encoding::allowed;
use crate::encoding::problem_encoding::one_hot_encoding::decoded;
use crate::encoding::problem_encoding::one_hot_encoding::lemma_position_var_range;
use crate::encoding::problem_encoding::one_hot_encoding::lemma_rows_count_bound;
use crate::encoding::problem_encoding::one_hot_encoding::one_hot_clauses;
use crate::encoding::problem_encoding::one_hot_encoding::position_var;
use crate::encoding::problem_encoding::one_hot_encoding::true_vars;
use crate::encoding::sat_encoding::binary_arithmetic::BinaryNumber;
use crate::encoding::sat_encoding::binary_arithmetic::copy_lits;
use crate::encoding::sat_encoding::binary_arithmetic::exact_equals_encoding;
use crate::encoding::sat_encoding::binary_arithmetic::greater_than_logical_encoding;
use crate::encoding::sat_encoding::binary_arithmetic::lemma_bitlength_monotone;
use crate::encoding::sat_encoding::binary_arithmetic::lit_neg;
use crate::encoding::sat_encoding::binary_arithmetic::lit_pos;
use crate::encoding::sat_encoding::binary_arithmetic::not_equals_constant_encoding;
use crate::encoding::sat_encoding::binary_arithmetic::spec_bitlength;
use crate::encoding::sat_encoding::binary_arithmetic::value;
use crate::encoding::sat_encoding::binmerge_native::add_unit;
use crate::encoding::sat_encoding::binmerge_native::binmerge_processor;
use crate::encoding::sat_encoding::binmerge_native::has_open_job;
use crate::encoding::sat_encoding::binmerge_native::lemma_max_open_bound;
use crate::encoding::sat_encoding::binmerge_native::max_open_weight;
use crate::encoding::sat_encoding::binmerge_native::merge_inputs;
use crate::encoding::sat_encoding::binmerge_native::positions_of;
use crate::encoding::sat_encoding::binmerge_native::room_for;
use crate::problem_instance::partial_solution::PartialSolution;
use crate::problem_instance::partial_solution::copy_usizes;
use crate::problem_instance::problem_instance::ProblemInstance;
use crate::problem_instance::solution::Solution;

verus! {

/// The inputs of the interchangeability encoding: those of the merging encodings, at
/// least one processor, and on every processor but the last, every open job has a
/// positive size that fits in the room left.
pub open spec fn inter_inputs(ps: &PartialSolution, makespan: usize) -> bool {
    let n = ps.instance.num_jobs as int;
    let m = ps.instance.num_processors as int;
    &&& merge_inputs(ps, makespan)
    &&& m >= 1
    &&& forall|p: int, j: int| 0 <= p < m - 1 && 0 <= j < n && #[trigger] open_on(ps, j, p) ==> 1
        <= ps.instance.job_sizes@[j] <= makespan - ps.assigned_makespan@[p]
}

/// A row of `len` empty entries.
fn empty_row(len: usize) -> (r: Vec<Option<usize>>)
    ensures
        r.len() == len,
        forall|k: int| 0 <= k < len ==> (#[trigger] r@[k]) is None,
{
    let mut r: Vec<Option<usize>> = Vec::new();
    let mut k: usize = 0;
    while k < len
        invariant
            k <= len,
            r.len() == k,
            forall|i: int| 0 <= i < k ==> (#[trigger] r@[i]) is None,
        decreases len - k,
    {
        r.push(None);
        k = k + 1;
    }
    r
}

/// The clause `lits` with the literal `l` added.
fn with_literal(lits: &Vec<i32>, l: i32) -> (c: Clause)
    requires
        zero_free(lits@),
        l != 0,
    ensures
        c.vars@ == lits@.push(l),
        zero_free(c.vars@),
{
    let mut vars = copy_lits(lits);
    vars.push(l);
    c_of(vars)
}

fn c_of(vars: Vec<i32>) -> (c: Clause)
    ensures
        c.vars@ == vars@,
{
    Clause { vars }
}

#[derive(Clone)]
pub struct BinmergeInterEncoder {
    one_hot: OneHotProblemEncoding,
    sorted: Vec<Vec<Vec<usize>>>,
    merged: Vec<Vec<Vec<usize>>>,
    sum_vals: Vec<Vec<usize>>,
    clauses: Clauses,
}

/// Every assignment that satisfies `cs` keeps the binary load digits `digits[p]` of each
/// processor `p` below `upto` that has an open job within the room its fixed jobs leave
/// under `makespan`.
pub open spec fn loads_within(
    ps: &PartialSolution,
    makespan: usize,
    digits: Seq<Vec<usize>>,
    cs: Seq<Seq<i32>>,
    upto: int,
) -> bool {
    forall|a: spec_fn(int) -> bool, p: int|
        0 <= p < upto && has_open_job(ps, p) && all_sat(a, cs) ==> #[trigger] value(a, digits[p]@)
            + ps.assigned_makespan@[p] <= makespan
}

/// Adding clauses keeps every bound that the earlier clauses set.
pub proof fn lemma_loads_within_grow(
    ps: &PartialSolution,
    makespan: usize,
    digits: Seq<Vec<usize>>,
    pre: Seq<Seq<i32>>,
    cs: Seq<Seq<i32>>,
    upto: int,
)
    requires
        loads_within(ps, makespan, digits, pre, upto),
        starts_with(cs, pre),
    ensures
        loads_within(ps, makespan, digits, cs, upto),
{
    assert forall|a: spec_fn(int) -> bool, p: int|
        0 <= p < upto && has_open_job(ps, p) && all_sat(a, cs) implies #[trigger] value(a, digits[p]@)
            + ps.assigned_makespan@[p] <= makespan by {
        lemma_starts_with_sat(a, cs, pre);
    }
}

impl BinmergeInterEncoder {
    pub fn new() -> (e: BinmergeInterEncoder)
        ensures
            e.pending().wf(),
            e.pending()@ == Seq::<Seq<i32>>::empty(),
            e.digits().len() == 0,
            e.one_hot().var_name_generator.spec_peek() == 1,
            e.one_hot().position_vars.len() == 0,
            e.one_hot().clauses@ == Seq::<Seq<i32>>::empty(),
            e.levels().0.len() == 0,
            e.levels().1.len() == 0,
    {
        BinmergeInterEncoder {
            one_hot: OneHotProblemEncoding::new(),
            sorted: Vec::new(),
            merged: Vec::new(),
            sum_vals: Vec::new(),
            clauses: Clauses::new(),
        }
    }

    /// The one-hot part of the encoding.
    pub closed spec fn one_hot(&self) -> OneHotProblemEncoding {
        self.one_hot
    }

    /// The network clauses not yet handed out.
    pub closed spec fn pending(&self) -> Clauses {
        self.clauses
    }

    /// The binary digits of the load of each processor, least significant first; empty for
    /// a processor without an open job.
    pub closed spec fn digits(&self) -> Seq<Vec<usize>> {
        self.sum_vals@
    }

    /// The sorted counts per bit level, and the merged counts per bit level, of each
    /// processor.
    pub closed spec fn levels(&self) -> (Seq<Vec<Vec<usize>>>, Seq<Vec<Vec<usize>>>) {
        (self.sorted@, self.merged@)
    }
}

impl Encoder for BinmergeInterEncoder {
    open spec fn encode_requires(&self, partial_solution: &PartialSolution, makespan: usize) -> bool {
        inter_inputs(partial_solution, makespan)
    }

    closed spec fn encoded(&self) -> bool {
        self.clauses.wf() && self.one_hot.clauses.wf()
    }

    closed spec fn decode_requires(&self, instance: &ProblemInstance, solution: &Vec<i32>) -> bool {
        let t = true_vars(solution@);
        let pv = self.one_hot.position_vars@;
        &&& self.one_hot.fits(instance)
        &&& instance.wf()
        &&& decoded(pv, t, pv.len() as int).len() == pv.len()
        &&& forall|p: int| 0 <= p < instance.num_processors ==> #[trigger] crate::common::common::load(
            instance.job_sizes@,
            decoded(pv, t, pv.len() as int),
            p,
            instance.num_jobs as int,
        ) <= usize::MAX
    }

    /// On success the one-hot part is that of `partial_solution`, and every processor has
    /// its network in order (an empty one when no job is open on it) whose binary digits
    /// are valid variables; every assignment that satisfies the clauses keeps the digits of a
    /// processor with an open job within the room that its fixed jobs leave under `makespan`.
    /// It fails when the time runs out, when the clauses exceed
    /// `max_num_clauses` before a processor, or when the variables would not fit in a
    /// literal.
    fn basic_encode(
        &mut self,
        partial_solution: &PartialSolution,
        makespan: usize,
        timeout: &Timeout,
        max_num_clauses: usize,
    ) -> (r: bool)
        ensures
            !r ==> final(self).pending() == old(self).pending(),
            r && partial_solution.instance.num_processors >= 1 ==> max_num_clauses >= 1,
            r ==> loads_within(
                partial_solution,
                makespan,
                final(self).digits(),
                final(self).pending()@,
                partial_solution.instance.num_processors as int,
            ),
            r ==> {
                let pa = partial_solution.possible_allocations@;
                let n = partial_solution.instance.num_jobs as int;
                let m = partial_solution.instance.num_processors as int;
                &&& positions_of(final(self).one_hot().position_vars@, partial_solution)
                &&& final(self).one_hot().clauses@ == one_hot_clauses(pa, m, n)
                &&& final(self).digits().len() == m
                &&& final(self).levels().0.len() == m
                &&& final(self).levels().1.len() == m
                &&& forall|k: int| 0 <= k < m ==> all_valid(#[trigger] final(self).digits()[k]@)
            },
    {
        let ghost pa = partial_solution.possible_allocations@;
        let n = partial_solution.instance.num_jobs;
        let m = partial_solution.instance.num_processors;
        self.one_hot.encode(partial_solution);
        proof {
            lemma_rows_count_bound(pa, m as int, n as int);
        }
        let mut clauses: Clauses = Clauses::new();
        let false_var = self.one_hot.var_name_generator.next();
        add_unit(&mut clauses, lit_neg(false_var));
        let mut all_sorted: Vec<Vec<Vec<usize>>> = Vec::new();
        let mut all_merged: Vec<Vec<Vec<usize>>> = Vec::new();
        let mut all_sum_vals: Vec<Vec<usize>> = Vec::new();
        let mut proc: usize = 0;
        while proc < m
            invariant
                proc == 0 ==> clauses@.len() >= 1,
                proc > 0 ==> max_num_clauses >= 1,
                self.clauses == old(self).clauses,
                pa == partial_solution.possible_allocations@,
                n == partial_solution.instance.num_jobs,
                m == partial_solution.instance.num_processors,
                inter_inputs(partial_solution, makespan),
                positions_of(self.one_hot.position_vars@, partial_solution),
                self.one_hot.clauses@ == one_hot_clauses(pa, m as int, n as int),
                self.one_hot.clauses.wf(),
                valid_var(false_var as int),
                1 <= self.one_hot.var_name_generator.spec_peek() <= i32::MAX + 1,
                clauses.wf(),
                proc <= m,
                all_sum_vals.len() == proc,
                all_sorted.len() == proc,
                all_merged.len() == proc,
                forall|k: int| 0 <= k < proc ==> all_valid(#[trigger] all_sum_vals@[k]@),
                loads_within(partial_solution, makespan, all_sum_vals@, clauses@, proc as int),
            decreases m - proc,
        {
            if timeout.time_finished() || max_num_clauses < clauses.get_num_clauses() {
                return false;
            }
            let room = makespan - partial_solution.assigned_makespan[proc];
            let ghost before = all_sum_vals@;
            let max_weight = match max_open_weight(partial_solution, proc) {
                Some(w) => w,
                None => {
                    all_merged.push(Vec::new());
                    all_sorted.push(Vec::new());
                    all_sum_vals.push(Vec::new());
                    proof {
                        assert forall|k: int| 0 <= k < proc + 1 implies all_valid(#[trigger] all_sum_vals@[k]@) by {
                            if k < proc {
                                assert(all_sum_vals@[k] == before[k]);
                            }
                        }
                        assert forall|a: spec_fn(int) -> bool, p: int|
                            0 <= p < proc + 1 && has_open_job(partial_solution, p) && all_sat(a, clauses@) implies
                            #[trigger] value(a, all_sum_vals@[p]@) + partial_solution.assigned_makespan@[p] <= makespan by {
                            assert(all_sum_vals@[p] == before[p]);
                        }
                    }
                    proc = proc + 1;
                    continue;
                },
            };
            proof {
                lemma_max_open_bound(partial_solution, proc as int, n as int, (usize::MAX / 2) as int);
            }
            let ghost before_clauses = clauses@;
            let network = binmerge_processor(
                partial_solution,
                &self.one_hot.position_vars,
                proc,
                room,
                max_weight,
                false_var,
                true,
                &mut self.one_hot.var_name_generator,
                &mut clauses,
            );
            let (sorted, merged, sum_val) = match network {
                Some(t) => t,
                None => {
                    return false;
                },
            };
            let final_sum = BinaryNumber::new_from_vec(copy_usizes(&sum_val), room);
            all_merged.push(merged);
            all_sorted.push(sorted);
            all_sum_vals.push(sum_val);
            let ghost cp = clauses@;
            proof {
                assert forall|k: int| 0 <= k < proc + 1 implies all_valid(#[trigger] all_sum_vals@[k]@) by {
                    if k < proc {
                        assert(all_sum_vals@[k] == before[k]);
                    }
                }
                assert forall|a: spec_fn(int) -> bool, p: int|
                    0 <= p < proc + 1 && has_open_job(partial_solution, p) && all_sat(a, cp) implies
                    #[trigger] value(a, all_sum_vals@[p]@) + partial_solution.assigned_makespan@[p] <= makespan by {
                    lemma_starts_with_sat(a, cp, before_clauses);
                    if p < proc {
                        assert(all_sum_vals@[p] == before[p]);
                    }
                }
            }
            let mut job: usize = 0;
            while job < n
                invariant
                    self.clauses == old(self).clauses,
                    pa == partial_solution.possible_allocations@,
                    n == partial_solution.instance.num_jobs,
                    m == partial_solution.instance.num_processors,
                    inter_inputs(partial_solution, makespan),
                    positions_of(self.one_hot.position_vars@, partial_solution),
                    self.one_hot.clauses@ == one_hot_clauses(pa, m as int, n as int),
                    self.one_hot.clauses.wf(),
                    valid_var(false_var as int),
                    1 <= self.one_hot.var_name_generator.spec_peek() <= i32::MAX + 1,
                    all_sum_vals.len() == proc + 1,
                    all_sorted.len() == proc + 1,
                    all_merged.len() == proc + 1,
                    forall|k: int| 0 <= k < proc + 1 ==> all_valid(#[trigger] all_sum_vals@[k]@),
                    proc < m,
                    room <= usize::MAX / 2,
                    final_sum.wf(),
                    final_sum.max == room,
                    final_sum.bit_length == spec_bitlength(room as nat),
                    clauses.wf(),
                    starts_with(clauses@, cp),
                    loads_within(partial_solution, makespan, all_sum_vals@, cp, proc + 1),
                    job <= n,
                decreases n - job,
            {
                let open = partial_solution.possible_allocations[job].len() > 1
                    && crate::encoding::problem_encoding::one_hot_encoding::contains_usize(
                    &partial_solution.possible_allocations[job],
                    proc,
                );
                let job_size = partial_solution.instance.job_sizes[job];
                if open && job_size <= room {
                    let fur_val = room - job_size;
                    proof {
                        lemma_bitlength_monotone(fur_val as nat, room as nat);
                    }
                    let ne = not_equals_constant_encoding(&final_sum, fur_val);
                    let mut other_proc: usize = proc;
                    while other_proc < m
                        invariant
                            self.clauses == old(self).clauses,
                            pa == partial_solution.possible_allocations@,
                            n == partial_solution.instance.num_jobs,
                            m == partial_solution.instance.num_processors,
                            inter_inputs(partial_solution, makespan),
                            positions_of(self.one_hot.position_vars@, partial_solution),
                            self.one_hot.clauses@ == one_hot_clauses(pa, m as int, n as int),
                            self.one_hot.clauses.wf(),
                            job < n,
                            zero_free(ne.vars@),
                            clauses.wf(),
                            starts_with(clauses@, cp),
                            other_proc <= m,
                        decreases m - other_proc,
                    {
                        proof {
                            assert(self.one_hot.position_vars@[job as int]@[other_proc as int] == position_var(
                                pa,
                                m as int,
                                job as int,
                                other_proc as int,
                            ));
                        }
                        match self.one_hot.position_vars[job][other_proc] {
                            Some(pos_var) => {
                                proof {
                                    lemma_position_var_range(pa, m as int, n as int, job as int, other_proc as int);
                                }
                                let c = with_literal(&ne.vars, lit_neg(pos_var));
                                clauses.add_clause(c);
                            },
                            None => {},
                        }
                        other_proc = other_proc + 1;
                    }
                }
                job = job + 1;
            }
            proof {
                lemma_loads_within_grow(partial_solution, makespan, all_sum_vals@, cp, clauses@, proc + 1);
            }
            proc = proc + 1;
        }
        let ghost cb = clauses@;
        let mut makespan_values: Vec<BinaryNumber> = Vec::new();
        let mut k: usize = 0;
        while k < m
            invariant
                self.clauses == old(self).clauses,
                m == partial_solution.instance.num_processors,
                pa == partial_solution.possible_allocations@,
                n == partial_solution.instance.num_jobs,
                positions_of(self.one_hot.position_vars@, partial_solution),
                self.one_hot.clauses@ == one_hot_clauses(pa, m as int, n as int),
                self.one_hot.clauses.wf(),
                all_sum_vals.len() == m,
                forall|i: int| 0 <= i < m ==> all_valid(#[trigger] all_sum_vals@[i]@),
                k <= m,
                makespan_values.len() == k,
                forall|i: int| 0 <= i < k ==> (#[trigger] makespan_values@[i]).wf() && makespan_values@[i].vars@
                    == all_sum_vals@[i]@,
            decreases m - k,
        {
            let v = BinaryNumber::new_from_vec(copy_usizes(&all_sum_vals[k]), makespan);
            makespan_values.push(v);
            k = k + 1;
        }
        let mut equals_variables: Vec<Vec<Option<usize>>> = Vec::new();
        let mut p1: usize = 0;
        while p1 < m - 1
            invariant
                self.clauses == old(self).clauses,
                m == partial_solution.instance.num_processors,
                pa == partial_solution.possible_allocations@,
                n == partial_solution.instance.num_jobs,
                positions_of(self.one_hot.position_vars@, partial_solution),
                self.one_hot.clauses@ == one_hot_clauses(pa, m as int, n as int),
                self.one_hot.clauses.wf(),
                all_sum_vals.len() == m,
                forall|i: int| 0 <= i < m ==> all_valid(#[trigger] all_sum_vals@[i]@),
                m >= 1,
                makespan_values.len() == m,
                forall|i: int| 0 <= i < m ==> (#[trigger] makespan_values@[i]).wf(),
                p1 <= m - 1,
                equals_variables.len() == p1,
                forall|i: int| 0 <= i < p1 ==> (#[trigger] equals_variables@[i]).len() == m,
                forall|i: int, j: int| 0 <= i < p1 && i < j < m ==> (#[trigger] equals_variables@[i]@[j]) is Some,
                forall|i: int, j: int| 0 <= i < p1 && 0 <= j < m && (#[trigger] equals_variables@[i]@[j]) is Some ==> valid_var(
                    equals_variables@[i]@[j]->0 as int,
                ),
                1 <= self.one_hot.var_name_generator.spec_peek() <= i32::MAX + 1,
                clauses.wf(),
                starts_with(clauses@, cb),
            decreases m - 1 - p1,
        {
            let mut row = empty_row(m);
            let mut p2: usize = p1 + 1;
            while p2 < m
                invariant
                    self.clauses == old(self).clauses,
                    m == partial_solution.instance.num_processors,
                    pa == partial_solution.possible_allocations@,
                    n == partial_solution.instance.num_jobs,
                    positions_of(self.one_hot.position_vars@, partial_solution),
                    self.one_hot.clauses@ == one_hot_clauses(pa, m as int, n as int),
                    self.one_hot.clauses.wf(),
                    all_sum_vals.len() == m,
                    forall|i: int| 0 <= i < m ==> all_valid(#[trigger] all_sum_vals@[i]@),
                    makespan_values.len() == m,
                    forall|i: int| 0 <= i < m ==> (#[trigger] makespan_values@[i]).wf(),
                    p1 < m - 1,
                    p1 + 1 <= p2 <= m,
                    row.len() == m,
                    forall|j: int| p1 < j < p2 ==> (#[trigger] row@[j]) is Some,
                    forall|j: int| 0 <= j < m && (#[trigger] row@[j]) is Some ==> valid_var(row@[j]->0 as int),
                    1 <= self.one_hot.var_name_generator.spec_peek() <= i32::MAX + 1,
                    clauses.wf(),
                    starts_with(clauses@, cb),
                decreases m - p2,
            {
                let a = &makespan_values[p1];
                let b = &makespan_values[p2];
                if a.bit_length > 64 || b.bit_length > 64 {
                    return false;
                }
                if !room_for(self.one_hot.var_name_generator.peek(), (2 + a.bit_length + b.bit_length) as u64) {
                    return false;
                }
                let (mut equals_clauses, equals_var) = exact_equals_encoding(
                    a,
                    b,
                    &mut self.one_hot.var_name_generator,
                );
                clauses.add_many_clauses(&mut equals_clauses);
                row.set(p2, Some(equals_var));
                p2 = p2 + 1;
            }
            equals_variables.push(row);
            p1 = p1 + 1;
        }
        let mut processor: usize = 0;
        while processor < m - 1
            invariant
                self.clauses == old(self).clauses,
                pa == partial_solution.possible_allocations@,
                n == partial_solution.instance.num_jobs,
                m == partial_solution.instance.num_processors,
                m >= 1,
                inter_inputs(partial_solution, makespan),
                positions_of(self.one_hot.position_vars@, partial_solution),
                self.one_hot.clauses@ == one_hot_clauses(pa, m as int, n as int),
                self.one_hot.clauses.wf(),
                all_sum_vals.len() == m,
                forall|i: int| 0 <= i < m ==> all_valid(#[trigger] all_sum_vals@[i]@),
                equals_variables.len() == m - 1,
                forall|i: int| 0 <= i < m - 1 ==> (#[trigger] equals_variables@[i]).len() == m,
                forall|i: int, j: int| 0 <= i < m - 1 && i < j < m ==> (#[trigger] equals_variables@[i]@[j]) is Some,
                forall|i: int, j: int| 0 <= i < m - 1 && 0 <= j < m && (#[trigger] equals_variables@[i]@[j]) is Some ==> valid_var(
                    equals_variables@[i]@[j]->0 as int,
                ),
                1 <= self.one_hot.var_name_generator.spec_peek() <= i32::MAX + 1,
                clauses.wf(),
                starts_with(clauses@, cb),
                processor <= m - 1,
            decreases m - 1 - processor,
        {
            let remaining_makespan = makespan - partial_solution.assigned_makespan[processor];
            let mut greater_than_vars = empty_row(remaining_makespan);
            let proc_makespan_val = BinaryNumber::new_from_vec(
                copy_usizes(&all_sum_vals[processor]),
                remaining_makespan,
            );
            assert(proc_makespan_val.wf());
            let mut job: usize = 0;
            while job < n
                invariant
                    self.clauses == old(self).clauses,
                    pa == partial_solution.possible_allocations@,
                    n == partial_solution.instance.num_jobs,
                    m == partial_solution.instance.num_processors,
                    inter_inputs(partial_solution, makespan),
                    positions_of(self.one_hot.position_vars@, partial_solution),
                    self.one_hot.clauses@ == one_hot_clauses(pa, m as int, n as int),
                    self.one_hot.clauses.wf(),
                    processor < m - 1,
                    remaining_makespan == makespan - partial_solution.assigned_makespan@[processor as int],
                    remaining_makespan <= usize::MAX / 2,
                    proc_makespan_val.wf(),
                    greater_than_vars.len() == remaining_makespan,
                    forall|k: int| 0 <= k < remaining_makespan && (#[trigger] greater_than_vars@[k]) is Some ==> valid_var(
                        greater_than_vars@[k]->0 as int,
                    ),
                    equals_variables.len() == m - 1,
                    forall|i: int| 0 <= i < m - 1 ==> (#[trigger] equals_variables@[i]).len() == m,
                    forall|i: int, j: int| 0 <= i < m - 1 && i < j < m ==> (#[trigger] equals_variables@[i]@[j]) is Some,
                    forall|i: int, j: int| 0 <= i < m - 1 && 0 <= j < m && (#[trigger] equals_variables@[i]@[j]) is Some ==> valid_var(
                        equals_variables@[i]@[j]->0 as int,
                    ),
                    1 <= self.one_hot.var_name_generator.spec_peek() <= i32::MAX + 1,
                    clauses.wf(),
                    starts_with(clauses@, cb),
                    job <= n,
                decreases n - job,
            {
                proof {
                    assert(self.one_hot.position_vars@[job as int]@[processor as int] == position_var(
                        pa,
                        m as int,
                        job as int,
                        processor as int,
                    ));
                }
                if partial_solution.is_assigned(job) || self.one_hot.position_vars[job][processor].is_none() {
                    job = job + 1;
                    continue;
                }
                proof {
                    assert(allowed(pa, job as int, processor as int));
                    assert(pa[job as int]@.contains(processor));
                    assert(pa[job as int]@.len() > 1);
                    assert(open_on(partial_solution, job as int, processor as int));
                }
                let max_insertion_val = remaining_makespan - partial_solution.instance.job_sizes[job];
                let gt = match greater_than_vars[max_insertion_val] {
                    Some(v) => v,
                    None => {
                        if !room_for(self.one_hot.var_name_generator.peek(), 2) {
                            return false;
                        }
                        let (mut gt_clauses, gt) = greater_than_logical_encoding(
                            &proc_makespan_val,
                            max_insertion_val,
                            &mut self.one_hot.var_name_generator,
                        );
                        clauses.add_many_clauses(&mut gt_clauses);
                        greater_than_vars.set(max_insertion_val, Some(gt));
                        gt
                    },
                };
                let mut processor2: usize = processor + 1;
                while processor2 < m
                    invariant
                        self.clauses == old(self).clauses,
                        pa == partial_solution.possible_allocations@,
                        n == partial_solution.instance.num_jobs,
                        m == partial_solution.instance.num_processors,
                        positions_of(self.one_hot.position_vars@, partial_solution),
                        self.one_hot.clauses@ == one_hot_clauses(pa, m as int, n as int),
                        self.one_hot.clauses.wf(),
                        1 + n * m <= i32::MAX,
                        job < n,
                        processor < m - 1,
                        processor + 1 <= processor2 <= m,
                        valid_var(gt as int),
                        equals_variables.len() == m - 1,
                        forall|i: int| 0 <= i < m - 1 ==> (#[trigger] equals_variables@[i]).len() == m,
                        forall|i: int, j: int| 0 <= i < m - 1 && i < j < m ==> (#[trigger] equals_variables@[i]@[j]) is Some,
                        forall|i: int, j: int| 0 <= i < m - 1 && 0 <= j < m && (#[trigger] equals_variables@[i]@[j]) is Some ==> valid_var(
                            equals_variables@[i]@[j]->0 as int,
                        ),
                        clauses.wf(),
                        starts_with(clauses@, cb),
                    decreases m - processor2,
                {
                    proof {
                        assert(self.one_hot.position_vars@[job as int]@[processor2 as int] == position_var(
                            pa,
                            m as int,
                            job as int,
                            processor2 as int,
                        ));
                    }
                    match self.one_hot.position_vars[job][processor2] {
                        Some(pos_var) => {
                            proof {
                                lemma_position_var_range(pa, m as int, n as int, job as int, processor2 as int);
                                assert(equals_variables@[processor as int]@[processor2 as int] is Some);
                            }
                            let eq = match equals_variables[processor][processor2] {
                                Some(e) => e,
                                None => {
                                    return false;
                                },
                            };
                            let l1 = lit_neg(eq);
                            let l2 = lit_pos(gt);
                            let l3 = lit_neg(pos_var);
                            let c = c_of(vec![l1, l2, l3]);
                            assert(zero_free(c.vars@)) by {
                                assert(c.vars@ =~= seq![l1, l2, l3]);
                            }
                            clauses.add_clause(c);
                        },
                        None => {},
                    }
                    processor2 = processor2 + 1;
                }
                job = job + 1;
            }
            processor = processor + 1;
        }
        proof {
            lemma_loads_within_grow(partial_solution, makespan, all_sum_vals@, cb, clauses@, m as int);
        }
        self.merged = all_merged;
        self.sorted = all_sorted;
        self.sum_vals = all_sum_vals;
        self.clauses = clauses;
        true
    }

    /// The network clauses followed by the one-hot clauses; the encoder keeps none of them.
    fn output(&mut self) -> (out: Clauses)
        ensures
            out.wf(),
            out@ == old(self).pending()@ + old(self).one_hot().clauses@,
    {
        let mut out = Clauses::new();
        std::mem::swap(&mut out, &mut self.clauses);
        out.add_many_clauses(&mut self.one_hot.clauses);
        out
    }

    fn decode(&self, instance: &ProblemInstance, var_assignment: &Vec<i32>) -> (s: Solution)
        ensures
            s.assignment@ == decoded(self.one_hot().position_vars@, true_vars(var_assignment@), self.one_hot().position_vars.len() as int),
    {
        self.one_hot.decode(instance, var_assignment)
    }

    fn get_num_vars(&self) -> (n: usize)
        ensures
            n == self.one_hot().var_name_generator.spec_peek(),
    {
        self.one_hot.var_name_generator.peek()
    }
}

impl OneHot for BinmergeInterEncoder {
    closed spec fn has_position(&self, job_num: usize, proc_num: usize) -> bool {
        self.one_hot.has_position(job_num, proc_num)
    }

    fn get_position_var(&self, job_num: usize, proc_num: usize) -> (r: Option<usize>)
        ensures
            r == self.one_hot().position_vars[job_num as int]@[proc_num as int],
    {
        self.one_hot.get_position_var(job_num, proc_num)
    }
}

impl OneHotEncoder for BinmergeInterEncoder {}

} // verus!
