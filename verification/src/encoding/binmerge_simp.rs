//! Binary merging with the bound rounded up: the room left on a processor is raised to
//! the next power of two by a job of the difference that is always placed there, so that
//! the bound becomes "the top digit of the load is zero".
use vstd::prelude::*;
use vstd::arithmetic::power2::pow2;
use crate::common::timeout::Timeout;
use crate::encoding::encoder::Clauses;
use crate::encoding::encoder::Encoder;
use crate::encoding::encoder::OneHotEncoder;
use crate::encoding::encoder::VarNameGenerator;
use crate::encoding::encoder::all_valid;
use crate::encoding::encoder::valid_var;
use crate::encoding::encoder::all_sat;
use crate::encoding::encoder::clause_sat;
use crate::encoding::encoder::lit_true;
use crate::encoding::encoder::starts_with;
use crate::encoding::encoder::lemma_starts_with_sat;
use crate::encoding::problem_encoding::one_hot_encoding::OneHot;
use crate::encoding::problem_encoding::one_hot_encoding::OneHotProblemEncoding;
use crate::encoding::problem_encoding::one_hot_encoding::decoded;
use crate::encoding::problem_encoding::one_hot_encoding::lemma_rows_count_bound;
use crate::encoding::problem_encoding::one_hot_encoding::rows_count;
use crate::encoding::problem_encoding::one_hot_encoding::one_hot_clauses;
use crate::encoding::problem_encoding::one_hot_encoding::true_vars;
use crate::encoding::sat_encoding::binary_arithmetic::lemma_bitlength_bounds;
use crate::encoding::sat_encoding::binary_arithmetic::lemma_one_shl;
use crate::encoding::sat_encoding::binary_arithmetic::lit_neg;
use crate::encoding::sat_encoding::binary_arithmetic::lit_pos;
use crate::encoding::sat_encoding::binary_arithmetic::number_bitlength;
use crate::encoding::sat_encoding::binary_arithmetic::spec_bitlength;
use crate::encoding::sat_encoding::binmerge_native::add_unit;
use crate::encoding::sat_encoding::binmerge_native::lemma_level_fits;
use crate::encoding::sat_encoding::binmerge_native::merge_jobs_fit;
use crate::encoding::sat_encoding::binmerge_native::open_jobs_fit;
use crate::encoding::sat_encoding::binmerge_native::has_open_job;
use crate::encoding::sat_encoding::binmerge_native::lemma_max_open_bound;
use crate::encoding::sat_encoding::binmerge_native::lemma_odds_valid;
use crate::encoding::sat_encoding::binmerge_native::max_open_weight;
use crate::encoding::sat_encoding::binmerge_native::merge_bound;
use crate::encoding::sat_encoding::binmerge_native::merge_inputs;
use crate::encoding::sat_encoding::binmerge_native::network_inputs;
use crate::encoding::sat_encoding::binmerge_native::positions_of;
use crate::encoding::sat_encoding::binmerge_native::room_for;
use crate::encoding::sat_encoding::binmerge_native::sorted_level;
use crate::encoding::sat_encoding::cardinality_networks::half_merge;
use crate::encoding::sat_encoding::cardinality_networks::lemma_half_merge;
use crate::encoding::sat_encoding::cardinality_networks::lemma_half_merge_size;
use crate::encoding::sat_encoding::cardinality_networks::split_parity;
use crate::problem_instance::partial_solution::PartialSolution;
use crate::problem_instance::partial_solution::copy_usizes;
use crate::problem_instance::problem_instance::ProblemInstance;
use crate::problem_instance::solution::Solution;

verus! {

/// A processor gets a network when room is left on it and some job is open on it.
pub open spec fn gets_network(ps: &PartialSolution, makespan: usize, p: int) -> bool {
    ps.assigned_makespan@[p] < makespan && has_open_job(ps, p)
}

/// How many of the processors `0..p` get a network.
pub open spec fn network_count(ps: &PartialSolution, makespan: usize, p: int) -> nat
    decreases p,
{
    if p <= 0 {
        0
    } else {
        network_count(ps, makespan, p - 1) + if gets_network(ps, makespan, p - 1) {
            1nat
        } else {
            0nat
        }
    }
}

/// The last merged level of a network keeps at most one output, and every assignment that
/// satisfies `cs` sets that output false: the padded load does not reach the next power of two.
pub open spec fn overflow_off(merged: Vec<Vec<usize>>, cs: Seq<Seq<i32>>) -> bool {
    &&& merged.len() >= 1
    &&& merged@[merged.len() - 1].len() <= 1
    &&& forall|a: spec_fn(int) -> bool|
        merged@[merged.len() - 1].len() == 1 && #[trigger] all_sat(a, cs) ==> !a(
            merged@[merged.len() - 1]@[0] as int,
        )
}

/// Adding clauses keeps the top outputs off.
pub proof fn lemma_overflow_off_grow(merged: Vec<Vec<usize>>, pre: Seq<Seq<i32>>, cs: Seq<Seq<i32>>)
    requires
        overflow_off(merged, pre),
        starts_with(cs, pre),
    ensures
        overflow_off(merged, cs),
{
    assert forall|a: spec_fn(int) -> bool|
        merged@[merged.len() - 1].len() == 1 && #[trigger] all_sat(a, cs) implies !a(
            merged@[merged.len() - 1]@[0] as int,
        ) by {
        lemma_starts_with_sat(a, cs, pre);
    }
}

/// The network of one processor with the room rounded up to a power of two by an extra
/// job that the true variable stands for. `None` where its variables would not fit in a
/// literal, or where the top level keeps more than one output.
fn simp_processor(
    ps: &PartialSolution,
    pv: &Vec<Vec<Option<usize>>>,
    proc: usize,
    room: usize,
    max_weight: usize,
    true_var: usize,
    gen: &mut VarNameGenerator,
    clauses: &mut Clauses,
) -> (r: Option<(Vec<Vec<usize>>, Vec<Vec<usize>>)>)
    requires
        network_inputs(ps, pv@, proc, room, max_weight),
        1 <= room,
        valid_var(true_var as int),
        open_jobs_fit(ps, proc, room),
        1 <= old(gen).spec_peek() <= i32::MAX + 1,
        old(clauses).wf(),
    ensures
        final(clauses).wf(),
        starts_with(final(clauses)@, old(clauses)@),
        r matches Some(t) ==> overflow_off(t.1, final(clauses)@),
        r matches Some(t) ==> {
            &&& t.1.len() == spec_bitlength(room as nat) + 1
            &&& 1 <= final(gen).spec_peek() <= i32::MAX + 1
        },
{
    let room_bits = number_bitlength(room);
    proof {
        lemma_bitlength_bounds(room as nat);
        lemma_one_shl(room_bits);
    }
    let gap = (1usize << room_bits) - room;
    let extra_job_weight = gap - 1;
    let makespan_bitlength = room_bits + 1;
    let weight = if max_weight > extra_job_weight { max_weight } else { extra_job_weight };
    proof {
        vstd::layout::unsigned_int_max_values();
        vstd::arithmetic::power2::lemma2_to64();
        if room_bits + 1 >= usize::BITS {
            vstd::arithmetic::power2::lemma_pow2_unfold(usize::BITS as nat);
        }
        assert(extra_job_weight <= usize::MAX / 2) by {
            let top = (usize::BITS - 1) as nat;
            if room_bits < top {
                vstd::arithmetic::power2::lemma_pow2_strictly_increases(room_bits as nat, top);
            }
            vstd::arithmetic::power2::lemma_pow2_unfold(usize::BITS as nat);
            assert(pow2(usize::BITS as nat) == 2 * pow2(top));
            assert(usize::MAX == pow2(usize::BITS as nat) - 1);
        }
    }
    let bitlength = number_bitlength(weight);
    let ghost c0 = clauses@;
    let mut levels: Vec<Vec<usize>> = Vec::new();
    let mut d: usize = 0;
    while d < bitlength
        invariant
            network_inputs(ps, pv@, proc, room, max_weight),
            valid_var(true_var as int),
            bitlength == spec_bitlength(weight as nat),
            1 <= bitlength < usize::BITS,
            d <= bitlength,
            levels.len() == d,
            forall|k: int| 0 <= k < levels.len() ==> all_valid(#[trigger] levels@[k]@),
            1 <= gen.spec_peek() <= i32::MAX + 1,
            clauses.wf(),
            starts_with(clauses@, c0),
            c0 == old(clauses)@,
            open_jobs_fit(ps, proc, room),
        decreases bitlength - d,
    {
        let extra = if (extra_job_weight >> d) & 1 == 1 {
            Some(true_var)
        } else {
            None
        };
        proof {
            lemma_level_fits(ps, proc, room, d);
        }
        let sorted = match sorted_level(ps, pv, proc, room, d, extra, false, gen, clauses) {
            Some(s) => s,
            None => {
                return None;
            },
        };
        let ghost before = levels@;
        levels.push(sorted);
        proof {
            assert forall|k: int| 0 <= k < levels.len() implies all_valid(#[trigger] levels@[k]@) by {
                if k < before.len() {
                    assert(levels@[k] == before[k]);
                }
            }
        }
        d = d + 1;
    }
    let mut merge_bits: Vec<Vec<usize>> = Vec::new();
    merge_bits.push(copy_usizes(&levels[0]));
    let mut d: usize = 1;
    while d < makespan_bitlength
        invariant
            levels.len() == bitlength,
            forall|k: int| 0 <= k < levels.len() ==> all_valid(#[trigger] levels@[k]@),
            makespan_bitlength == spec_bitlength(room as nat) + 1,
            2 <= makespan_bitlength <= usize::BITS,
            1 <= d <= makespan_bitlength,
            merge_bits.len() == d,
            forall|k: int| 0 <= k < merge_bits.len() ==> all_valid(#[trigger] merge_bits@[k]@),
            1 <= gen.spec_peek() <= i32::MAX + 1,
            clauses.wf(),
            starts_with(clauses@, c0),
            c0 == old(clauses)@,
        decreases makespan_bitlength - d,
    {
        let carry = split_parity(&merge_bits[d - 1], true);
        proof {
            lemma_odds_valid(merge_bits@[d - 1]@);
        }
        let level: Vec<usize> = if d < levels.len() {
            copy_usizes(&levels[d])
        } else {
            Vec::new()
        };
        let shift = makespan_bitlength - d;
        proof {
            lemma_one_shl(shift);
            vstd::arithmetic::power2::lemma_pow2_strictly_increases(0, shift as nat);
            vstd::arithmetic::power2::lemma2_to64();
        }
        let max_true = (1usize << shift) - 1;
        let bound = match merge_bound(level.len(), carry.len()) {
            Some(b) => b,
            None => {
                return None;
            },
        };
        if !room_for(gen.peek(), bound) {
            return None;
        }
        proof {
            lemma_half_merge_size(level@, carry@, max_true as int, gen.spec_peek() as int);
            lemma_half_merge(level@, carry@, max_true as int, gen.spec_peek() as int);
        }
        let (mut c, next_bits) = half_merge(&level, &carry, max_true, gen);
        clauses.add_many_clauses(&mut c);
        let ghost before = merge_bits@;
        merge_bits.push(next_bits);
        proof {
            assert forall|k: int| 0 <= k < merge_bits.len() implies all_valid(#[trigger] merge_bits@[k]@) by {
                if k < before.len() {
                    assert(merge_bits@[k] == before[k]);
                }
            }
        }
        d = d + 1;
    }
    let top = merge_bits.len() - 1;
    if merge_bits[top].len() > 1 {
        return None;
    }
    if merge_bits[top].len() == 1 {
        assert(valid_var(merge_bits@[top as int]@[0] as int));
        let ghost before = clauses@;
        let v = merge_bits[top][0];
        let l = lit_neg(v);
        add_unit(clauses, l);
        proof {
            assert forall|a: spec_fn(int) -> bool| #[trigger] all_sat(a, clauses@) implies !a(v as int) by {
                assert(clauses@[before.len() as int] == seq![l]);
                assert(clause_sat(a, clauses@[before.len() as int]));
                let i = choose|i: int| 0 <= i < seq![l].len() && lit_true(a, #[trigger] seq![l][i]);
                assert(seq![l][i] == l);
            }
        }
    }
    Some((levels, merge_bits))
}

#[derive(Clone)]
pub struct BinmergeSimpEncoder {
    one_hot: OneHotProblemEncoding,
    sorted: Vec<Vec<Vec<usize>>>,
    merged: Vec<Vec<Vec<usize>>>,
    clauses: Clauses,
}

impl BinmergeSimpEncoder {
    pub fn new() -> (e: BinmergeSimpEncoder)
        ensures
            e.pending().wf(),
            e.pending()@ == Seq::<Seq<i32>>::empty(),
            e.one_hot().var_name_generator.spec_peek() == 1,
            e.one_hot().position_vars.len() == 0,
            e.one_hot().clauses@ == Seq::<Seq<i32>>::empty(),
            e.levels().0.len() == 0,
            e.levels().1.len() == 0,
    {
        BinmergeSimpEncoder {
            one_hot: OneHotProblemEncoding::new(),
            sorted: Vec::new(),
            merged: Vec::new(),
            clauses: Clauses::new(),
        }
    }

    /// The one-hot part of the encoding.
    pub closed spec fn one_hot(&self) -> OneHotProblemEncoding {
        self.one_hot
    }

    /// The network clauses not yet handed out.
    pub closed spec fn pending(&self) -> Clauses {
        self.clauses
    }

    /// The sorted counts per bit level, and the merged counts per bit level, of each
    /// processor with a network.
    pub closed spec fn levels(&self) -> (Seq<Vec<Vec<usize>>>, Seq<Vec<Vec<usize>>>) {
        (self.sorted@, self.merged@)
    }
}

impl Encoder for BinmergeSimpEncoder {
    open spec fn encode_requires(&self, partial_solution: &PartialSolution, makespan: usize) -> bool {
        merge_inputs(partial_solution, makespan) && merge_jobs_fit(partial_solution, makespan)
    }

    closed spec fn encoded(&self) -> bool {
        self.clauses.wf() && self.one_hot.clauses.wf()
    }

    closed spec fn decode_requires(&self, instance: &ProblemInstance, solution: &Vec<i32>) -> bool {
        let t = true_vars(solution@);
        let pv = self.one_hot.position_vars@;
        &&& self.one_hot.fits(instance)
        &&& instance.wf()
        &&& decoded(pv, t, pv.len() as int).len() == pv.len()
        &&& forall|p: int| 0 <= p < instance.num_processors ==> #[trigger] crate::common::common::load(
            instance.job_sizes@,
            decoded(pv, t, pv.len() as int),
            p,
            instance.num_jobs as int,
        ) <= usize::MAX
    }

    /// On success the one-hot part is that of `partial_solution`, and every processor with
    /// room left and an open job has a network, in order, of one merged level per digit of
    /// its rounded-up room, whose top output every assignment that satisfies the clauses
    /// sets false. It fails when the time runs out, when the clauses exceed
    /// `max_num_clauses` before a processor, when the variables would not fit in a literal,
    /// or when the top level of a network keeps more than one output.
    fn basic_encode(
        &mut self,
        partial_solution: &PartialSolution,
        makespan: usize,
        timeout: &Timeout,
        max_num_clauses: usize,
    ) -> (r: bool)
        ensures
            !r ==> final(self).pending() == old(self).pending(),
            r && partial_solution.instance.num_processors >= 1 ==> max_num_clauses >= 2,
            r ==> forall|k: int| 0 <= k < final(self).levels().1.len() ==> overflow_off(
                #[trigger] final(self).levels().1[k],
                final(self).pending()@,
            ),
            r ==> 1 + rows_count(partial_solution.possible_allocations@, partial_solution.instance.num_processors as int,
                partial_solution.instance.num_jobs as int) + 2 <= i32::MAX + 1,
            r ==> {
                let pa = partial_solution.possible_allocations@;
                let n = partial_solution.instance.num_jobs as int;
                let m = partial_solution.instance.num_processors as int;
                &&& positions_of(final(self).one_hot().position_vars@, partial_solution)
                &&& final(self).one_hot().clauses@ == one_hot_clauses(pa, m, n)
                &&& final(self).levels().1.len() == network_count(partial_solution, makespan, m)
                &&& final(self).levels().0.len() == final(self).levels().1.len()
            },
    {
        let ghost pa = partial_solution.possible_allocations@;
        let n = partial_solution.instance.num_jobs;
        let m = partial_solution.instance.num_processors;
        self.one_hot.encode(partial_solution);
        proof {
            lemma_rows_count_bound(pa, m as int, n as int);
        }
        if !room_for(self.one_hot.var_name_generator.peek(), 2) {
            return false;
        }
        let mut clauses: Clauses = Clauses::new();
        let false_var = self.one_hot.var_name_generator.next();
        add_unit(&mut clauses, lit_neg(false_var));
        let true_var = self.one_hot.var_name_generator.next();
        add_unit(&mut clauses, lit_pos(true_var));
        let mut all_sorted: Vec<Vec<Vec<usize>>> = Vec::new();
        let mut all_merged: Vec<Vec<Vec<usize>>> = Vec::new();
        let mut proc: usize = 0;
        while proc < m
            invariant
                proc == 0 ==> clauses@.len() >= 2,
                proc > 0 ==> max_num_clauses >= 2,
                self.clauses == old(self).clauses,
                pa == partial_solution.possible_allocations@,
                n == partial_solution.instance.num_jobs,
                m == partial_solution.instance.num_processors,
                merge_inputs(partial_solution, makespan),
                merge_jobs_fit(partial_solution, makespan),
                positions_of(self.one_hot.position_vars@, partial_solution),
                self.one_hot.clauses@ == one_hot_clauses(pa, m as int, n as int),
                self.one_hot.clauses.wf(),
                valid_var(true_var as int),
                1 <= self.one_hot.var_name_generator.spec_peek() <= i32::MAX + 1,
                clauses.wf(),
                proc <= m,
                all_merged.len() == network_count(partial_solution, makespan, proc as int),
                all_sorted.len() == all_merged.len(),
                forall|k: int| 0 <= k < all_merged.len() ==> overflow_off(#[trigger] all_merged@[k], clauses@),
            decreases m - proc,
        {
            if timeout.time_finished() || max_num_clauses < clauses.get_num_clauses() {
                return false;
            }
            let room = makespan - partial_solution.assigned_makespan[proc];
            if room == 0 {
                proc = proc + 1;
                continue;
            }
            let max_weight = match max_open_weight(partial_solution, proc) {
                Some(w) => w,
                None => {
                    proc = proc + 1;
                    continue;
                },
            };
            proof {
                lemma_max_open_bound(partial_solution, proc as int, n as int, (usize::MAX / 2) as int);
                assert(open_jobs_fit(partial_solution, proc, room));
            }
            let ghost before_clauses = clauses@;
            let network = simp_processor(
                partial_solution,
                &self.one_hot.position_vars,
                proc,
                room,
                max_weight,
                true_var,
                &mut self.one_hot.var_name_generator,
                &mut clauses,
            );
            match network {
                Some((sorted, merged)) => {
                    let ghost before = all_merged@;
                    all_sorted.push(sorted);
                    all_merged.push(merged);
                    proof {
                        assert forall|k: int| 0 <= k < all_merged.len() implies overflow_off(#[trigger] all_merged@[k], clauses@) by {
                            if k < before.len() {
                                assert(all_merged@[k] == before[k]);
                                lemma_overflow_off_grow(before[k], before_clauses, clauses@);
                            }
                        }
                    }
                },
                None => {
                    return false;
                },
            }
            proc = proc + 1;
        }
        self.sorted = all_sorted;
        self.merged = all_merged;
        self.clauses = clauses;
        true
    }

    /// The network clauses followed by the one-hot clauses; the encoder keeps none of them.
    fn output(&mut self) -> (out: Clauses)
        ensures
            out.wf(),
            out@ == old(self).pending()@ + old(self).one_hot().clauses@,
    {
        let mut out = Clauses::new();
        std::mem::swap(&mut out, &mut self.clauses);
        out.add_many_clauses(&mut self.one_hot.clauses);
        out
    }

    fn decode(&self, instance: &ProblemInstance, var_assignment: &Vec<i32>) -> (s: Solution)
        ensures
            s.assignment@ == decoded(self.one_hot().position_vars@, true_vars(var_assignment@), self.one_hot().position_vars.len() as int),
    {
        self.one_hot.decode(instance, var_assignment)
    }

    fn get_num_vars(&self) -> (n: usize)
        ensures
            n == self.one_hot().var_name_generator.spec_peek(),
    {
        self.one_hot.var_name_generator.peek()
    }
}

impl OneHot for BinmergeSimpEncoder {
    closed spec fn has_position(&self, job_num: usize, proc_num: usize) -> bool {
        self.one_hot.has_position(job_num, proc_num)
    }

    fn get_position_var(&self, job_num: usize, proc_num: usize) -> (r: Option<usize>)
        ensures
            r == self.one_hot().position_vars[job_num as int]@[proc_num as int],
    {
        self.one_hot.get_position_var(job_num, proc_num)
    }
}

impl OneHotEncoder for BinmergeSimpEncoder {}

} // verus!
