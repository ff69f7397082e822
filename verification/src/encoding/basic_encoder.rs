//! The basic encoding: for each processor, the sizes of the jobs placed on it are added
//! up in binary, and the total is bounded by the makespan.
use vstd::prelude::*;
use crate::common::common::lemma_prefix_total_monotone;
use crate::common::common::load;
use crate::common::common::prefix_total;
use crate::common::timeout::Timeout;
use crate::encoding::encoder::Clauses;
use crate::encoding::encoder::all_sat;
use crate::encoding::encoder::all_valid;
use crate::encoding::encoder::lemma_all_sat_append;
use crate::encoding::encoder::valid_var;
use crate::encoding::encoder::Encoder;
use crate::encoding::encoder::OneHotEncoder;
use crate::encoding::problem_encoding::one_hot_encoding::OneHot;
use crate::encoding::problem_encoding::one_hot_encoding::OneHotProblemEncoding;
use crate::encoding::problem_encoding::one_hot_encoding::allowed;
use crate::encoding::problem_encoding::one_hot_encoding::decoded;
use crate::encoding::problem_encoding::one_hot_encoding::exactly_one;
use crate::encoding::problem_encoding::one_hot_encoding::exactly_one_each;
use crate::encoding::problem_encoding::one_hot_encoding::lemma_decoded_one_hot;
use crate::encoding::problem_encoding::one_hot_encoding::lemma_model_true_vars;
use crate::encoding::problem_encoding::one_hot_encoding::lemma_one_hot;
use crate::encoding::problem_encoding::one_hot_encoding::lemma_position_var_range;
use crate::encoding::problem_encoding::one_hot_encoding::placed;
use crate::encoding::problem_encoding::one_hot_encoding::placed_on;
use crate::encoding::problem_encoding::one_hot_encoding::row_count;
use crate::encoding::problem_encoding::one_hot_encoding::row_read;
use crate::encoding::problem_encoding::one_hot_encoding::rows_count;
use crate::encoding::problem_encoding::one_hot_encoding::one_hot_clauses;
use crate::encoding::problem_encoding::one_hot_encoding::position_var;
use crate::encoding::problem_encoding::one_hot_encoding::true_vars;
use crate::encoding::sat_encoding::binary_arithmetic::BinaryNumber;
use crate::encoding::sat_encoding::binary_arithmetic::bit;
use crate::encoding::sat_encoding::binary_arithmetic::spec_min;
use crate::encoding::sat_encoding::binary_arithmetic::lemma_bitlength_bounds;
use crate::common::common::lemma_load_monotone;
use crate::encoding::sat_encoding::binary_arithmetic::adder_layout;
use crate::encoding::sat_encoding::binary_arithmetic::adder_model;
use crate::encoding::sat_encoding::binary_arithmetic::lemma_bounded_sum_model;
use vstd::arithmetic::power2::pow2;
use crate::encoding::sat_encoding::binary_arithmetic::bits_of;
use crate::encoding::sat_encoding::binary_arithmetic::bits_upto;
use crate::encoding::sat_encoding::binary_arithmetic::lemma_val_bits_upto;
use crate::encoding::sat_encoding::frame::agree_below;
use crate::encoding::sat_encoding::frame::lemma_below_mono;
use crate::encoding::sat_encoding::frame::lemma_below_append;
use crate::encoding::sat_encoding::frame::lemma_all_options_below;
use crate::encoding::sat_encoding::frame::lemma_bounded_sum_below;
use crate::encoding::sat_encoding::frame::lemma_at_most_k_below;
use crate::encoding::sat_encoding::frame::lit_below;
use crate::encoding::encoder::pos;
use crate::encoding::encoder::neg;
use crate::encoding::sat_encoding::frame::lemma_frame;
use crate::encoding::sat_encoding::frame::lemma_implies_single_holds;
use crate::encoding::sat_encoding::frame::seq_below;
use crate::encoding::sat_encoding::frame::vars_below;
use crate::encoding::problem_encoding::one_hot_encoding::placement;
use crate::encoding::problem_encoding::one_hot_encoding::one_hot_round_trip;
use crate::encoding::problem_encoding::one_hot_encoding::lemma_position_var_injective;
use crate::encoding::sat_encoding::binary_arithmetic::all_option_clauses;
use crate::encoding::sat_encoding::binary_arithmetic::fresh_range;
use crate::encoding::sat_encoding::binary_arithmetic::lemma_at_most_k;
use crate::encoding::sat_encoding::binary_arithmetic::lemma_bounded_sum;
use crate::encoding::sat_encoding::binary_arithmetic::lemma_implies_single;
use crate::encoding::sat_encoding::binary_arithmetic::model_assignment;
use crate::encoding::sat_encoding::binary_arithmetic::ne_lits;
use crate::encoding::sat_encoding::binary_arithmetic::spec_at_most_k;
use crate::encoding::sat_encoding::binary_arithmetic::spec_bounded_sum;
use crate::encoding::sat_encoding::binary_arithmetic::sum_out_vars;
use crate::encoding::sat_encoding::binary_arithmetic::value;
use crate::encoding::sat_encoding::binary_arithmetic::at_most_k_encoding;
use crate::encoding::sat_encoding::binary_arithmetic::bounded_sum_encoding;
use crate::encoding::sat_encoding::binary_arithmetic::copy_number;
use crate::encoding::sat_encoding::binary_arithmetic::lemma_bitlength_cap;
use crate::encoding::sat_encoding::binary_arithmetic::lemma_bitlength_half;
use crate::encoding::sat_encoding::binary_arithmetic::lemma_bitlength_monotone;
use crate::encoding::sat_encoding::binary_arithmetic::lemma_bitlength_sum;
use crate::encoding::sat_encoding::binary_arithmetic::n_implies_m_in_j_encoding;
use crate::encoding::sat_encoding::binary_arithmetic::number_bitlength;
use crate::encoding::sat_encoding::binary_arithmetic::spec_bitlength;
use crate::problem_instance::partial_solution::PartialSolution;
use crate::problem_instance::problem_instance::ProblemInstance;
use crate::problem_instance::solution::Solution;

verus! {

/// A number whose length is exactly the bit length of its bound.
pub open spec fn tight(b: BinaryNumber) -> bool {
    b.wf() && b.bit_length == spec_bitlength(b.max as nat)
}

/// Some job among `0..n` may go on processor `p`.
pub open spec fn usable(pa: Seq<Vec<usize>>, n: int, p: int) -> bool {
    exists|j: int| 0 <= j < n && #[trigger] allowed(pa, j, p)
}

/// The inputs that the basic encoding takes: every job may go on the listed processors,
/// each processor can take some job, the sizes and makespan fit in half a `usize`, and
/// the variables fit in a literal: a pair of a job and a processor takes one position
/// variable, at most 64 for its weight and at most 128 for the partial sum it adds to,
/// which 200 per pair covers whatever the sizes.
pub open spec fn basic_inputs(partial_solution: &PartialSolution, makespan: usize) -> bool {
    let pa = partial_solution.possible_allocations@;
    let n = partial_solution.instance.num_jobs as int;
    let m = partial_solution.instance.num_processors as int;
    &&& partial_solution.instance.wf()
    &&& pa.len() >= n
    &&& forall|p: int| 0 <= p < m ==> #[trigger] usable(pa, n, p)
    &&& prefix_total(partial_solution.instance.job_sizes@, n) <= usize::MAX / 2
    &&& makespan <= usize::MAX / 2
    &&& 1 + 200 * (n * m) <= i32::MAX
}

/// The weight numbers: job `j` on processor `p` has a number exactly when the pair is
/// allowed, and it is the job's size.
pub open spec fn weights_ok(
    w: Seq<Vec<Option<BinaryNumber>>>,
    pv: Seq<Vec<Option<usize>>>,
    sizes: Seq<usize>,
    jobs: int,
    m: int,
) -> bool {
    &&& w.len() == jobs
    &&& forall|j: int| 0 <= j < jobs ==> (#[trigger] w[j]).len() == m
    &&& forall|j: int, p: int| 0 <= j < jobs && 0 <= p < m ==> ((#[trigger] w[j]@[p]) is Some <==> pv[j]@[p] is Some)
    &&& forall|j: int, p: int| 0 <= j < jobs && 0 <= p < m && (#[trigger] w[j]@[p]) is Some ==> {
        let b = w[j]@[p]->0;
        &&& tight(b)
        &&& b.max == sizes[j]
    }
}

/// The load that assignment `a` puts on processor `p` through the jobs below `n`: the sizes
/// of the jobs whose variable for `p` it makes true.
pub open spec fn assigned_load(a: spec_fn(int) -> bool, pv: Seq<Vec<Option<usize>>>, sizes: Seq<usize>, p: int, n: int) -> nat
    decreases n,
{
    if n <= 0 {
        0
    } else {
        assigned_load(a, pv, sizes, p, n - 1) + if pv[n - 1]@[p] is Some && a(pv[n - 1]@[p]->0 as int) {
            sizes[n - 1] as nat
        } else {
            0nat
        }
    }
}

/// Every job below `n` fits within `makespan` on its own.
pub open spec fn jobs_fit(sizes: Seq<usize>, n: int, makespan: usize) -> bool {
    forall|j: int| 0 <= j < n ==> #[trigger] sizes[j] <= makespan
}

/// Under `a`, each weight below `upto` in a row whose variable is true is worth `size`.
pub open spec fn row_holds(a: spec_fn(int) -> bool, row: Seq<Option<BinaryNumber>>, vars: Seq<Option<usize>>, size: usize, upto: int) -> bool {
    forall|p: int| 0 <= p < upto && (#[trigger] vars[p]) is Some && a(vars[p]->0 as int) ==> value(a, row[p]->0.vars@) == size
}

/// Every assignment that satisfies `cs` makes the weights of `row` below `upto` hold.
#[verifier::opaque]
pub open spec fn row_forced(cs: Seq<Seq<i32>>, row: Seq<Option<BinaryNumber>>, vars: Seq<Option<usize>>, size: usize, upto: int) -> bool {
    forall|a: spec_fn(int) -> bool| #[trigger] all_sat(a, cs) ==> row_holds(a, row, vars, size, upto)
}

/// Every assignment that satisfies `cs` makes the weights of the first `jobs` rows hold.
#[verifier::opaque]
pub open spec fn rows_forced(cs: Seq<Seq<i32>>, w: Seq<Vec<Option<BinaryNumber>>>, pv: Seq<Vec<Option<usize>>>, sizes: Seq<usize>, jobs: int, m: int) -> bool {
    forall|a: spec_fn(int) -> bool| #[trigger] all_sat(a, cs) ==> forall|j: int| 0 <= j < jobs ==> row_holds(a, #[trigger] w[j]@, pv[j]@, sizes[j], m)
}

/// Every assignment that satisfies `cs` gives the number `sv` at least the load of the jobs
/// below `job` on processor `p`.
#[verifier::opaque]
pub open spec fn sum_forced(cs: Seq<Seq<i32>>, sv: Seq<usize>, pv: Seq<Vec<Option<usize>>>, sizes: Seq<usize>, p: int, job: int) -> bool {
    forall|a: spec_fn(int) -> bool| #[trigger] all_sat(a, cs) ==> value(a, sv) >= assigned_load(a, pv, sizes, p, job)
}

/// Every assignment that satisfies `cs` puts at most `makespan` on each processor below `procs`.
#[verifier::opaque]
pub open spec fn loads_forced(cs: Seq<Seq<i32>>, pv: Seq<Vec<Option<usize>>>, sizes: Seq<usize>, n: int, procs: int, makespan: usize) -> bool {
    forall|a: spec_fn(int) -> bool| #[trigger] all_sat(a, cs) ==> forall|p: int| 0 <= p < procs ==> #[trigger] assigned_load(a, pv, sizes, p, n) <= makespan
}

proof fn lemma_forced_extend(cs: Seq<Seq<i32>>, c: Seq<Seq<i32>>, w: Seq<Vec<Option<BinaryNumber>>>, pv: Seq<Vec<Option<usize>>>, sizes: Seq<usize>, jobs: int, m: int, procs: int, makespan: usize)
    ensures
        rows_forced(cs, w, pv, sizes, jobs, m) ==> rows_forced(cs + c, w, pv, sizes, jobs, m),
        loads_forced(cs, pv, sizes, jobs, procs, makespan) ==> loads_forced(cs + c, pv, sizes, jobs, procs, makespan),
{
    reveal(rows_forced);
    reveal(loads_forced);
    assert forall|a: spec_fn(int) -> bool| #[trigger] all_sat(a, cs + c) implies all_sat(a, cs) by {
        lemma_all_sat_append(a, cs, c);
    }
}

proof fn lemma_row_skip(cs: Seq<Seq<i32>>, row: Seq<Option<BinaryNumber>>, vars: Seq<Option<usize>>, size: usize, upto: int)
    requires
        row_forced(cs, row, vars, size, upto),
        row.len() == upto,
        vars[upto] is None,
    ensures
        row_forced(cs, row.push(None), vars, size, upto + 1),
{
    reveal(row_forced);
    assert forall|a: spec_fn(int) -> bool| #[trigger] all_sat(a, cs) implies row_holds(a, row.push(None), vars, size, upto + 1) by {
        assert(row_holds(a, row, vars, size, upto));
        assert forall|p: int| 0 <= p < upto + 1 && (#[trigger] vars[p]) is Some && a(vars[p]->0 as int) implies value(a, row.push(None)[p]->0.vars@) == size by {
            assert(row.push(None)[p] == row[p]);
        }
    }
}

proof fn lemma_row_weight(cs: Seq<Seq<i32>>, c: Seq<Seq<i32>>, row: Seq<Option<BinaryNumber>>, wn: BinaryNumber, vars: Seq<Option<usize>>, size: usize, upto: int, v: usize)
    requires
        row_forced(cs, row, vars, size, upto),
        row.len() == upto,
        vars[upto] == Some(v),
        valid_var(v as int),
        wn.wf(),
        spec_bitlength(size as nat) <= wn.vars.len(),
        c == all_option_clauses(wn.vars@, seq![size], ne_lits(seq![v], 1), 1),
    ensures
        row_forced(cs + c, row.push(Some(wn)), vars, size, upto + 1),
{
    reveal(row_forced);
    let r2 = row.push(Some(wn));
    assert forall|a: spec_fn(int) -> bool| #[trigger] all_sat(a, cs + c) implies row_holds(a, r2, vars, size, upto + 1) by {
        lemma_all_sat_append(a, cs, c);
        assert(row_holds(a, row, vars, size, upto));
        assert forall|p: int| 0 <= p < upto + 1 && (#[trigger] vars[p]) is Some && a(vars[p]->0 as int) implies value(a, r2[p]->0.vars@) == size by {
            if p < upto {
                assert(r2[p] == row[p]);
            } else {
                lemma_implies_single(a, v, wn.vars@, size);
            }
        }
    }
}

proof fn lemma_row_done(cs: Seq<Seq<i32>>, w: Seq<Vec<Option<BinaryNumber>>>, row: Vec<Option<BinaryNumber>>, pv: Seq<Vec<Option<usize>>>, sizes: Seq<usize>, jobs: int, m: int)
    requires
        rows_forced(cs, w, pv, sizes, jobs, m),
        row_forced(cs, row@, pv[jobs]@, sizes[jobs], m),
        w.len() == jobs,
    ensures
        rows_forced(cs, w.push(row), pv, sizes, jobs + 1, m),
{
    reveal(rows_forced);
    reveal(row_forced);
    let w2 = w.push(row);
    assert forall|a: spec_fn(int) -> bool| #[trigger] all_sat(a, cs) implies forall|j: int| 0 <= j < jobs + 1 ==> row_holds(a, #[trigger] w2[j]@, pv[j]@, sizes[j], m) by {
        assert forall|j: int| 0 <= j < jobs + 1 implies row_holds(a, #[trigger] w2[j]@, pv[j]@, sizes[j], m) by {
            if j < jobs {
                assert(w2[j] == w[j]);
                assert(row_holds(a, w[j]@, pv[j]@, sizes[j], m));
            } else {
                assert(w2[j] == row);
            }
        }
    }
}

/// No job below `job` may go on `p`: nothing is assigned there.
proof fn lemma_load_zero(a: spec_fn(int) -> bool, pv: Seq<Vec<Option<usize>>>, sizes: Seq<usize>, p: int, job: int)
    requires
        forall|j: int| 0 <= j < job ==> (#[trigger] pv[j]@[p]) is None,
    ensures
        assigned_load(a, pv, sizes, p, job) == 0,
    decreases job,
{
    if job > 0 {
        lemma_load_zero(a, pv, sizes, p, job - 1);
        assert(pv[job - 1]@[p] is None);
    }
}

proof fn lemma_sum_start(cs: Seq<Seq<i32>>, w: Seq<Vec<Option<BinaryNumber>>>, pv: Seq<Vec<Option<usize>>>, sizes: Seq<usize>, p: int, job: int, n: int, m: int)
    requires
        rows_forced(cs, w, pv, sizes, n, m),
        0 <= job < n,
        0 <= p < m,
        w[job]@[p] is Some,
        forall|j: int| 0 <= j < job ==> (#[trigger] pv[j]@[p]) is None,
    ensures
        sum_forced(cs, w[job]@[p]->0.vars@, pv, sizes, p, job + 1),
{
    reveal(rows_forced);
    reveal(sum_forced);
    assert forall|a: spec_fn(int) -> bool| #[trigger] all_sat(a, cs) implies value(a, w[job]@[p]->0.vars@) >= assigned_load(a, pv, sizes, p, job + 1) by {
        lemma_load_zero(a, pv, sizes, p, job);
        assert(row_holds(a, w[job]@, pv[job]@, sizes[job], m));
        if pv[job]@[p] is Some && a(pv[job]@[p]->0 as int) {
            assert(value(a, w[job]@[p]->0.vars@) == sizes[job]);
        }
    }
}

proof fn lemma_sum_skip(cs: Seq<Seq<i32>>, sv: Seq<usize>, pv: Seq<Vec<Option<usize>>>, sizes: Seq<usize>, p: int, job: int)
    requires
        sum_forced(cs, sv, pv, sizes, p, job),
        job >= 0,
        pv[job]@[p] is None,
    ensures
        sum_forced(cs, sv, pv, sizes, p, job + 1),
{
    reveal(sum_forced);
    assert forall|a: spec_fn(int) -> bool| #[trigger] all_sat(a, cs) implies value(a, sv) >= assigned_load(a, pv, sizes, p, job + 1) by {
        assert(assigned_load(a, pv, sizes, p, job + 1) == assigned_load(a, pv, sizes, p, job));
    }
}

/// Adding the weight of job `job` on `p` to a number that covers the jobs before it gives
/// a number that covers the jobs up to it, when the sum has room for the longer operand.
proof fn lemma_sum_step(
    cs: Seq<Seq<i32>>,
    c: Seq<Seq<i32>>,
    big: BinaryNumber,
    small: BinaryNumber,
    sv: Seq<usize>,
    w: Seq<Vec<Option<BinaryNumber>>>,
    pv: Seq<Vec<Option<usize>>>,
    sizes: Seq<usize>,
    p: int,
    job: int,
    n: int,
    m: int,
    start: int,
    out: int,
)
    requires
        rows_forced(cs, w, pv, sizes, n, m),
        0 <= job < n,
        0 <= p < m,
        w[job]@[p] is Some,
        ({
            let wn = w[job]@[p]->0;
            ||| (big == wn && small.vars@ == sv)
            ||| (small == wn && big.vars@ == sv)
        }),
        sum_forced(cs, sv, pv, sizes, p, job),
        big.wf(),
        small.wf(),
        1 <= small.bit_length <= big.bit_length <= out <= big.bit_length + 1,
        1 <= start,
        start + out + big.bit_length <= i32::MAX + 1,
        c == spec_bounded_sum(big.vars@, small.vars@, fresh_range(start, out as nat), fresh_range(start + out, big.bit_length as nat)),
    ensures
        sum_forced(cs + c, sum_out_vars(big.vars@, fresh_range(start, out as nat), fresh_range(start + out, big.bit_length as nat)), pv, sizes, p, job + 1),
{
    reveal(rows_forced);
    reveal(sum_forced);
    let s_out = fresh_range(start, out as nat);
    let c_out = fresh_range(start + out, big.bit_length as nat);
    let wn = w[job]@[p]->0;
    assert forall|i: int| 0 <= i < s_out.len() implies valid_var(#[trigger] s_out[i] as int) by {
    }
    assert forall|i: int| 0 <= i < c_out.len() implies valid_var(#[trigger] c_out[i] as int) by {
    }
    assert forall|a: spec_fn(int) -> bool| #[trigger] all_sat(a, cs + c) implies value(a, sum_out_vars(big.vars@, s_out, c_out)) >= assigned_load(a, pv, sizes, p, job + 1) by {
        lemma_all_sat_append(a, cs, c);
        lemma_bounded_sum(a, big.vars@, small.vars@, s_out, c_out);
        assert(row_holds(a, w[job]@, pv[job]@, sizes[job], m));
        assert(value(a, sv) >= assigned_load(a, pv, sizes, p, job));
        if pv[job]@[p] is Some && a(pv[job]@[p]->0 as int) {
            assert(value(a, wn.vars@) == sizes[job]);
        }
    }
}

proof fn lemma_load_bound(cs: Seq<Seq<i32>>, c: Seq<Seq<i32>>, tv: Seq<usize>, pv: Seq<Vec<Option<usize>>>, sizes: Seq<usize>, p: int, n: int, makespan: usize)
    requires
        loads_forced(cs, pv, sizes, n, p, makespan),
        sum_forced(cs, tv, pv, sizes, p, n),
        all_valid(tv),
        c == spec_at_most_k(tv, makespan as nat),
    ensures
        loads_forced(cs + c, pv, sizes, n, p + 1, makespan),
{
    reveal(loads_forced);
    reveal(sum_forced);
    assert forall|a: spec_fn(int) -> bool| #[trigger] all_sat(a, cs + c) implies forall|q: int| 0 <= q < p + 1 ==> #[trigger] assigned_load(a, pv, sizes, q, n) <= makespan by {
        lemma_all_sat_append(a, cs, c);
        lemma_at_most_k(a, tv, makespan as nat);
        assert(forall|q: int| 0 <= q < p ==> #[trigger] assigned_load(a, pv, sizes, q, n) <= makespan);
    }
}

/// A schedule of the `n` jobs, each on a processor below `m` that it may go on.
pub open spec fn sched_ok(pa: Seq<Vec<usize>>, m: int, n: int, sched: Seq<usize>) -> bool {
    &&& sched.len() == n
    &&& forall|i: int| 0 <= i < n ==> #[trigger] sched[i] < m && allowed(pa, i, sched[i] as int)
}

/// No processor below `m` carries more than `makespan` under `sched`.
pub open spec fn sched_fits(sizes: Seq<usize>, sched: Seq<usize>, m: int, n: int, makespan: usize) -> bool {
    forall|p: int| 0 <= p < m ==> #[trigger] load(sizes, sched, p, n) <= makespan
}

/// The weight that job `j` puts on processor `p` under `sched`.
pub open spec fn wval(sizes: Seq<usize>, sched: Seq<usize>, j: int, p: int) -> nat {
    if sched[j] == p {
        sizes[j] as nat
    } else {
        0
    }
}

/// Under `a`, the weights of the first `jobs` rows are those that `sched` puts there.
pub open spec fn weights_for(a: spec_fn(int) -> bool, w: Seq<Vec<Option<BinaryNumber>>>, sizes: Seq<usize>, sched: Seq<usize>, jobs: int, m: int) -> bool {
    forall|j: int, p: int| 0 <= j < jobs && 0 <= p < m && (#[trigger] w[j]@[p]) is Some ==> value(a, w[j]@[p]->0.vars@) == wval(sizes, sched, j, p)
}

/// Under `a`, the weights of `row` (job `j`) below `upto` are those that `sched` puts there.
pub open spec fn row_for(a: spec_fn(int) -> bool, row: Seq<Option<BinaryNumber>>, sizes: Seq<usize>, sched: Seq<usize>, j: int, upto: int) -> bool {
    forall|p: int| 0 <= p < upto && (#[trigger] row[p]) is Some ==> value(a, row[p]->0.vars@) == wval(sizes, sched, j, p)
}

/// `a` agrees with the schedule on the position variables, satisfies `cs`, and gives the
/// weights built so far the schedule's values.
pub open spec fn weight_witness(a: spec_fn(int) -> bool, cs: Seq<Seq<i32>>, p0: int, pa: Seq<Vec<usize>>, m: int, sched: Seq<usize>,
    w: Seq<Vec<Option<BinaryNumber>>>, row: Seq<Option<BinaryNumber>>, sizes: Seq<usize>, job: int, upto: int) -> bool {
    &&& agree_below(a, placement(pa, m, sched), p0)
    &&& all_sat(a, cs)
    &&& weights_for(a, w, sizes, sched, job, m)
    &&& row_for(a, row, sizes, sched, job, upto)
}

/// Every schedule has a witness.
#[verifier::opaque]
pub open spec fn weights_complete(cs: Seq<Seq<i32>>, p0: int, pa: Seq<Vec<usize>>, m: int, n: int,
    w: Seq<Vec<Option<BinaryNumber>>>, row: Seq<Option<BinaryNumber>>, sizes: Seq<usize>, job: int, upto: int) -> bool {
    forall|sched: Seq<usize>| sched_ok(pa, m, n, sched) ==> exists|a: spec_fn(int) -> bool| #[trigger] weight_witness(a, cs, p0, pa, m, sched, w, row, sizes, job, upto)
}

/// `a` agrees with the schedule on the position variables, satisfies `cs`, gives every
/// weight the schedule's value, and gives the running sum of processor `p` the load of the
/// jobs below `job`.
pub open spec fn sum_witness(a: spec_fn(int) -> bool, cs: Seq<Seq<i32>>, p0: int, pa: Seq<Vec<usize>>, m: int, n: int, sched: Seq<usize>,
    w: Seq<Vec<Option<BinaryNumber>>>, sizes: Seq<usize>, sv: Option<Seq<usize>>, p: int, job: int) -> bool {
    &&& agree_below(a, placement(pa, m, sched), p0)
    &&& all_sat(a, cs)
    &&& weights_for(a, w, sizes, sched, n, m)
    &&& (sv matches Some(v) ==> value(a, v) == load(sizes, sched, p, job))
}

/// The variables of a running sum, where there is one.
pub open spec fn sum_vars(s: Option<BinaryNumber>) -> Option<Seq<usize>> {
    match s {
        Some(b) => Some(b.vars@),
        None => None,
    }
}

/// Every schedule that keeps within `makespan` has a witness.
#[verifier::opaque]
pub open spec fn sums_complete(cs: Seq<Seq<i32>>, p0: int, pa: Seq<Vec<usize>>, m: int, n: int,
    w: Seq<Vec<Option<BinaryNumber>>>, sizes: Seq<usize>, makespan: usize, sv: Option<Seq<usize>>, p: int, job: int) -> bool {
    forall|sched: Seq<usize>| sched_ok(pa, m, n, sched) && sched_fits(sizes, sched, m, n, makespan)
        ==> exists|a: spec_fn(int) -> bool| #[trigger] sum_witness(a, cs, p0, pa, m, n, sched, w, sizes, sv, p, job)
}

/// `a` satisfies `cs` and sets the position variables as `sched` places the jobs.
pub open spec fn extends_schedule(a: spec_fn(int) -> bool, cs: Seq<Seq<i32>>, pa: Seq<Vec<usize>>, m: int, n: int, sched: Seq<usize>) -> bool {
    &&& all_sat(a, cs)
    &&& agree_below(a, placement(pa, m, sched), (1 + rows_count(pa, m, n)) as int)
}

/// Every schedule of the `n` jobs on processors they may go on that keeps each of the `m`
/// processors within `makespan` extends to an assignment that satisfies `cs`.
pub open spec fn schedules_extend(cs: Seq<Seq<i32>>, pa: Seq<Vec<usize>>, m: int, n: int, sizes: Seq<usize>, makespan: usize) -> bool {
    forall|sched: Seq<usize>| sched_ok(pa, m, n, sched) && sched_fits(sizes, sched, m, n, makespan)
        ==> exists|a: spec_fn(int) -> bool| #[trigger] extends_schedule(a, cs, pa, m, n, sched)
}

/// A schedule within `makespan` puts no job larger than `makespan` anywhere.
proof fn lemma_fits_jobs(pa: Seq<Vec<usize>>, m: int, n: int, sizes: Seq<usize>, makespan: usize, sched: Seq<usize>)
    requires
        sched_ok(pa, m, n, sched),
        sched_fits(sizes, sched, m, n, makespan),
    ensures
        jobs_fit(sizes, n, makespan),
{
    assert forall|j: int| 0 <= j < n implies #[trigger] sizes[j] <= makespan by {
        let p = sched[j] as int;
        assert(0 <= p < m);
        lemma_load_monotone(sizes, sched, p, j + 1, n);
        lemma_load_monotone(sizes, sched, p, 0, j);
        assert(load(sizes, sched, p, n) <= makespan);
    }
}

proof fn lemma_sums_done(cs: Seq<Seq<i32>>, p0: int, pa: Seq<Vec<usize>>, m: int, n: int,
    w: Seq<Vec<Option<BinaryNumber>>>, sizes: Seq<usize>, makespan: usize)
    requires
        p0 == 1 + rows_count(pa, m, n),
        jobs_fit(sizes, n, makespan) ==> sums_complete(cs, p0, pa, m, n, w, sizes, makespan, None, m, 0),
    ensures
        schedules_extend(cs, pa, m, n, sizes, makespan),
{
    reveal(sums_complete);
    assert forall|sched: Seq<usize>| sched_ok(pa, m, n, sched) && sched_fits(sizes, sched, m, n, makespan)
        implies exists|a: spec_fn(int) -> bool| #[trigger] extends_schedule(a, cs, pa, m, n, sched) by {
        lemma_fits_jobs(pa, m, n, sizes, makespan, sched);
        let a = choose|a: spec_fn(int) -> bool| #[trigger] sum_witness(a, cs, p0, pa, m, n, sched, w, sizes, None, m, 0);
        assert(extends_schedule(a, cs, pa, m, n, sched));
    }
}

/// The numbers read under two assignments that agree below `b` are the same.
proof fn lemma_value_frame(a: spec_fn(int) -> bool, c: spec_fn(int) -> bool, vs: Seq<usize>, b: int)
    requires
        seq_below(vs, b),
        agree_below(a, c, b),
    ensures
        value(a, vs) == value(c, vs),
{
    assert forall|i: int| 0 <= i < vs.len() implies #[trigger] bits_of(a, vs)[i] == bits_of(c, vs)[i] by {
        assert(1 <= vs[i] < b);
        assert(a(vs[i] as int) == c(vs[i] as int));
    }
    assert(bits_of(a, vs) =~= bits_of(c, vs));
}

/// Every weight number built so far lies below `b`.
pub open spec fn weights_below(w: Seq<Vec<Option<BinaryNumber>>>, jobs: int, m: int, b: int) -> bool {
    forall|j: int, p: int| 0 <= j < jobs && 0 <= p < m && (#[trigger] w[j]@[p]) is Some ==> seq_below(w[j]@[p]->0.vars@, b)
}

pub open spec fn row_below(row: Seq<Option<BinaryNumber>>, upto: int, b: int) -> bool {
    forall|p: int| 0 <= p < upto && (#[trigger] row[p]) is Some ==> seq_below(row[p]->0.vars@, b)
}

/// The variable of an allowed pair is true under a schedule's assignment exactly when the
/// schedule puts the job there.
proof fn lemma_placement_var(pa: Seq<Vec<usize>>, m: int, n: int, sched: Seq<usize>, j: int, p: int)
    requires
        sched_ok(pa, m, n, sched),
        0 <= j < n,
        0 <= p < m,
        allowed(pa, j, p),
    ensures
        placement(pa, m, sched)((1 + rows_count(pa, m, j) + row_count(pa, j, p)) as int) == (sched[j] == p),
{
    let v = (1 + rows_count(pa, m, j) + row_count(pa, j, p)) as int;
    if placement(pa, m, sched)(v) {
        let i = choose|i: int| 0 <= i < sched.len() && v == 1 + rows_count(pa, m, i) + row_count(pa, i, #[trigger] sched[i] as int);
        assert(sched[i] < m && allowed(pa, i, sched[i] as int));
        if i != j || sched[i] != p {
            lemma_position_var_injective(pa, m, j, p, i, sched[i] as int);
        }
    }
    if sched[j] == p {
        assert(v == 1 + rows_count(pa, m, j) + row_count(pa, j, sched[j] as int));
    }
}

/// A fresh weight number for the allowed pair `(job, upto)`, with its clauses: every
/// witness extends to one that gives it the schedule's value.
proof fn lemma_weight_step(cs: Seq<Seq<i32>>, c: Seq<Seq<i32>>, p0: int, pa: Seq<Vec<usize>>, m: int, n: int,
    w: Seq<Vec<Option<BinaryNumber>>>, row: Seq<Option<BinaryNumber>>, sizes: Seq<usize>, job: int, upto: int,
    wn: BinaryNumber, b: int, v: usize)
    requires
        weights_complete(cs, p0, pa, m, n, w, row, sizes, job, upto),
        vars_below(cs, b),
        weights_below(w, job, m, b),
        row_below(row, upto, b),
        row.len() == upto,
        p0 <= b,
        1 <= b,
        0 <= job < n,
        0 <= upto < m,
        allowed(pa, job, upto),
        v as int == 1 + rows_count(pa, m, job) + row_count(pa, job, upto),
        valid_var(v as int),
        v < p0,
        wn.wf(),
        wn.bit_length == spec_bitlength(sizes[job] as nat),
        wn.vars@ == Seq::new(wn.bit_length as nat, |i: int| (b + i) as usize),
        b + wn.bit_length <= i32::MAX + 1,
        c == all_option_clauses(wn.vars@, seq![sizes[job]], ne_lits(seq![v], 1), 1),
    ensures
        weights_complete(cs + c, p0, pa, m, n, w, row.push(Some(wn)), sizes, job, upto + 1),
{
    reveal(weights_complete);
    let len = wn.bit_length as int;
    let r2 = row.push(Some(wn));
    assert forall|sched: Seq<usize>| sched_ok(pa, m, n, sched) implies exists|a: spec_fn(int) -> bool|
        #[trigger] weight_witness(a, cs + c, p0, pa, m, sched, w, r2, sizes, job, upto + 1) by {
        let a = choose|a: spec_fn(int) -> bool| #[trigger] weight_witness(a, cs, p0, pa, m, sched, w, row, sizes, job, upto);
        let val = wval(sizes, sched, job, upto);
        let a2 = |x: int| if b <= x < b + len { bit(val, (x - b) as nat) } else { a(x) };
        assert(agree_below(a, a2, b));
        lemma_frame(a, a2, cs, b);
        lemma_placement_var(pa, m, n, sched, job, upto);
        assert(a2(v as int) == a(v as int));
        assert(a(v as int) == placement(pa, m, sched)(v as int));
        lemma_bitlength_monotone(val, sizes[job] as nat);
        assert(bits_of(a2, wn.vars@) =~= bits_upto(val, len as nat));
        lemma_val_bits_upto(val, len as nat);
        assert(value(a2, wn.vars@) == val);
        lemma_implies_single_holds(a2, v, wn.vars@, sizes[job]);
        lemma_all_sat_append(a2, cs, c);
        assert forall|j: int, p: int| 0 <= j < job && 0 <= p < m && (#[trigger] w[j]@[p]) is Some implies value(a2, w[j]@[p]->0.vars@) == wval(sizes, sched, j, p) by {
            lemma_value_frame(a, a2, w[j]@[p]->0.vars@, b);
        }
        assert forall|p: int| 0 <= p < upto + 1 && (#[trigger] r2[p]) is Some implies value(a2, r2[p]->0.vars@) == wval(sizes, sched, job, p) by {
            if p < upto {
                assert(r2[p] == row[p]);
                lemma_value_frame(a, a2, row[p]->0.vars@, b);
            }
        }
        assert(agree_below(a2, placement(pa, m, sched), p0));
        assert(weight_witness(a2, cs + c, p0, pa, m, sched, w, r2, sizes, job, upto + 1));
    }
}

proof fn lemma_weight_skip(cs: Seq<Seq<i32>>, p0: int, pa: Seq<Vec<usize>>, m: int, n: int,
    w: Seq<Vec<Option<BinaryNumber>>>, row: Seq<Option<BinaryNumber>>, sizes: Seq<usize>, job: int, upto: int)
    requires
        weights_complete(cs, p0, pa, m, n, w, row, sizes, job, upto),
        row.len() == upto,
    ensures
        weights_complete(cs, p0, pa, m, n, w, row.push(None), sizes, job, upto + 1),
{
    reveal(weights_complete);
    let r2 = row.push(None);
    assert forall|sched: Seq<usize>| sched_ok(pa, m, n, sched) implies exists|a: spec_fn(int) -> bool|
        #[trigger] weight_witness(a, cs, p0, pa, m, sched, w, r2, sizes, job, upto + 1) by {
        let a = choose|a: spec_fn(int) -> bool| #[trigger] weight_witness(a, cs, p0, pa, m, sched, w, row, sizes, job, upto);
        assert forall|p: int| 0 <= p < upto + 1 && (#[trigger] r2[p]) is Some implies value(a, r2[p]->0.vars@) == wval(sizes, sched, job, p) by {
            assert(r2[p] == row[p]);
        }
        assert(weight_witness(a, cs, p0, pa, m, sched, w, r2, sizes, job, upto + 1));
    }
}

proof fn lemma_weight_row_done(cs: Seq<Seq<i32>>, p0: int, pa: Seq<Vec<usize>>, m: int, n: int,
    w: Seq<Vec<Option<BinaryNumber>>>, row: Vec<Option<BinaryNumber>>, sizes: Seq<usize>, job: int)
    requires
        weights_complete(cs, p0, pa, m, n, w, row@, sizes, job, m),
        w.len() == job,
    ensures
        weights_complete(cs, p0, pa, m, n, w.push(row), Seq::<Option<BinaryNumber>>::empty(), sizes, job + 1, 0),
{
    reveal(weights_complete);
    let w2 = w.push(row);
    let e = Seq::<Option<BinaryNumber>>::empty();
    assert forall|sched: Seq<usize>| sched_ok(pa, m, n, sched) implies exists|a: spec_fn(int) -> bool|
        #[trigger] weight_witness(a, cs, p0, pa, m, sched, w2, e, sizes, job + 1, 0) by {
        let a = choose|a: spec_fn(int) -> bool| #[trigger] weight_witness(a, cs, p0, pa, m, sched, w, row@, sizes, job, m);
        assert forall|j: int, p: int| 0 <= j < job + 1 && 0 <= p < m && (#[trigger] w2[j]@[p]) is Some implies value(a, w2[j]@[p]->0.vars@) == wval(sizes, sched, j, p) by {
            if j < job {
                assert(w2[j] == w[j]);
            } else {
                assert(w2[j] == row);
            }
        }
        assert(weight_witness(a, cs, p0, pa, m, sched, w2, e, sizes, job + 1, 0));
    }
}

proof fn lemma_weights_to_sums(cs: Seq<Seq<i32>>, p0: int, pa: Seq<Vec<usize>>, m: int, n: int,
    w: Seq<Vec<Option<BinaryNumber>>>, sizes: Seq<usize>, makespan: usize)
    requires
        weights_complete(cs, p0, pa, m, n, w, Seq::<Option<BinaryNumber>>::empty(), sizes, n, 0),
    ensures
        sums_complete(cs, p0, pa, m, n, w, sizes, makespan, None, 0, 0),
{
    reveal(weights_complete);
    reveal(sums_complete);
    assert forall|sched: Seq<usize>| sched_ok(pa, m, n, sched) && sched_fits(sizes, sched, m, n, makespan) implies exists|a: spec_fn(int) -> bool|
        #[trigger] sum_witness(a, cs, p0, pa, m, n, sched, w, sizes, None, 0, 0) by {
        let a = choose|a: spec_fn(int) -> bool| #[trigger] weight_witness(a, cs, p0, pa, m, sched, w, Seq::<Option<BinaryNumber>>::empty(), sizes, n, 0);
        assert(sum_witness(a, cs, p0, pa, m, n, sched, w, sizes, None, 0, 0));
    }
}

/// Under a schedule, a processor that no job below `job` may go on carries nothing from them.
proof fn lemma_load_none_allowed(pa: Seq<Vec<usize>>, m: int, n: int, sizes: Seq<usize>, sched: Seq<usize>, p: int, job: int)
    requires
        sched_ok(pa, m, n, sched),
        0 <= job <= n,
        forall|j: int| 0 <= j < job ==> !allowed(pa, j, p),
    ensures
        load(sizes, sched, p, job) == 0,
    decreases job,
{
    if job > 0 {
        lemma_load_none_allowed(pa, m, n, sizes, sched, p, job - 1);
        assert(sched[job - 1] < m && allowed(pa, job - 1, sched[job - 1] as int));
    }
}

proof fn lemma_sum_start_complete(cs: Seq<Seq<i32>>, p0: int, pa: Seq<Vec<usize>>, m: int, n: int,
    w: Seq<Vec<Option<BinaryNumber>>>, sizes: Seq<usize>, makespan: usize, p: int, job: int)
    requires
        sums_complete(cs, p0, pa, m, n, w, sizes, makespan, None, p, job),
        0 <= job < n,
        0 <= p < m,
        w[job]@[p] is Some,
        forall|j: int| 0 <= j < job ==> !allowed(pa, j, p),
    ensures
        sums_complete(cs, p0, pa, m, n, w, sizes, makespan, Some(w[job]@[p]->0.vars@), p, job + 1),
{
    reveal(sums_complete);
    let sv = Some(w[job]@[p]->0.vars@);
    assert forall|sched: Seq<usize>| sched_ok(pa, m, n, sched) && sched_fits(sizes, sched, m, n, makespan) implies exists|a: spec_fn(int) -> bool|
        #[trigger] sum_witness(a, cs, p0, pa, m, n, sched, w, sizes, sv, p, job + 1) by {
        let a = choose|a: spec_fn(int) -> bool| #[trigger] sum_witness(a, cs, p0, pa, m, n, sched, w, sizes, None, p, job);
        lemma_load_none_allowed(pa, m, n, sizes, sched, p, job);
        assert(value(a, w[job]@[p]->0.vars@) == wval(sizes, sched, job, p));
        assert(sum_witness(a, cs, p0, pa, m, n, sched, w, sizes, sv, p, job + 1));
    }
}

proof fn lemma_sum_skip_complete(cs: Seq<Seq<i32>>, p0: int, pa: Seq<Vec<usize>>, m: int, n: int,
    w: Seq<Vec<Option<BinaryNumber>>>, sizes: Seq<usize>, makespan: usize, sv: Option<Seq<usize>>, p: int, job: int)
    requires
        sums_complete(cs, p0, pa, m, n, w, sizes, makespan, sv, p, job),
        0 <= job < n,
        !allowed(pa, job, p),
    ensures
        sums_complete(cs, p0, pa, m, n, w, sizes, makespan, sv, p, job + 1),
{
    reveal(sums_complete);
    assert forall|sched: Seq<usize>| sched_ok(pa, m, n, sched) && sched_fits(sizes, sched, m, n, makespan) implies exists|a: spec_fn(int) -> bool|
        #[trigger] sum_witness(a, cs, p0, pa, m, n, sched, w, sizes, sv, p, job + 1) by {
        let a = choose|a: spec_fn(int) -> bool| #[trigger] sum_witness(a, cs, p0, pa, m, n, sched, w, sizes, sv, p, job);
        assert(allowed(pa, job, sched[job] as int));
        assert(sched[job] != p);
        assert(sum_witness(a, cs, p0, pa, m, n, sched, w, sizes, sv, p, job + 1));
    }
}

/// Adding the weight of job `job` on `p` with a bounded sum: every witness extends, through
/// the sum and carry bits of the addition, to one for the new clauses.
proof fn lemma_sum_step_complete(cs: Seq<Seq<i32>>, c: Seq<Seq<i32>>, p0: int, pa: Seq<Vec<usize>>, m: int, n: int,
    w: Seq<Vec<Option<BinaryNumber>>>, sizes: Seq<usize>, makespan: usize, big: BinaryNumber, small: BinaryNumber,
    sv: Seq<usize>, p: int, job: int, start: int, out: int)
    requires
        sums_complete(cs, p0, pa, m, n, w, sizes, makespan, Some(sv), p, job),
        vars_below(cs, start),
        weights_below(w, n, m, start),
        p0 <= start,
        1 <= start,
        0 <= job < n,
        0 <= p < m,
        w[job]@[p] is Some,
        ({
            let wn = w[job]@[p]->0;
            ||| (big == wn && small.vars@ == sv)
            ||| (small == wn && big.vars@ == sv)
        }),
        big.wf(),
        small.wf(),
        seq_below(big.vars@, start),
        seq_below(small.vars@, start),
        1 <= small.bit_length <= big.bit_length <= out <= big.bit_length + 1,
        start + out + big.bit_length <= i32::MAX + 1,
        forall|sched: Seq<usize>| sched_ok(pa, m, n, sched) && sched_fits(sizes, sched, m, n, makespan)
            ==> #[trigger] load(sizes, sched, p, job + 1) < pow2(out as nat),
        c == spec_bounded_sum(big.vars@, small.vars@, fresh_range(start, out as nat), fresh_range(start + out, big.bit_length as nat)),
    ensures
        sums_complete(cs + c, p0, pa, m, n, w, sizes, makespan,
            Some(sum_out_vars(big.vars@, fresh_range(start, out as nat), fresh_range(start + out, big.bit_length as nat))), p, job + 1),
{
    reveal(sums_complete);
    let s_out = fresh_range(start, out as nat);
    let c_out = fresh_range(start + out, big.bit_length as nat);
    let nv = big.vars@;
    let mv = small.vars@;
    let so = Some(sum_out_vars(nv, s_out, c_out));
    let wn = w[job]@[p]->0;
    assert forall|i: int| 0 <= i < s_out.len() implies valid_var(#[trigger] s_out[i] as int) by {
    }
    assert forall|i: int| 0 <= i < c_out.len() implies valid_var(#[trigger] c_out[i] as int) by {
    }
    assert forall|sched: Seq<usize>| sched_ok(pa, m, n, sched) && sched_fits(sizes, sched, m, n, makespan) implies exists|a: spec_fn(int) -> bool|
        #[trigger] sum_witness(a, cs + c, p0, pa, m, n, sched, w, sizes, so, p, job + 1) by {
        let a = choose|a: spec_fn(int) -> bool| #[trigger] sum_witness(a, cs, p0, pa, m, n, sched, w, sizes, Some(sv), p, job);
        assert(value(a, wn.vars@) == wval(sizes, sched, job, p));
        assert(load(sizes, sched, p, job + 1) == load(sizes, sched, p, job) + wval(sizes, sched, job, p));
        assert(value(a, nv) + value(a, mv) == load(sizes, sched, p, job + 1));
        assert(load(sizes, sched, p, job + 1) < pow2(out as nat));
        assert(adder_layout(nv, mv, start, out)) by {
            assert forall|i: int| 0 <= i < nv.len() implies #[trigger] nv[i] < start by {
                assert(1 <= nv[i] < start);
            }
            assert forall|i: int| 0 <= i < mv.len() implies #[trigger] mv[i] < start by {
                assert(1 <= mv[i] < start);
            }
        }
        lemma_bounded_sum_model(a, nv, mv, start, out);
        let a2 = adder_model(a, nv, mv, start, out);
        assert(agree_below(a, a2, start)) by {
            assert forall|v: int| 1 <= v < start implies #[trigger] a(v) == a2(v) by {
                assert(a2(v) == a(v));
            }
        }
        lemma_frame(a, a2, cs, start);
        lemma_all_sat_append(a2, cs, c);
        lemma_bounded_sum(a2, nv, mv, s_out, c_out);
        lemma_value_frame(a, a2, nv, start);
        lemma_value_frame(a, a2, mv, start);
        assert forall|j: int, q: int| 0 <= j < n && 0 <= q < m && (#[trigger] w[j]@[q]) is Some implies value(a2, w[j]@[q]->0.vars@) == wval(sizes, sched, j, q) by {
            lemma_value_frame(a, a2, w[j]@[q]->0.vars@, start);
        }
        assert(agree_below(a2, placement(pa, m, sched), p0));
        assert(sum_witness(a2, cs + c, p0, pa, m, n, sched, w, sizes, so, p, job + 1));
    }
}

/// Bounding a processor's total by `makespan`: every witness for a schedule within
/// `makespan` satisfies the bound.
proof fn lemma_bound_complete(cs: Seq<Seq<i32>>, c: Seq<Seq<i32>>, p0: int, pa: Seq<Vec<usize>>, m: int, n: int,
    w: Seq<Vec<Option<BinaryNumber>>>, sizes: Seq<usize>, makespan: usize, tv: Seq<usize>, p: int)
    requires
        sums_complete(cs, p0, pa, m, n, w, sizes, makespan, Some(tv), p, n),
        0 <= p < m,
        all_valid(tv),
        c == spec_at_most_k(tv, makespan as nat),
    ensures
        sums_complete(cs + c, p0, pa, m, n, w, sizes, makespan, None, p + 1, 0),
{
    reveal(sums_complete);
    assert forall|sched: Seq<usize>| sched_ok(pa, m, n, sched) && sched_fits(sizes, sched, m, n, makespan) implies exists|a: spec_fn(int) -> bool|
        #[trigger] sum_witness(a, cs + c, p0, pa, m, n, sched, w, sizes, None, p + 1, 0) by {
        let a = choose|a: spec_fn(int) -> bool| #[trigger] sum_witness(a, cs, p0, pa, m, n, sched, w, sizes, Some(tv), p, n);
        assert(load(sizes, sched, p, n) <= makespan);
        lemma_at_most_k(a, tv, makespan as nat);
        lemma_all_sat_append(a, cs, c);
        assert(sum_witness(a, cs + c, p0, pa, m, n, sched, w, sizes, None, p + 1, 0));
    }
}

/// Under every schedule within `makespan`, the load of processor `p` from the jobs up to
/// `job` fits the running sum's bound after adding job `job`'s weight, and its bits.
proof fn lemma_sum_bounds(pa: Seq<Vec<usize>>, m: int, n: int, sizes: Seq<usize>, makespan: usize, p: int, job: int,
    smax: int, wmax: int, maxbl: nat, out: int, newmax: int)
    requires
        forall|sched: Seq<usize>| sched_ok(pa, m, n, sched) && sched_fits(sizes, sched, m, n, makespan)
            ==> #[trigger] load(sizes, sched, p, job) <= smax,
        wmax == sizes[job],
        0 <= job < n,
        0 <= p < m,
        makespan < pow2(maxbl),
        out == spec_min(maxbl as int, spec_bitlength((smax + wmax) as nat) as int),
        newmax == spec_min(smax + wmax, pow2(maxbl) - 1),
        smax >= 0,
    ensures
        forall|sched: Seq<usize>| sched_ok(pa, m, n, sched) && sched_fits(sizes, sched, m, n, makespan)
            ==> #[trigger] load(sizes, sched, p, job + 1) < pow2(out as nat) && load(sizes, sched, p, job + 1) <= newmax,
{
    assert forall|sched: Seq<usize>| sched_ok(pa, m, n, sched) && sched_fits(sizes, sched, m, n, makespan)
        implies #[trigger] load(sizes, sched, p, job + 1) < pow2(out as nat) && load(sizes, sched, p, job + 1) <= newmax by {
        assert(load(sizes, sched, p, job) <= smax);
        lemma_load_monotone(sizes, sched, p, job + 1, n);
        assert(load(sizes, sched, p, n) <= makespan);
        lemma_bitlength_bounds((smax + wmax) as nat);
    }
}

/// Under a schedule, job `job`'s weight on `p` is at most its size, and the first allowed
/// job's weight bounds the load so far.
proof fn lemma_first_load(pa: Seq<Vec<usize>>, m: int, n: int, sizes: Seq<usize>, makespan: usize, p: int, job: int)
    requires
        0 <= job < n,
        0 <= p < m,
        forall|j: int| 0 <= j < job ==> !allowed(pa, j, p),
    ensures
        forall|sched: Seq<usize>| sched_ok(pa, m, n, sched) && sched_fits(sizes, sched, m, n, makespan)
            ==> #[trigger] load(sizes, sched, p, job + 1) <= sizes[job],
{
    assert forall|sched: Seq<usize>| sched_ok(pa, m, n, sched) && sched_fits(sizes, sched, m, n, makespan)
        implies #[trigger] load(sizes, sched, p, job + 1) <= sizes[job] by {
        lemma_load_none_allowed(pa, m, n, sizes, sched, p, job);
    }
}

#[derive(Clone, Debug)]
pub struct BasicEncoder {
    pub problem: OneHotProblemEncoding,
    pub clauses: Clauses,
    pub final_sum_vars: Vec<BinaryNumber>,
    pub weight_on_machine_vars: Vec<Vec<Option<BinaryNumber>>>,
    pub partial_sum_variables: Vec<Vec<Option<BinaryNumber>>>,
}

proof fn lemma_mul_step(a: int, b: int, m: int)
    requires
        0 <= a < b,
        0 <= m,
    ensures
        a * m + m <= b * m,
        0 <= a * m,
{
    assert(a * m + m <= b * m) by (nonlinear_arith)
        requires
            0 <= a < b,
            0 <= m,
    ;
    assert(0 <= a * m) by (nonlinear_arith)
        requires
            0 <= a,
            0 <= m,
    ;
}

impl BasicEncoder {
    /// What a successful `basic_encode` of `partial_solution` for `makespan` leaves: the
    /// one-hot part of the partial solution, and sum clauses under which, where every job
    /// fits within `makespan`, no processor carries more than `makespan`; and every schedule
    /// within `makespan` on allowed processors extends to an assignment that satisfies them.
    pub open spec fn encodes(&self, partial_solution: &PartialSolution, makespan: usize) -> bool {
        let pa = partial_solution.possible_allocations@;
        let n = partial_solution.instance.num_jobs as int;
        let m = partial_solution.instance.num_processors as int;
        let sizes = partial_solution.instance.job_sizes@;
        &&& 1 + n * m <= i32::MAX
        &&& self.problem.position_vars.len() == n
        &&& forall|i: int, j: int| 0 <= i < n && 0 <= j < m ==> (#[trigger] self.problem.position_vars[i]@[j]) == position_var(pa, m, i, j)
        &&& forall|i: int| 0 <= i < n ==> (#[trigger] self.problem.position_vars[i]).len() == m
        &&& self.problem.clauses@ == one_hot_clauses(pa, m, n)
        &&& jobs_fit(sizes, n, makespan) ==> forall|a: spec_fn(int) -> bool| #[trigger] all_sat(a, self.clauses@)
            ==> forall|p: int| 0 <= p < m ==> #[trigger] assigned_load(a, self.problem.position_vars@, sizes, p, n) <= makespan
        &&& schedules_extend(self.clauses@, pa, m, n, sizes, makespan)
    }

    pub fn new() -> (e: BasicEncoder)
        ensures
            e.problem.var_name_generator.spec_peek() == 1,
            e.problem.position_vars.len() == 0,
            e.problem.clauses@ == Seq::<Seq<i32>>::empty(),
            e.clauses.wf(),
            e.clauses@ == Seq::<Seq<i32>>::empty(),
            e.final_sum_vars.len() == 0,
            e.weight_on_machine_vars.len() == 0,
            e.partial_sum_variables.len() == 0,
    {
        BasicEncoder {
            problem: OneHotProblemEncoding::new(),
            clauses: Clauses::new(),
            final_sum_vars: Vec::new(),
            weight_on_machine_vars: Vec::new(),
            partial_sum_variables: Vec::new(),
        }
    }
}

impl Encoder for BasicEncoder {
    open spec fn encode_requires(&self, partial_solution: &PartialSolution, makespan: usize) -> bool {
        basic_inputs(partial_solution, makespan)
    }

    open spec fn encoded(&self) -> bool {
        self.clauses.wf() && self.problem.clauses.wf()
    }

    open spec fn decode_requires(&self, instance: &ProblemInstance, solution: &Vec<i32>) -> bool {
        let t = true_vars(solution@);
        let pv = self.problem.position_vars@;
        &&& self.problem.fits(instance)
        &&& instance.wf()
        &&& decoded(pv, t, pv.len() as int).len() == pv.len()
        &&& forall|p: int| 0 <= p < instance.num_processors ==> #[trigger] load(instance.job_sizes@, decoded(pv, t, pv.len() as int), p, instance.num_jobs as int) <= usize::MAX
    }

    /// On success: the one-hot part is that of `partial_solution`, every allowed pair has a
    /// number that equals the job's size when the pair's variable is true, every processor
    /// has a sum of its numbers, and that sum is at most `makespan`. Where every job fits
    /// within `makespan`, each assignment that satisfies the clauses puts at most `makespan`
    /// on every processor, and each schedule within `makespan` gives such an assignment.
    #[verifier::rlimit(100)]
    #[verifier::spinoff_prover]
    fn basic_encode(
        &mut self,
        partial_solution: &PartialSolution,
        makespan: usize,
        timeout: &Timeout,
        max_num_clauses: usize,
    ) -> (r: bool)
        ensures
            !r ==> final(self).clauses == old(self).clauses,
            r ==> {
                let pa = partial_solution.possible_allocations@;
                let n = partial_solution.instance.num_jobs as int;
                let m = partial_solution.instance.num_processors as int;
                &&& final(self).encodes(partial_solution, makespan)
                &&& weights_ok(final(self).weight_on_machine_vars@, final(self).problem.position_vars@, partial_solution.instance.job_sizes@, n, m)
                &&& final(self).final_sum_vars.len() == m
                &&& forall|p: int| 0 <= p < m ==> (#[trigger] final(self).final_sum_vars[p]).wf()
                &&& final(self).partial_sum_variables.len() == m
                &&& forall|p: int| 0 <= p < m ==> (#[trigger] final(self).partial_sum_variables@[p]).len() == n
                &&& forall|p: int, j: int| 0 <= p < m && 0 <= j < n ==> ((#[trigger] final(self).partial_sum_variables@[p]@[j]) is Some
                    <==> final(self).problem.position_vars@[j]@[p] is Some)
                &&& forall|p: int, j: int| 0 <= p < m && 0 <= j < n && (#[trigger] final(self).partial_sum_variables@[p]@[j]) is Some
                    ==> tight(final(self).partial_sum_variables@[p]@[j]->0)
            },
    {
        let ghost pa = partial_solution.possible_allocations@;
        let ghost sizes = partial_solution.instance.job_sizes@;
        let n = partial_solution.instance.num_jobs;
        let m = partial_solution.instance.num_processors;
        proof {
            assert(n * m <= 200 * (n * m)) by (nonlinear_arith)
                requires
                    n >= 0,
                    m >= 0,
            ;
        }
        self.problem.encode(partial_solution);
        proof {
            crate::encoding::problem_encoding::one_hot_encoding::lemma_rows_count_bound(pa, m as int, n as int);
        }
        let mut clauses: Clauses = Clauses::new();
        let mut weight_on_machine_vars: Vec<Vec<Option<BinaryNumber>>> = Vec::new();
        let ghost p0 = self.problem.var_name_generator.spec_peek() as int;
        proof {
            reveal(rows_forced);
            reveal(weights_complete);
            assert forall|sched: Seq<usize>| sched_ok(pa, m as int, n as int, sched) implies exists|a: spec_fn(int) -> bool|
                #[trigger] weight_witness(a, clauses@, p0, pa, m as int, sched, weight_on_machine_vars@, Seq::<Option<BinaryNumber>>::empty(), sizes, 0, 0) by {
                let a0 = placement(pa, m as int, sched);
                assert(weight_witness(a0, clauses@, p0, pa, m as int, sched, weight_on_machine_vars@, Seq::<Option<BinaryNumber>>::empty(), sizes, 0, 0));
            }
        }
        let ghost mut done: int = 0;
        let mut job: usize = 0;
        while job < n
            invariant
                self.clauses == old(self).clauses,
                pa == partial_solution.possible_allocations@,
                sizes == partial_solution.instance.job_sizes@,
                n == partial_solution.instance.num_jobs,
                m == partial_solution.instance.num_processors,
                sizes.len() == n,
                basic_inputs(partial_solution, makespan),
                job <= n,
                done == job * m,
                0 <= done <= n * m,
                self.problem.position_vars.len() == n,
                forall|i: int, j: int| 0 <= i < n && 0 <= j < m ==> (#[trigger] self.problem.position_vars[i]@[j]) == position_var(pa, m as int, i, j),
                forall|i: int| 0 <= i < n ==> (#[trigger] self.problem.position_vars[i]).len() == m,
                self.problem.clauses@ == one_hot_clauses(pa, m as int, n as int),
                self.problem.clauses.wf(),
                1 <= self.problem.var_name_generator.spec_peek() <= 1 + n * m + 64 * done,
                clauses.wf(),
                weights_ok(weight_on_machine_vars@, self.problem.position_vars@, sizes, job as int, m as int),
                rows_forced(clauses@, weight_on_machine_vars@, self.problem.position_vars@, sizes, job as int, m as int),
                p0 == 1 + rows_count(pa, m as int, n as int),
                p0 <= self.problem.var_name_generator.spec_peek(),
                vars_below(clauses@, self.problem.var_name_generator.spec_peek() as int),
                weights_below(weight_on_machine_vars@, job as int, m as int, self.problem.var_name_generator.spec_peek() as int),
                weights_complete(clauses@, p0, pa, m as int, n as int, weight_on_machine_vars@, Seq::<Option<BinaryNumber>>::empty(), sizes, job as int, 0),
            decreases n - job,
        {
            proof {
                lemma_mul_step(job as int, n as int, m as int);
                lemma_prefix_total_monotone(sizes, job as int, n as int);
            }
            let mut row: Vec<Option<BinaryNumber>> = Vec::new();
            let size = partial_solution.instance.job_sizes[job];
            proof {
                reveal(row_forced);
            }
            proof {
                lemma_bitlength_half(size as nat);
            }
            let mut processor: usize = 0;
            while processor < m
                invariant
                    self.clauses == old(self).clauses,
                    pa == partial_solution.possible_allocations@,
                    sizes == partial_solution.instance.job_sizes@,
                    n == partial_solution.instance.num_jobs,
                    m == partial_solution.instance.num_processors,
                    basic_inputs(partial_solution, makespan),
                    job < n,
                    size == sizes[job as int],
                    size <= usize::MAX / 2,
                    spec_bitlength(size as nat) < usize::BITS <= 64,
                    done == job * m,
                    done + m <= n * m,
                    processor <= m,
                    self.problem.position_vars.len() == n,
                    forall|i: int| 0 <= i < n ==> (#[trigger] self.problem.position_vars[i]).len() == m,
                    forall|i: int, j: int| 0 <= i < n && 0 <= j < m ==> (#[trigger] self.problem.position_vars[i]@[j]) == position_var(pa, m as int, i, j),
                    self.problem.clauses@ == one_hot_clauses(pa, m as int, n as int),
                    self.problem.clauses.wf(),
                    1 <= self.problem.var_name_generator.spec_peek() <= 1 + n * m + 64 * (done + processor),
                    clauses.wf(),
                    row.len() == processor,
                    forall|p: int| 0 <= p < processor ==> ((#[trigger] row@[p]) is Some <==> self.problem.position_vars[job as int]@[p] is Some),
                    forall|p: int| 0 <= p < processor && (#[trigger] row@[p]) is Some ==> tight(row@[p]->0) && row@[p]->0.max == size,
                    weight_on_machine_vars.len() == job,
                    rows_forced(clauses@, weight_on_machine_vars@, self.problem.position_vars@, sizes, job as int, m as int),
                    row_forced(clauses@, row@, self.problem.position_vars@[job as int]@, size, processor as int),
                    p0 == 1 + rows_count(pa, m as int, n as int),
                    p0 <= self.problem.var_name_generator.spec_peek(),
                    vars_below(clauses@, self.problem.var_name_generator.spec_peek() as int),
                    weights_below(weight_on_machine_vars@, job as int, m as int, self.problem.var_name_generator.spec_peek() as int),
                    row_below(row@, processor as int, self.problem.var_name_generator.spec_peek() as int),
                    weights_complete(clauses@, p0, pa, m as int, n as int, weight_on_machine_vars@, row@, sizes, job as int, processor as int),
                decreases m - processor,
            {
                match self.problem.position_vars[job][processor] {
                    Some(v) => {
                        let ghost b = self.problem.var_name_generator.spec_peek() as int;
                        let w = BinaryNumber::new(size, &mut self.problem.var_name_generator);
                        let sizes_vec = vec![size];
                        proof {
                            assert(sizes_vec@[0] == size);
                            assert(1 <= v <= i32::MAX) by {
                                assert(self.problem.position_vars[job as int]@[processor as int] == position_var(pa, m as int, job as int, processor as int));
                                crate::encoding::problem_encoding::one_hot_encoding::lemma_position_var_range(pa, m as int, n as int, job as int, processor as int);
                            }
                        }
                        let mut c = n_implies_m_in_j_encoding(v, &w, &sizes_vec);
                        let ghost cs0 = clauses@;
                        let ghost cc = c@;
                        proof {
                            assert(sizes_vec@ =~= seq![size]);
                            lemma_row_weight(cs0, cc, row@, w, self.problem.position_vars@[job as int]@, size, processor as int, v);
                            lemma_forced_extend(cs0, cc, weight_on_machine_vars@, self.problem.position_vars@, sizes, job as int, m as int, 0, makespan);
                            crate::encoding::problem_encoding::one_hot_encoding::lemma_position_var_range(pa, m as int, n as int, job as int, processor as int);
                            assert(self.problem.position_vars[job as int]@[processor as int] == position_var(pa, m as int, job as int, processor as int));
                            let b2 = self.problem.var_name_generator.spec_peek() as int;
                            lemma_weight_step(cs0, cc, p0, pa, m as int, n as int, weight_on_machine_vars@, row@, sizes, job as int, processor as int, w, b, v);
                            lemma_below_mono(cs0, b, b2);
                            assert(seq_below(w.vars@, b2));
                            let tail = ne_lits(seq![v], 1);
                            assert forall|t: int| 0 <= t < tail.len() implies lit_below(#[trigger] tail[t], b2) by {
                                assert(tail[t] == pos(v) || tail[t] == neg(v));
                            }
                            lemma_all_options_below(w.vars@, seq![size], tail, 1, b2);
                            lemma_below_append(cs0, cc, b2);
                            assert forall|j: int, q: int| 0 <= j < job && 0 <= q < m && (#[trigger] weight_on_machine_vars@[j]@[q]) is Some
                                implies seq_below(weight_on_machine_vars@[j]@[q]->0.vars@, b2) by {
                                assert(seq_below(weight_on_machine_vars@[j]@[q]->0.vars@, b));
                            }
                        }
                        clauses.add_many_clauses(&mut c);
                        let ghost row0 = row@;
                        row.push(Some(w));
                        proof {
                            let b2 = self.problem.var_name_generator.spec_peek() as int;
                            assert forall|q: int| 0 <= q < processor + 1 && (#[trigger] row@[q]) is Some implies seq_below(row@[q]->0.vars@, b2) by {
                                if q < processor {
                                    assert(row@[q] == row0[q]);
                                    assert(seq_below(row0[q]->0.vars@, b));
                                }
                            }
                        }
                    },
                    None => {
                        proof {
                            lemma_row_skip(clauses@, row@, self.problem.position_vars@[job as int]@, size, processor as int);
                            lemma_weight_skip(clauses@, p0, pa, m as int, n as int, weight_on_machine_vars@, row@, sizes, job as int, processor as int);
                        }
                        let ghost row0 = row@;
                        row.push(None);
                        proof {
                            assert forall|q: int| 0 <= q < processor + 1 && (#[trigger] row@[q]) is Some implies seq_below(row@[q]->0.vars@, self.problem.var_name_generator.spec_peek() as int) by {
                                assert(row@[q] == row0[q]);
                            }
                        }
                    },
                }
                processor = processor + 1;
            }
            proof {
                lemma_row_done(clauses@, weight_on_machine_vars@, row, self.problem.position_vars@, sizes, job as int, m as int);
                lemma_weight_row_done(clauses@, p0, pa, m as int, n as int, weight_on_machine_vars@, row, sizes, job as int);
            }
            let ghost w0 = weight_on_machine_vars@;
            weight_on_machine_vars.push(row);
            proof {
                let b = self.problem.var_name_generator.spec_peek() as int;
                assert forall|j: int, q: int| 0 <= j < job + 1 && 0 <= q < m && (#[trigger] weight_on_machine_vars@[j]@[q]) is Some
                    implies seq_below(weight_on_machine_vars@[j]@[q]->0.vars@, b) by {
                    if j < job {
                        assert(weight_on_machine_vars@[j] == w0[j]);
                    } else {
                        assert(weight_on_machine_vars@[j] == row);
                    }
                }
            }
            proof {
                done = done + m;
                assert(done == (job + 1) * m) by (nonlinear_arith)
                    requires
                        done == job * m + m,
                ;
                assert forall|j: int| 0 <= j < job + 1 implies (#[trigger] weight_on_machine_vars@[j]).len() == m by {
                }
            }
            job = job + 1;
            if timeout.time_finished() {
                return false;
            }
        }
        let max_bitlength = number_bitlength(makespan);
        let mut final_sum_variables: Vec<BinaryNumber> = Vec::new();
        let mut partial_sum_variables: Vec<Vec<Option<BinaryNumber>>> = Vec::new();
        let ghost mut done2: int = 0;
        proof {
            reveal(loads_forced);
            lemma_weights_to_sums(clauses@, p0, pa, m as int, n as int, weight_on_machine_vars@, sizes, makespan);
            lemma_bitlength_bounds(makespan as nat);
        }
        let mut processor: usize = 0;
        while processor < m
            invariant
                self.clauses == old(self).clauses,
                pa == partial_solution.possible_allocations@,
                sizes == partial_solution.instance.job_sizes@,
                n == partial_solution.instance.num_jobs,
                m == partial_solution.instance.num_processors,
                sizes.len() == n,
                basic_inputs(partial_solution, makespan),
                max_bitlength == spec_bitlength(makespan as nat),
                1 <= max_bitlength < usize::BITS,
                processor <= m,
                done2 == processor * n,
                0 <= done2 <= n * m,
                self.problem.position_vars.len() == n,
                forall|i: int, j: int| 0 <= i < n && 0 <= j < m ==> (#[trigger] self.problem.position_vars[i]@[j]) == position_var(pa, m as int, i, j),
                forall|i: int| 0 <= i < n ==> (#[trigger] self.problem.position_vars[i]).len() == m,
                self.problem.clauses@ == one_hot_clauses(pa, m as int, n as int),
                self.problem.clauses.wf(),
                1 <= self.problem.var_name_generator.spec_peek() <= 1 + n * m + 64 * (n * m) + 128 * done2,
                clauses.wf(),
                weights_ok(weight_on_machine_vars@, self.problem.position_vars@, sizes, n as int, m as int),
                final_sum_variables.len() == processor,
                partial_sum_variables.len() == processor,
                forall|p: int| 0 <= p < processor ==> (#[trigger] final_sum_variables[p]).wf(),
                forall|p: int| 0 <= p < processor ==> (#[trigger] partial_sum_variables@[p]).len() == n,
                forall|p: int, j: int| 0 <= p < processor && 0 <= j < n ==> ((#[trigger] partial_sum_variables@[p]@[j]) is Some
                    <==> self.problem.position_vars@[j]@[p] is Some),
                forall|p: int, j: int| 0 <= p < processor && 0 <= j < n && (#[trigger] partial_sum_variables@[p]@[j]) is Some
                    ==> tight(partial_sum_variables@[p]@[j]->0),
                weight_on_machine_vars.len() == n,
                rows_forced(clauses@, weight_on_machine_vars@, self.problem.position_vars@, sizes, n as int, m as int),
                jobs_fit(sizes, n as int, makespan) ==> loads_forced(clauses@, self.problem.position_vars@, sizes, n as int, processor as int, makespan),
                p0 == 1 + rows_count(pa, m as int, n as int),
                p0 <= self.problem.var_name_generator.spec_peek(),
                vars_below(clauses@, self.problem.var_name_generator.spec_peek() as int),
                weights_below(weight_on_machine_vars@, n as int, m as int, self.problem.var_name_generator.spec_peek() as int),
                makespan < pow2(max_bitlength as nat),
                jobs_fit(sizes, n as int, makespan) ==> sums_complete(clauses@, p0, pa, m as int, n as int, weight_on_machine_vars@, sizes, makespan, None, processor as int, 0),
            decreases m - processor,
        {
            proof {
                lemma_mul_step(processor as int, m as int, n as int);
                assert(processor * n == n * processor) by (nonlinear_arith);
                assert(m * n == n * m) by (nonlinear_arith);
            }
            let mut sum: Option<BinaryNumber> = None;
            let mut prow: Vec<Option<BinaryNumber>> = Vec::new();
            let mut job: usize = 0;
            while job < n
                invariant
                    self.clauses == old(self).clauses,
                    pa == partial_solution.possible_allocations@,
                    sizes == partial_solution.instance.job_sizes@,
                    n == partial_solution.instance.num_jobs,
                    m == partial_solution.instance.num_processors,
                    sizes.len() == n,
                    basic_inputs(partial_solution, makespan),
                    max_bitlength == spec_bitlength(makespan as nat),
                    1 <= max_bitlength < usize::BITS,
                    processor < m,
                    job <= n,
                    done2 == processor * n,
                    done2 + n <= n * m,
                    self.problem.position_vars.len() == n,
                    forall|i: int, j: int| 0 <= i < n && 0 <= j < m ==> (#[trigger] self.problem.position_vars[i]@[j]) == position_var(pa, m as int, i, j),
                    forall|i: int| 0 <= i < n ==> (#[trigger] self.problem.position_vars[i]).len() == m,
                    self.problem.clauses@ == one_hot_clauses(pa, m as int, n as int),
                    self.problem.clauses.wf(),
                    1 <= self.problem.var_name_generator.spec_peek() <= 1 + n * m + 64 * (n * m) + 128 * (done2 + job),
                    clauses.wf(),
                    weights_ok(weight_on_machine_vars@, self.problem.position_vars@, sizes, n as int, m as int),
                    prow.len() == job,
                    forall|j: int| 0 <= j < job ==> ((#[trigger] prow@[j]) is Some <==> self.problem.position_vars@[j]@[processor as int] is Some),
                    forall|j: int| 0 <= j < job && (#[trigger] prow@[j]) is Some ==> tight(prow@[j]->0),
                    final_sum_variables.len() == processor,
                    partial_sum_variables.len() == processor,
                    forall|p: int| 0 <= p < processor ==> (#[trigger] final_sum_variables[p]).wf(),
                    forall|p: int| 0 <= p < processor ==> (#[trigger] partial_sum_variables@[p]).len() == n,
                    forall|p: int, j: int| 0 <= p < processor && 0 <= j < n ==> ((#[trigger] partial_sum_variables@[p]@[j]) is Some
                        <==> self.problem.position_vars@[j]@[p] is Some),
                    forall|p: int, j: int| 0 <= p < processor && 0 <= j < n && (#[trigger] partial_sum_variables@[p]@[j]) is Some
                        ==> tight(partial_sum_variables@[p]@[j]->0),
                    sum is None <==> forall|j: int| 0 <= j < job ==> !allowed(pa, j, processor as int),
                    sum is Some ==> tight(sum->0) && sum->0.max <= prefix_total(sizes, job as int),
                    weight_on_machine_vars.len() == n,
                    rows_forced(clauses@, weight_on_machine_vars@, self.problem.position_vars@, sizes, n as int, m as int),
                    jobs_fit(sizes, n as int, makespan) ==> loads_forced(clauses@, self.problem.position_vars@, sizes, n as int, processor as int, makespan),
                    jobs_fit(sizes, n as int, makespan) && sum is Some ==> sum->0.bit_length <= max_bitlength
                        && sum_forced(clauses@, sum->0.vars@, self.problem.position_vars@, sizes, processor as int, job as int),
                    p0 == 1 + rows_count(pa, m as int, n as int),
                    p0 <= self.problem.var_name_generator.spec_peek(),
                    vars_below(clauses@, self.problem.var_name_generator.spec_peek() as int),
                    weights_below(weight_on_machine_vars@, n as int, m as int, self.problem.var_name_generator.spec_peek() as int),
                    makespan < pow2(max_bitlength as nat),
                    sum is Some ==> sum->0.wf() && seq_below(sum->0.vars@, self.problem.var_name_generator.spec_peek() as int),
                    jobs_fit(sizes, n as int, makespan) ==> sums_complete(clauses@, p0, pa, m as int, n as int, weight_on_machine_vars@, sizes, makespan, sum_vars(sum), processor as int, job as int),
                    jobs_fit(sizes, n as int, makespan) && sum is Some ==> forall|sched: Seq<usize>| sched_ok(pa, m as int, n as int, sched) && sched_fits(sizes, sched, m as int, n as int, makespan)
                        ==> #[trigger] load(sizes, sched, processor as int, job as int) <= sum->0.max,
                decreases n - job,
            {
                proof {
                    lemma_prefix_total_monotone(sizes, job as int, n as int);
                    lemma_prefix_total_monotone(sizes, job + 1, n as int);
                }
                match &weight_on_machine_vars[job][processor] {
                    Some(w) => {
                        proof {
                            assert(self.problem.position_vars[job as int]@[processor as int] is Some);
                            assert(allowed(pa, job as int, processor as int));
                        }
                        match sum {
                            None => {
                                proof {
                                    if jobs_fit(sizes, n as int, makespan) {
                                        assert forall|j: int| 0 <= j < job implies (#[trigger] self.problem.position_vars@[j]@[processor as int]) is None by {
                                            assert(self.problem.position_vars[j]@[processor as int] == position_var(pa, m as int, j, processor as int));
                                            assert(!allowed(pa, j, processor as int));
                                        }
                                        lemma_sum_start(clauses@, weight_on_machine_vars@, self.problem.position_vars@, sizes, processor as int, job as int, n as int, m as int);
                                        assert(sizes[job as int] <= makespan);
                                        lemma_bitlength_monotone(sizes[job as int] as nat, makespan as nat);
                                        lemma_sum_start_complete(clauses@, p0, pa, m as int, n as int, weight_on_machine_vars@, sizes, makespan, processor as int, job as int);
                                        lemma_first_load(pa, m as int, n as int, sizes, makespan, processor as int, job as int);
                                    }
                                    assert(weight_on_machine_vars@[job as int]@[processor as int] is Some);
                                    assert(seq_below(w.vars@, self.problem.var_name_generator.spec_peek() as int));
                                }
                                sum = Some(copy_number(w));
                            },
                            Some(s) => {
                                proof {
                                    if s.max <= w.max {
                                        lemma_bitlength_monotone(s.max as nat, w.max as nat);
                                    } else {
                                        lemma_bitlength_monotone(w.max as nat, s.max as nat);
                                    }
                                    lemma_bitlength_sum(s.max as nat, w.max as nat);
                                    lemma_bitlength_half(s.max as nat);
                                    lemma_bitlength_half(w.max as nat);
                                    lemma_bitlength_cap((s.max + w.max) as nat, max_bitlength as nat);
                                }
                                let ghost start = self.problem.var_name_generator.spec_peek() as int;
                                let ghost cs0 = clauses@;
                                let (next_sum, mut sum_clauses) = bounded_sum_encoding(
                                    &s,
                                    w,
                                    max_bitlength,
                                    &mut self.problem.var_name_generator,
                                );
                                let ghost cc = sum_clauses@;
                                proof {
                                    lemma_forced_extend(cs0, cc, weight_on_machine_vars@, self.problem.position_vars@, sizes, n as int, m as int, processor as int, makespan);
                                    if jobs_fit(sizes, n as int, makespan) {
                                        let big = if s.max > w.max { s } else { *w };
                                        let small = if s.max > w.max { *w } else { s };
                                        assert(sizes[job as int] <= makespan);
                                        lemma_bitlength_monotone(sizes[job as int] as nat, makespan as nat);
                                        lemma_bitlength_monotone(big.max as nat, (s.max + w.max) as nat);
                                        lemma_sum_step(cs0, cc, big, small, s.vars@, weight_on_machine_vars@, self.problem.position_vars@, sizes,
                                            processor as int, job as int, n as int, m as int, start, next_sum.bit_length as int);
                                    }
                                }
                                proof {
                                    let big = if s.max > w.max { s } else { *w };
                                    let small = if s.max > w.max { *w } else { s };
                                    let b2 = self.problem.var_name_generator.spec_peek() as int;
                                    let out = next_sum.bit_length as int;
                                    let s_out = fresh_range(start, out as nat);
                                    let c_out = fresh_range(start + out, big.bit_length as nat);
                                    assert(weight_on_machine_vars@[job as int]@[processor as int] is Some);
                                    assert(seq_below(w.vars@, start));
                                    assert(seq_below(big.vars@, b2));
                                    assert(seq_below(small.vars@, b2));
                                    assert(seq_below(s_out, b2));
                                    assert(seq_below(c_out, b2));
                                    lemma_bounded_sum_below(big.vars@, small.vars@, s_out, c_out, b2);
                                    lemma_below_mono(cs0, start, b2);
                                    lemma_below_append(cs0, cc, b2);
                                    assert(seq_below(next_sum.vars@, b2));
                                    assert forall|j: int, q: int| 0 <= j < n && 0 <= q < m && (#[trigger] weight_on_machine_vars@[j]@[q]) is Some
                                        implies seq_below(weight_on_machine_vars@[j]@[q]->0.vars@, b2) by {
                                        assert(seq_below(weight_on_machine_vars@[j]@[q]->0.vars@, start));
                                    }
                                    if jobs_fit(sizes, n as int, makespan) {
                                        lemma_sum_bounds(pa, m as int, n as int, sizes, makespan, processor as int, job as int,
                                            s.max as int, w.max as int, max_bitlength as nat, out, next_sum.max as int);
                                        lemma_sum_step_complete(cs0, cc, p0, pa, m as int, n as int, weight_on_machine_vars@, sizes, makespan, big, small,
                                            s.vars@, processor as int, job as int, start, out);
                                    }
                                }
                                clauses.add_many_clauses(&mut sum_clauses);
                                sum = Some(next_sum);
                            },
                        }
                        prow.push(match &sum {
                            Some(s) => Some(copy_number(s)),
                            None => None,
                        });
                    },
                    None => {
                        proof {
                            assert(!allowed(pa, job as int, processor as int));
                            if jobs_fit(sizes, n as int, makespan) && sum is Some {
                                lemma_sum_skip(clauses@, sum->0.vars@, self.problem.position_vars@, sizes, processor as int, job as int);
                            }
                            if jobs_fit(sizes, n as int, makespan) {
                                lemma_sum_skip_complete(clauses@, p0, pa, m as int, n as int, weight_on_machine_vars@, sizes, makespan, sum_vars(sum), processor as int, job as int);
                                assert forall|sched: Seq<usize>| sched_ok(pa, m as int, n as int, sched) && sched_fits(sizes, sched, m as int, n as int, makespan)
                                    implies #[trigger] load(sizes, sched, processor as int, job + 1) == load(sizes, sched, processor as int, job as int) by {
                                    assert(allowed(pa, job as int, sched[job as int] as int));
                                }
                            }
                        }
                        prow.push(None);
                    },
                }
                job = job + 1;
            }
            proof {
                let p = processor as int;
                assert(usable(pa, n as int, p));
                let j = choose|j: int| 0 <= j < n && #[trigger] allowed(pa, j, p);
                assert(allowed(pa, j, p));
            }
            let total = match sum {
                Some(s) => s,
                None => {
                    return false;
                },
            };
            proof {
                lemma_prefix_total_monotone(sizes, n as int, n as int);
            }
            let mut bound = at_most_k_encoding(&total, makespan);
            let ghost cs0 = clauses@;
            let ghost cc = bound@;
            proof {
                lemma_forced_extend(cs0, cc, weight_on_machine_vars@, self.problem.position_vars@, sizes, n as int, m as int, processor as int, makespan);
                if jobs_fit(sizes, n as int, makespan) {
                    lemma_load_bound(cs0, cc, total.vars@, self.problem.position_vars@, sizes, processor as int, n as int, makespan);
                    lemma_bound_complete(cs0, cc, p0, pa, m as int, n as int, weight_on_machine_vars@, sizes, makespan, total.vars@, processor as int);
                }
                let b2 = self.problem.var_name_generator.spec_peek() as int;
                lemma_at_most_k_below(total.vars@, makespan as nat, b2);
                lemma_below_append(cs0, cc, b2);
            }
            clauses.add_many_clauses(&mut bound);
            final_sum_variables.push(total);
            let ghost before = partial_sum_variables@;
            partial_sum_variables.push(prow);
            proof {
                assert forall|p: int| 0 <= p < processor + 1 implies (#[trigger] partial_sum_variables@[p]).len() == n by {
                    if p < processor {
                        assert(partial_sum_variables@[p] == before[p]);
                    }
                }
                assert forall|p: int, j: int| 0 <= p < processor + 1 && 0 <= j < n implies ((#[trigger] partial_sum_variables@[p]@[j]) is Some
                    <==> self.problem.position_vars@[j]@[p] is Some) by {
                    if p < processor {
                        assert(partial_sum_variables@[p] == before[p]);
                    }
                }
                assert forall|p: int, j: int| 0 <= p < processor + 1 && 0 <= j < n && (#[trigger] partial_sum_variables@[p]@[j]) is Some
                    implies tight(partial_sum_variables@[p]@[j]->0) by {
                    if p < processor {
                        assert(partial_sum_variables@[p] == before[p]);
                    }
                }
            }
            proof {
                done2 = done2 + n;
                assert(done2 == (processor + 1) * n) by (nonlinear_arith)
                    requires
                        done2 == processor * n + n,
                ;
            }
            processor = processor + 1;
            if timeout.time_finished() {
                return false;
            }
        }
        proof {
            reveal(loads_forced);
            lemma_sums_done(clauses@, p0, pa, m as int, n as int, weight_on_machine_vars@, sizes, makespan);
        }
        self.clauses = clauses;
        self.final_sum_vars = final_sum_variables;
        self.weight_on_machine_vars = weight_on_machine_vars;
        self.partial_sum_variables = partial_sum_variables;
        true
    }

    /// The sum clauses followed by the one-hot clauses; the encoder keeps none of them.
    fn output(&mut self) -> (out: Clauses)
        ensures
            out.wf(),
            out@ == old(self).clauses@ + old(self).problem.clauses@,
    {
        let mut out = Clauses::new();
        std::mem::swap(&mut out, &mut self.clauses);
        out.add_many_clauses(&mut self.problem.clauses);
        out
    }

    fn decode(&self, instance: &ProblemInstance, var_assignment: &Vec<i32>) -> (s: Solution)
        ensures
            s.assignment@ == decoded(self.problem.position_vars@, true_vars(var_assignment@), self.problem.position_vars.len() as int),
    {
        self.problem.decode(instance, var_assignment)
    }

    fn get_num_vars(&self) -> (n: usize)
        ensures
            n == self.problem.var_name_generator.spec_peek(),
    {
        self.problem.get_num_vars()
    }
}

impl OneHot for BasicEncoder {
    open spec fn has_position(&self, job_num: usize, proc_num: usize) -> bool {
        self.problem.has_position(job_num, proc_num)
    }

    fn get_position_var(&self, job_num: usize, proc_num: usize) -> (r: Option<usize>)
        ensures
            r == self.problem.position_vars[job_num as int]@[proc_num as int],
    {
        self.problem.get_position_var(job_num, proc_num)
    }
}

impl OneHotEncoder for BasicEncoder {}

/// Read back through the one-hot rows, `a` puts on `p` the same load that it puts there
/// through the position variables.
proof fn lemma_load_matches(a: spec_fn(int) -> bool, pa: Seq<Vec<usize>>, m: int, pv: Seq<Vec<Option<usize>>>, sizes: Seq<usize>, d: Seq<usize>, p: int, k: int)
    requires
        0 <= k <= d.len(),
        0 <= p < m,
        forall|i: int| 0 <= i < k ==> #[trigger] exactly_one(a, pa, m, i),
        forall|i: int| 0 <= i < k ==> #[trigger] d[i] == placed_on(a, pa, m, i),
        forall|i: int| 0 <= i < k ==> 0 <= placed_on(a, pa, m, i) < m && placed(a, pa, m, i, #[trigger] placed_on(a, pa, m, i)),
        forall|i: int| 0 <= i < k ==> #[trigger] pv[i]@[p] == position_var(pa, m, i, p),
        forall|i: int| 0 <= i < k && #[trigger] allowed(pa, i, p) ==> 1 + rows_count(pa, m, i) + row_count(pa, i, p) <= i32::MAX,
    ensures
        load(sizes, d, p, k) == assigned_load(a, pv, sizes, p, k),
    decreases k,
{
    if k > 0 {
        lemma_load_matches(a, pa, m, pv, sizes, d, p, k - 1);
        let i = k - 1;
        let q = placed_on(a, pa, m, i);
        assert(d[i] == q);
        assert(exactly_one(a, pa, m, i));
        assert(pv[i]@[p] == position_var(pa, m, i, p));
        assert(0 <= q < m && placed(a, pa, m, i, q));
        if allowed(pa, i, p) {
            assert(1 + rows_count(pa, m, i) + row_count(pa, i, p) <= i32::MAX);
        }
        if placed(a, pa, m, i, p) && q != p {
            if q < p {
                assert(!(placed(a, pa, m, i, q) && placed(a, pa, m, i, p)));
            } else {
                assert(!(placed(a, pa, m, i, p) && placed(a, pa, m, i, q)));
            }
        }
    }
}

/// Every model of the basic encoding's output, read back, places each job on one of the
/// processors it may go on; where every job fits within the makespan, no processor then
/// carries more than the makespan.
pub proof fn basic_models_are_schedules(encoder: BasicEncoder, partial_solution: PartialSolution, makespan: usize, model: Seq<i32>)
    requires
        encoder.encodes(&partial_solution, makespan),
        all_sat(model_assignment(model), encoder.clauses@ + encoder.problem.clauses@),
    ensures
        ({
            let pa = partial_solution.possible_allocations@;
            let n = partial_solution.instance.num_jobs as int;
            let m = partial_solution.instance.num_processors as int;
            let sizes = partial_solution.instance.job_sizes@;
            let d = decoded(encoder.problem.position_vars@, true_vars(model), n);
            &&& d.len() == n
            &&& forall|i: int| 0 <= i < n ==> #[trigger] d[i] < m && allowed(pa, i, d[i] as int)
            &&& jobs_fit(sizes, n, makespan) ==> forall|p: int| 0 <= p < m ==> #[trigger] load(sizes, d, p, n) <= makespan
        }),
{
    let pa = partial_solution.possible_allocations@;
    let n = partial_solution.instance.num_jobs as int;
    let m = partial_solution.instance.num_processors as int;
    let sizes = partial_solution.instance.job_sizes@;
    let pv = encoder.problem.position_vars@;
    let t = true_vars(model);
    let a = model_assignment(model);
    lemma_all_sat_append(a, encoder.clauses@, encoder.problem.clauses@);
    lemma_one_hot(a, pa, m, n);
    assert(n * m >= 0) by (nonlinear_arith)
        requires
            n >= 0,
            m >= 0,
    ;
    assert forall|i: int, k: int| 0 <= i < n && 0 <= k < m && #[trigger] allowed(pa, i, k) implies 1 + rows_count(pa, m, i) + row_count(pa, i, k) <= i32::MAX by {
        lemma_position_var_range(pa, m, n, i, k);
    }
    assert forall|i: int| 0 <= i < n implies row_read(a, pa, m, i, #[trigger] pv[i]@, t) by {
        assert(pv[i]@.len() == m);
        assert forall|k: int| 0 <= k < m && (#[trigger] pv[i]@[k]) is Some implies (t.contains(pv[i]@[k]->0) <==> a(pv[i]@[k]->0 as int)) by {
            assert(pv[i]@[k] == position_var(pa, m, i, k));
            assert(allowed(pa, i, k));
            lemma_model_true_vars(model, pv[i]@[k]->0);
        }
        assert forall|k: int| 0 <= k < m implies #[trigger] pv[i]@[k] == position_var(pa, m, i, k) by {
            assert(encoder.problem.position_vars[i]@[k] == position_var(pa, m, i, k));
        }
    }
    assert(exactly_one_each(a, pa, m, n));
    assert forall|i: int| 0 <= i < n implies #[trigger] exactly_one(a, pa, m, i) by {
    }
    lemma_decoded_one_hot(a, pa, m, pv, t, n);
    let d = decoded(pv, t, n);
    assert forall|i: int| 0 <= i < n implies #[trigger] d[i] < m && allowed(pa, i, d[i] as int) by {
        assert(d[i] == placed_on(a, pa, m, i));
        assert(placed(a, pa, m, i, placed_on(a, pa, m, i)));
    }
    if jobs_fit(sizes, n, makespan) {
        assert forall|p: int| 0 <= p < m implies #[trigger] load(sizes, d, p, n) <= makespan by {
            assert forall|i: int| 0 <= i < n implies #[trigger] pv[i]@[p] == position_var(pa, m, i, p) by {
                assert(encoder.problem.position_vars[i]@[p] == position_var(pa, m, i, p));
            }
            lemma_load_matches(a, pa, m, pv, sizes, d, p, n);
            assert(assigned_load(a, pv, sizes, p, n) <= makespan);
        }
    }
}


/// Every schedule that puts each job on a processor it may go on and keeps every processor
/// within the makespan is a model of the basic encoding's output: some assignment satisfies
/// all its clauses and sets each position variable exactly when the schedule puts that job
/// on that processor.
pub proof fn basic_schedules_are_models(encoder: BasicEncoder, partial_solution: PartialSolution, makespan: usize, sched: Seq<usize>)
    requires
        encoder.encodes(&partial_solution, makespan),
        sched_ok(partial_solution.possible_allocations@, partial_solution.instance.num_processors as int,
            partial_solution.instance.num_jobs as int, sched),
        sched_fits(partial_solution.instance.job_sizes@, sched, partial_solution.instance.num_processors as int,
            partial_solution.instance.num_jobs as int, makespan),
    ensures
        exists|a: spec_fn(int) -> bool| #[trigger] all_sat(a, encoder.clauses@ + encoder.problem.clauses@)
            && forall|i: int, j: int| 0 <= i < partial_solution.instance.num_jobs && 0 <= j < partial_solution.instance.num_processors
                && (#[trigger] encoder.problem.position_vars@[i]@[j]) is Some
                ==> (a(encoder.problem.position_vars@[i]@[j]->0 as int) <==> sched[i] == j),
{
    let pa = partial_solution.possible_allocations@;
    let n = partial_solution.instance.num_jobs as int;
    let m = partial_solution.instance.num_processors as int;
    let sizes = partial_solution.instance.job_sizes@;
    let pv = encoder.problem.position_vars@;
    let a = choose|a: spec_fn(int) -> bool| #[trigger] extends_schedule(a, encoder.clauses@, pa, m, n, sched);
    let pl = placement(pa, m, sched);
    let p0 = 1 + rows_count(pa, m, n);
    assert(n * m >= 0) by (nonlinear_arith)
        requires
            n >= 0,
            m >= 0,
    ;
    one_hot_round_trip(pa, m, n, pv, sched);
    lemma_one_hot(pl, pa, m, n);
    lemma_one_hot(a, pa, m, n);
    assert forall|i: int| 0 <= i < n implies #[trigger] exactly_one(a, pa, m, i) by {
        assert forall|j: int| 0 <= j < m implies #[trigger] placed(a, pa, m, i, j) == placed(pl, pa, m, i, j) by {
            if allowed(pa, i, j) {
                lemma_position_var_range(pa, m, n, i, j);
            }
        }
        assert(exactly_one(pl, pa, m, i));
        let j = choose|j: int| 0 <= j < m && #[trigger] placed(pl, pa, m, i, j);
        assert(placed(a, pa, m, i, j));
        assert forall|j1: int, j2: int| 0 <= j1 < j2 < m implies !(#[trigger] placed(a, pa, m, i, j1) && #[trigger] placed(a, pa, m, i, j2)) by {
            assert(placed(a, pa, m, i, j1) == placed(pl, pa, m, i, j1));
            assert(placed(a, pa, m, i, j2) == placed(pl, pa, m, i, j2));
        }
    }
    lemma_all_sat_append(a, encoder.clauses@, encoder.problem.clauses@);
    assert forall|i: int, j: int| 0 <= i < n && 0 <= j < m && (#[trigger] pv[i]@[j]) is Some
        implies (a(pv[i]@[j]->0 as int) <==> sched[i] == j) by {
        assert(pv[i]@[j] == position_var(pa, m, i, j));
        lemma_position_var_range(pa, m, n, i, j);
        lemma_placement_var(pa, m, n, sched, i, j);
    }
}

} // verus!
