//! The arc-flow encoding: the time line `0..=makespan` is a row of nodes, and a job is an
//! arc from a node to the node its size further on. Each processor is a path of arcs from
//! node 0, so at most `m` arcs leave node 0 and at least `m` where there are that many, no
//! more arcs leave a node than arrive at it, and each job is exactly one arc.
use vstd::prelude::*;
use std::collections::HashSet;
use crate::common::bits::Bits;
use crate::common::bits::bits_get;
use crate::common::bits::bits_set;
use crate::common::bits::bits_view;
use crate::common::bits::bits_zeros;
use crate::common::common::calc_makespan;
use crate::common::common::lemma_load_le_total;
use crate::common::common::load;
use crate::common::common::max_load;
use crate::common::common::prefix_total;
use crate::common::timeout::Timeout;
use crate::bounds::upper_bounds::subset_sum::sums_to;
use crate::encoding::encoder::Clause;
use crate::encoding::encoder::Clauses;
use crate::encoding::encoder::Encoder;
use crate::encoding::encoder::VarNameGenerator;
use crate::encoding::encoder::all_valid;
use crate::encoding::encoder::valid_var;
use crate::encoding::encoder::zero_free;
use crate::encoding::encoder::pos;
use crate::encoding::encoder::neg;
use crate::encoding::encoder::all_sat;
use crate::encoding::encoder::clause_sat;
use crate::encoding::encoder::lit_true;
use crate::encoding::encoder::lemma_all_sat_append;
use crate::encoding::sat_encoding::binary_arithmetic::both_true;
use crate::encoding::sat_encoding::binary_arithmetic::amo_rows;
use crate::encoding::sat_encoding::binary_arithmetic::lemma_pairwise_at_most_one;
use crate::encoding::sat_encoding::binary_arithmetic::all_proper;
use crate::encoding::sat_encoding::binary_arithmetic::at_least_one_encoding;
use crate::encoding::sat_encoding::binary_arithmetic::lit_neg;
use crate::encoding::sat_encoding::binary_arithmetic::lit_pos;
use crate::encoding::sat_encoding::binary_arithmetic::pairwise_encoded_at_most_one;
use crate::encoding::sat_encoding::binmerge_native::add_unit;
use crate::encoding::sat_encoding::cardinality_networks::basic_sort_fits;
use crate::encoding::sat_encoding::cardinality_networks::true_count;
use crate::encoding::sat_encoding::cardinality_networks::lemma_basic_sort_counts;
use crate::encoding::sat_encoding::cardinality_networks::spec_basic_sort;
use crate::encoding::sat_encoding::binary_arithmetic::spec_min;
use crate::encoding::encoder::starts_with;
use crate::encoding::encoder::lemma_starts_with_sat;
use crate::encoding::encoder::lemma_all_sat_push;
use crate::encoding::encoder::lemma_pos_neg;
use crate::encoding::sat_encoding::binmerge_native::room_for;
use crate::encoding::sat_encoding::cardinality_networks::basic_sort;
use crate::encoding::sat_encoding::cardinality_networks::lemma_basic_sort_outs;
use crate::encoding::sat_encoding::cardinality_networks::lemma_basic_sort_size;
use crate::problem_instance::partial_solution::PartialSolution;
use crate::problem_instance::problem_instance::ProblemInstance;
use crate::problem_instance::solution::Solution;

verus! {

broadcast use vstd::std_specs::hash::group_hash_axioms;

/// Job `k` is an arc from node `i`: some of the jobs before it add up to `i`, and the arc
/// ends within the makespan.
pub open spec fn arc(sizes: Seq<usize>, makespan: int, k: int, i: int) -> bool {
    sums_to(sizes, k, i) && i + sizes[k] <= makespan
}

/// The jobs among `0..k` with an arc from node `i`, in order.
pub open spec fn arcs_from(sizes: Seq<usize>, makespan: int, i: int, k: int) -> Seq<usize>
    decreases k,
{
    if k <= 0 {
        Seq::empty()
    } else if arc(sizes, makespan, k - 1, i) {
        arcs_from(sizes, makespan, i, k - 1).push((k - 1) as usize)
    } else {
        arcs_from(sizes, makespan, i, k - 1)
    }
}

/// The inputs of the arc-flow encoding: a processor (and fewer than `usize::MAX`), a makespan of at least one whose nodes
/// fit in a bit-vector, sizes that fit in half a `usize`, some job that fits at all, and no
/// arc from the last node (an empty job that the others could push there).
pub open spec fn arc_inputs(ps: &PartialSolution, makespan: usize) -> bool {
    let sizes = ps.instance.job_sizes@;
    let n = ps.instance.num_jobs as int;
    &&& ps.instance.wf()
    &&& 1 <= ps.instance.num_processors < usize::MAX
    &&& 1 <= makespan
    &&& makespan + 1 <= usize::MAX / 8
    &&& forall|k: int| 0 <= k < n ==> #[trigger] sizes[k] <= usize::MAX / 2
    &&& exists|k: int| 0 <= k < n && #[trigger] sizes[k] <= makespan
    &&& forall|k: int| 0 <= k < n && #[trigger] sizes[k] == 0 ==> !sums_to(sizes, k, makespan as int)
}

/// Every job in a list of arcs from a node is a job with such an arc.
pub(crate) proof fn lemma_arcs_from(sizes: Seq<usize>, makespan: int, i: int, k: int)
    requires
        k <= usize::MAX,
    ensures
        forall|t: int| 0 <= t < arcs_from(sizes, makespan, i, k).len() ==> (#[trigger] arcs_from(sizes, makespan, i, k)[t])
            < k && arc(sizes, makespan, arcs_from(sizes, makespan, i, k)[t] as int, i),
        forall|t1: int, t2: int| 0 <= t1 < t2 < arcs_from(sizes, makespan, i, k).len() ==> #[trigger] arcs_from(
            sizes,
            makespan,
            i,
            k,
        )[t1] < #[trigger] arcs_from(sizes, makespan, i, k)[t2],
        forall|j: int| 0 <= j < k && arc(sizes, makespan, j, i) ==> arcs_from(sizes, makespan, i, k).contains(
            j as usize,
        ),
    decreases k,
{
    if k > 0 {
        lemma_arcs_from(sizes, makespan, i, k - 1);
        let prev = arcs_from(sizes, makespan, i, k - 1);
        if arc(sizes, makespan, k - 1, i) {
            let cur = prev.push((k - 1) as usize);
            assert forall|t: int| 0 <= t < cur.len() implies (#[trigger] cur[t]) < k && arc(sizes, makespan, cur[t] as int, i) by {
                if t < prev.len() {
                    assert(cur[t] == prev[t]);
                }
            }
            assert forall|t1: int, t2: int| 0 <= t1 < t2 < cur.len() implies #[trigger] cur[t1] < #[trigger] cur[t2] by {
                assert(cur[t1] == prev[t1]);
                if t2 < prev.len() {
                    assert(cur[t2] == prev[t2]);
                }
            }
            assert forall|j: int| 0 <= j < k && arc(sizes, makespan, j, i) implies cur.contains(j as usize) by {
                if j < k - 1 {
                    let t = choose|t: int| 0 <= t < prev.len() && prev[t] == j as usize;
                    assert(cur[t] == prev[t]);
                } else {
                    assert(cur[prev.len() as int] == (k - 1) as usize);
                }
            }
        }
    }
}

/// The subset sums within `makespan` of the jobs in order, and for every node the jobs with
/// an arc from it.
pub(crate) fn arc_table(sizes: &Vec<usize>, makespan: usize) -> (r: Vec<Vec<usize>>)
    requires
        makespan + 1 <= usize::MAX / 8,
        forall|k: int| 0 <= k < sizes.len() ==> #[trigger] sizes@[k] <= usize::MAX / 2,
    ensures
        r.len() == makespan + 1,
        forall|i: int| 0 <= i <= makespan ==> (#[trigger] r@[i])@ == arcs_from(sizes@, makespan as int, i, sizes.len() as int),
{
    let n = sizes.len();
    let mut possible: Bits = bits_zeros(makespan + 1);
    bits_set(&mut possible, 0, true);
    let mut choices: Vec<Vec<usize>> = Vec::new();
    let mut i: usize = 0;
    while i <= makespan
        invariant
            i <= makespan + 1,
            makespan + 1 <= usize::MAX / 8,
            choices.len() == i,
            forall|i2: int| 0 <= i2 < i ==> (#[trigger] choices@[i2])@ == arcs_from(sizes@, makespan as int, i2, 0),
        decreases makespan + 1 - i,
    {
        choices.push(Vec::new());
        i = i + 1;
    }
    let mut job: usize = 0;
    while job < n
        invariant
            n == sizes.len(),
            makespan + 1 <= usize::MAX / 8,
            forall|k: int| 0 <= k < sizes.len() ==> #[trigger] sizes@[k] <= usize::MAX / 2,
            job <= n,
            bits_view(possible).len() == makespan + 1,
            forall|q: int| 0 <= q <= makespan ==> (#[trigger] bits_view(possible)[q] <==> sums_to(sizes@, job as int, q)),
            choices.len() == makespan + 1,
            forall|i2: int| 0 <= i2 <= makespan ==> (#[trigger] choices@[i2])@ == arcs_from(sizes@, makespan as int, i2, job as int),
        decreases n - job,
    {
        let size = sizes[job];
        let mut next: Bits = bits_zeros(makespan + 1);
        let ghost cur = bits_view(possible);
        let mut i: usize = 0;
        while i <= makespan
            invariant
                n == sizes.len(),
                job < n,
                size == sizes@[job as int],
                size <= usize::MAX / 2,
                makespan + 1 <= usize::MAX / 8,
                i <= makespan + 1,
                cur == bits_view(possible),
                cur.len() == makespan + 1,
                forall|q: int| 0 <= q <= makespan ==> (cur[q] <==> sums_to(sizes@, job as int, q)),
                bits_view(next).len() == makespan + 1,
                forall|q: int| 0 <= q <= makespan ==> (#[trigger] bits_view(next)[q] <==> ((q < i && cur[q]) || (q
                    >= size && q - size < i && cur[q - size]))),
                choices.len() == makespan + 1,
                forall|i2: int| 0 <= i2 < i ==> (#[trigger] choices@[i2])@ == arcs_from(sizes@, makespan as int, i2, job + 1),
                forall|i2: int| i <= i2 <= makespan ==> (#[trigger] choices@[i2])@ == arcs_from(sizes@, makespan as int, i2, job as int),
            decreases makespan + 1 - i,
        {
            if bits_get(&possible, i) {
                bits_set(&mut next, i, true);
                if i + size <= makespan {
                    bits_set(&mut next, i + size, true);
                    choices[i].push(job);
                }
            }
            proof {
                assert(choices@[i as int]@ == arcs_from(sizes@, makespan as int, i as int, job + 1));
            }
            i = i + 1;
        }
        possible = next;
        job = job + 1;
    }
    choices
}

/// The arc variables of one node, in order of job (the entries that are not zero).
/// The arc variables from node `src`, among the first `t` jobs of `ch`, that lead to node
/// `dst`, in order.
pub open spec fn into_from(vars: Seq<Vec<usize>>, sizes: Seq<usize>, ch: Seq<usize>, src: int, dst: int, t: int) -> Seq<usize>
    decreases t,
{
    if t <= 0 {
        Seq::empty()
    } else {
        let prev = into_from(vars, sizes, ch, src, dst, t - 1);
        let k = ch[t - 1];
        if src + sizes[k as int] == dst {
            prev.push(vars[src]@[k as int])
        } else {
            prev
        }
    }
}

/// The arc variables into node `dst` from the nodes below `src`, node by node.
pub open spec fn arcs_into(vars: Seq<Vec<usize>>, sizes: Seq<usize>, makespan: int, n: int, dst: int, src: int) -> Seq<usize>
    decreases src,
{
    if src <= 0 {
        Seq::empty()
    } else {
        let ch = arcs_from(sizes, makespan, src - 1, n);
        arcs_into(vars, sizes, makespan, n, dst, src - 1) + into_from(vars, sizes, ch, src - 1, dst, ch.len() as int)
    }
}

/// Under `a`, no more arcs leave node `i` than arrive at it, where any arrive.
pub open spec fn flow_ok(a: spec_fn(int) -> bool, vars: Seq<Vec<usize>>, sizes: Seq<usize>, makespan: int, n: int, i: int) -> bool {
    let ins = arcs_into(vars, sizes, makespan, n, i, makespan + 1);
    let outs = nonzero(vars[i]@);
    ins.len() > 0 ==> true_count(a, outs, outs.len() as int) <= true_count(a, ins, ins.len() as int)
}

/// The clauses `[-o_t, i_t]` for `t < j`.
pub open spec fn pair_seq(o: Seq<usize>, i: Seq<usize>, j: int) -> Seq<Seq<i32>> {
    Seq::new(j as nat, |t: int| seq![neg(o[t]), pos(i[t])])
}

/// Counting both sides of a node with totalizers, and asking that the count going out
/// reaching `t + 1` implies the same of the count coming in, lets no more arcs leave the
/// node than arrive.
proof fn lemma_node_flow(a: spec_fn(int) -> bool, ins: Seq<usize>, outs: Seq<usize>, m: int, mnv: int, s_in: int, s_out: int)
    requires
        all_valid(ins),
        all_valid(outs),
        ins.len() >= 1,
        outs.len() >= 1,
        m >= 1,
        mnv == spec_min(spec_min(outs.len() as int, ins.len() as int), m),
        1 <= s_in,
        1 <= s_out,
        spec_basic_sort(ins, m, s_in).next <= i32::MAX + 1,
        spec_basic_sort(outs, mnv, s_out).next <= i32::MAX + 1,
        all_sat(a, spec_basic_sort(ins, m, s_in).clauses),
        all_sat(a, spec_basic_sort(outs, mnv, s_out).clauses),
        all_sat(a, pair_seq(spec_basic_sort(outs, mnv, s_out).outs, spec_basic_sort(ins, m, s_in).outs,
            spec_basic_sort(outs, mnv, s_out).outs.len() as int)),
    ensures
        true_count(a, outs, outs.len() as int) <= true_count(a, ins, ins.len() as int),
{
    let inc = spec_basic_sort(ins, m, s_in).outs;
    let outc = spec_basic_sort(outs, mnv, s_out).outs;
    lemma_basic_sort_counts(a, ins, m, s_in);
    lemma_basic_sort_counts(a, outs, mnv, s_out);
    lemma_basic_sort_outs(ins, m, s_in);
    lemma_basic_sort_outs(outs, mnv, s_out);
    crate::encoding::sat_encoding::cardinality_networks::lemma_true_count_bound(a, outs, outs.len() as int);
    crate::encoding::sat_encoding::cardinality_networks::lemma_true_count_bound(a, ins, ins.len() as int);
    let cout = true_count(a, outs, outs.len() as int);
    let cin = true_count(a, ins, ins.len() as int);
    assert(cout <= mnv);
    if cout >= 1 {
        let j = cout - 1;
        assert(a(outc[j] as int));
        let ps = pair_seq(outc, inc, outc.len() as int);
        assert(clause_sat(a, ps[j]));
        assert(ps[j] == seq![neg(outc[j]), pos(inc[j])]);
        crate::encoding::sat_encoding::cardinality_networks::lemma_basic_sort_valid(outs, mnv, s_out);
        crate::encoding::sat_encoding::cardinality_networks::lemma_basic_sort_valid(ins, m, s_in);
        lemma_pos_neg(a, outc[j]);
        lemma_pos_neg(a, inc[j]);
        assert(a(inc[j] as int));
    }
}

/// The variables of a row of arcs, leaving out the places without an arc.
pub open spec fn nonzero(row: Seq<usize>) -> Seq<usize> {
    row.filter(has_arc())
}

/// A place of a row of arcs that holds an arc.
pub open spec fn has_arc() -> spec_fn(usize) -> bool {
    |v: usize| v != 0
}

fn node_vars(row: &Vec<usize>) -> (r: Vec<usize>)
    requires
        forall|k: int| 0 <= k < row.len() && #[trigger] row@[k] != 0 ==> valid_var(row@[k] as int),
    ensures
        all_valid(r@),
        r.len() <= row.len(),
        (exists|k: int| 0 <= k < row.len() && #[trigger] row@[k] != 0) ==> r.len() >= 1,
        r@ == nonzero(row@),
{
    let mut r: Vec<usize> = Vec::new();
    let mut k: usize = 0;
    while k < row.len()
        invariant
            forall|k2: int| 0 <= k2 < row.len() && #[trigger] row@[k2] != 0 ==> valid_var(row@[k2] as int),
            k <= row.len(),
            r.len() <= k,
            all_valid(r@),
            (exists|k2: int| 0 <= k2 < k && #[trigger] row@[k2] != 0) ==> r.len() >= 1,
            r@ == nonzero(row@.take(k as int)),
        decreases row.len() - k,
    {
        proof {
            reveal(Seq::filter);
            assert(row@.take(k + 1).drop_last() =~= row@.take(k as int));
            assert(row@.take(k + 1).last() == row@[k as int]);
        }
        if row[k] != 0 {
            let ghost before = r@;
            r.push(row[k]);
            proof {
                assert forall|t: int| 0 <= t < r.len() implies valid_var(#[trigger] r@[t] as int) by {
                    if t < before.len() {
                        assert(r@[t] == before[t]);
                    }
                }
            }
        }
        k = k + 1;
    }
    proof {
        assert(row@.take(row.len() as int) =~= row@);
    }
    r
}

/// The positive literals of a list of valid variables.
fn positive_lits(vars: &Vec<usize>) -> (r: Vec<i32>)
    requires
        all_valid(vars@),
    ensures
        r.len() == vars.len(),
        all_proper(r@),
        zero_free(r@),
        forall|t: int| 0 <= t < r.len() ==> #[trigger] r@[t] == pos(vars@[t]),
{
    let mut r: Vec<i32> = Vec::new();
    let mut k: usize = 0;
    while k < vars.len()
        invariant
            all_valid(vars@),
            k <= vars.len(),
            r.len() == k,
            all_proper(r@),
            zero_free(r@),
            forall|t: int| 0 <= t < k ==> #[trigger] r@[t] == pos(vars@[t]),
        decreases vars.len() - k,
    {
        let ghost before = r@;
        r.push(lit_pos(vars[k]));
        proof {
            assert forall|t: int| 0 <= t < r.len() implies crate::encoding::encoder::proper_lit(#[trigger] r@[t]) by {
                if t < before.len() {
                    assert(r@[t] == before[t]);
                }
            }
            assert forall|t: int| 0 <= t < r.len() implies #[trigger] r@[t] == pos(vars@[t]) by {
                if t < before.len() {
                    assert(r@[t] == before[t]);
                }
            }
            assert forall|t: int| 0 <= t < r.len() implies #[trigger] r@[t] != 0 by {
                if t < before.len() {
                    assert(r@[t] == before[t]);
                }
            }
        }
        k = k + 1;
    }
    r
}

/// The two-literal clause `[a, b]`.
fn add_pair(clauses: &mut Clauses, a: i32, b: i32)
    requires
        old(clauses).wf(),
        a != 0,
        b != 0,
    ensures
        final(clauses).wf(),
        final(clauses)@ == old(clauses)@.push(seq![a, b]),
{
    let c = Clause { vars: vec![a, b] };
    assert(c.vars@ =~= seq![a, b]);
    clauses.add_clause(c);
}

/// How many arcs leave the nodes `0..i`.
pub open spec fn arcs_total(sizes: Seq<usize>, makespan: int, n: int, i: int) -> int
    decreases i,
{
    if i <= 0 {
        0
    } else {
        arcs_total(sizes, makespan, n, i - 1) + arcs_from(sizes, makespan, i - 1, n).len()
    }
}

/// The variable names would run out: with `b` the jobs and the arcs together, `b * b`
/// variables after `next` (more than any of its sorting networks takes) do not fit in a
/// literal.
pub open spec fn names_run_out(sizes: Seq<usize>, makespan: int, n: int, next: int) -> bool {
    let b = n + arcs_total(sizes, makespan, n, makespan + 1);
    next + b * b > i32::MAX + 1
}

proof fn lemma_arcs_total_monotone(sizes: Seq<usize>, makespan: int, n: int, i: int, j: int)
    requires
        i <= j,
    ensures
        arcs_total(sizes, makespan, n, i) <= arcs_total(sizes, makespan, n, j),
    decreases j - i,
{
    if i < j {
        lemma_arcs_total_monotone(sizes, makespan, n, i, j - 1);
    }
}

/// A network on `len <= b` inputs that is too large, or whose variables do not fit,
/// means the names run out.
proof fn lemma_run_out(sizes: Seq<usize>, makespan: int, n: int, len: int, next: int)
    requires
        0 <= len <= n + arcs_total(sizes, makespan, n, makespan + 1),
        next + len * len > i32::MAX + 1,
    ensures
        names_run_out(sizes, makespan, n, next),
{
    let b = n + arcs_total(sizes, makespan, n, makespan + 1);
    assert(len * len <= b * b) by (nonlinear_arith)
        requires
            0 <= len <= b,
    ;
}

#[derive(Clone)]
pub struct MehdiNizarSatEncoder {
    var_name_generator: VarNameGenerator,
    vars: Vec<Vec<usize>>,
    clauses: Clauses,
}

impl MehdiNizarSatEncoder {
    pub fn new() -> (e: MehdiNizarSatEncoder)
        ensures
            e.pending().wf(),
            e.pending()@ == Seq::<Seq<i32>>::empty(),
            e.arcs().len() == 0,
    {
        MehdiNizarSatEncoder { var_name_generator: VarNameGenerator::new(), vars: Vec::new(), clauses: Clauses::new() }
    }

    /// The clauses not yet handed out.
    pub closed spec fn pending(&self) -> Clauses {
        self.clauses
    }

    /// The generator of the variable names.
    pub closed spec fn names(&self) -> VarNameGenerator {
        self.var_name_generator
    }

    /// The arc variables: entry `[i][k]` is the variable of job `k` from node `i`, zero
    /// where there is no such arc.
    pub closed spec fn arcs(&self) -> Seq<Vec<usize>> {
        self.vars@
    }
}

/// Under `a`, job `k` takes exactly one of its arcs, from the nodes below `upto`.
pub open spec fn one_arc(a: spec_fn(int) -> bool, vars: Seq<Vec<usize>>, k: int, upto: int) -> bool {
    &&& exists|i: int| 0 <= i < upto && vars[i]@[k] != 0 && #[trigger] a(vars[i]@[k] as int)
    &&& forall|i1: int, i2: int| 0 <= i1 < i2 < upto && vars[i1]@[k] != 0 && vars[i2]@[k] != 0
        ==> !(#[trigger] a(vars[i1]@[k] as int) && #[trigger] a(vars[i2]@[k] as int))
}

/// The arcs of job `job`, gathered node by node: `idx` gives the node of each.
pub open spec fn gathered(edges: Seq<usize>, idx: Seq<int>, vars: Seq<Vec<usize>>, job: int, upto: int) -> bool {
    &&& edges.len() == idx.len()
    &&& forall|t: int| 0 <= t < idx.len() ==> 0 <= #[trigger] idx[t] < upto && edges[t] == vars[idx[t]]@[job] && vars[idx[t]]@[job] != 0
    &&& forall|i: int| 0 <= i < upto && vars[i]@[job] != 0 ==> exists|t: int| 0 <= t < idx.len() && #[trigger] idx[t] == i
    &&& forall|t1: int, t2: int| 0 <= t1 < t2 < idx.len() ==> #[trigger] idx[t1] < #[trigger] idx[t2]
}

/// The clause over a job's arcs and the pairwise clauses over them make it take exactly
/// one arc.
proof fn lemma_job_clauses(a: spec_fn(int) -> bool, cs0: Seq<Seq<i32>>, lits: Seq<i32>, edges: Seq<usize>, idx: Seq<int>,
    vars: Seq<Vec<usize>>, job: int, upto: int)
    requires
        all_sat(a, cs0.push(lits) + amo_rows(lits, lits.len() as int)),
        all_proper(lits),
        all_valid(edges),
        lits.len() == edges.len(),
        forall|t: int| 0 <= t < lits.len() ==> #[trigger] lits[t] == pos(edges[t]),
        gathered(edges, idx, vars, job, upto),
    ensures
        all_sat(a, cs0),
        one_arc(a, vars, job, upto),
{
    lemma_all_sat_append(a, cs0.push(lits), amo_rows(lits, lits.len() as int));
    assert(all_sat(a, cs0)) by {
        assert forall|j: int| 0 <= j < cs0.len() implies clause_sat(a, #[trigger] cs0[j]) by {
            assert(cs0.push(lits)[j] == cs0[j]);
        }
    }
    assert(cs0.push(lits)[cs0.len() as int] == lits);
    assert(clause_sat(a, lits));
    lemma_pairwise_at_most_one(a, lits);
    let t = choose|t: int| 0 <= t < lits.len() && lit_true(a, #[trigger] lits[t]);
    assert(valid_var(edges[t] as int));
    assert(a(vars[idx[t]]@[job] as int));
    assert forall|i1: int, i2: int| 0 <= i1 < i2 < upto && vars[i1]@[job] != 0 && vars[i2]@[job] != 0
        implies !(#[trigger] a(vars[i1]@[job] as int) && #[trigger] a(vars[i2]@[job] as int)) by {
        let t1 = choose|t: int| 0 <= t < idx.len() && #[trigger] idx[t] == i1;
        let t2 = choose|t: int| 0 <= t < idx.len() && #[trigger] idx[t] == i2;
        if t2 <= t1 {
            if t2 < t1 {
                assert(idx[t2] < idx[t1]);
            }
        }
        assert(t1 < t2);
        assert(valid_var(edges[t1] as int));
        assert(valid_var(edges[t2] as int));
        assert(!both_true(a, lits, t1, t2));
    }
}

impl Encoder for MehdiNizarSatEncoder {
    open spec fn encode_requires(&self, partial_solution: &PartialSolution, makespan: usize) -> bool {
        arc_inputs(partial_solution, makespan)
    }

    closed spec fn encoded(&self) -> bool {
        self.clauses.wf()
    }

    closed spec fn decode_requires(&self, instance: &ProblemInstance, solution: &Vec<i32>) -> bool {
        &&& instance.wf()
        &&& prefix_total(instance.job_sizes@, instance.num_jobs as int) <= usize::MAX
        &&& self.vars.len() <= usize::MAX / 2
        &&& forall|j: int| 0 <= j < instance.num_jobs ==> #[trigger] instance.job_sizes@[j] <= usize::MAX / 2
        &&& forall|i: int| 0 <= i < self.vars.len() ==> (#[trigger] self.vars@[i]).len() >= instance.num_jobs
    }

    /// On success there is one row of arc variables per node below the makespan and one
    /// entry per job in each: a variable exactly where the job is an arc from the node, the
    /// variables valid. Every assignment that satisfies the clauses takes exactly one arc of
    /// each job, takes as many arcs from node 0 as there are processors (or all of them,
    /// where there are fewer), and lets no more arcs leave a node than arrive at it
    /// (`flow_ok`). It fails when the variables would not fit in a literal.
    fn basic_encode(
        &mut self,
        partial_solution: &PartialSolution,
        makespan: usize,
        timeout: &Timeout,
        max_num_clauses: usize,
    ) -> (r: bool)
        ensures
            !r ==> final(self).pending() == old(self).pending(),
            r ==> {
                let sizes = partial_solution.instance.job_sizes@;
                let n = partial_solution.instance.num_jobs as int;
                &&& final(self).arcs().len() == makespan
                &&& forall|i: int| 0 <= i < makespan ==> (#[trigger] final(self).arcs()[i]).len() == n
                &&& forall|i: int, k: int| 0 <= i < makespan && 0 <= k < n ==> ((#[trigger] final(self).arcs()[i]@[k])
                    != 0 <==> arc(sizes, makespan as int, k, i))
                &&& forall|i: int, k: int| 0 <= i < makespan && 0 <= k < n && (#[trigger] final(self).arcs()[i]@[k])
                    != 0 ==> valid_var(final(self).arcs()[i]@[k] as int)
                &&& forall|a: spec_fn(int) -> bool| #[trigger] all_sat(a, final(self).pending()@)
                    ==> forall|k: int| 0 <= k < n ==> #[trigger] one_arc(a, final(self).arcs(), k, makespan as int)
                &&& forall|a: spec_fn(int) -> bool| #[trigger] all_sat(a, final(self).pending()@)
                    ==> true_count(a, nonzero(final(self).arcs()[0]@), nonzero(final(self).arcs()[0]@).len() as int)
                        == spec_min(nonzero(final(self).arcs()[0]@).len() as int, partial_solution.instance.num_processors as int)
                &&& forall|a: spec_fn(int) -> bool| #[trigger] all_sat(a, final(self).pending()@)
                    ==> forall|i: int| 1 <= i < makespan ==> #[trigger] flow_ok(a, final(self).arcs(), partial_solution.instance.job_sizes@,
                        makespan as int, n, i)
            },
            !r ==> names_run_out(partial_solution.instance.job_sizes@, makespan as int, partial_solution.instance.num_jobs as int,
                final(self).names().spec_peek() as int),
    {
        let ghost sizes = partial_solution.instance.job_sizes@;
        let n = partial_solution.instance.num_jobs;
        let m = partial_solution.instance.num_processors;
        self.var_name_generator = VarNameGenerator::new();
        let choices = arc_table(&partial_solution.instance.job_sizes, makespan);
        let mut vars: Vec<Vec<usize>> = Vec::new();
        let mut i: usize = 0;
        while i < makespan
            invariant
                self.clauses == old(self).clauses,
                sizes == partial_solution.instance.job_sizes@,
                n == partial_solution.instance.num_jobs,
                arc_inputs(partial_solution, makespan),
                choices.len() == makespan + 1,
                forall|i2: int| 0 <= i2 <= makespan ==> (#[trigger] choices@[i2])@ == arcs_from(sizes, makespan as int, i2, n as int),
                i <= makespan,
                vars.len() == i,
                forall|i2: int| 0 <= i2 < i ==> (#[trigger] vars@[i2]).len() == n,
                forall|i2: int, k: int| 0 <= i2 < i && 0 <= k < n ==> ((#[trigger] vars@[i2]@[k]) != 0 <==> arc(sizes, makespan as int, k, i2)),
                forall|i2: int, k: int| 0 <= i2 < i && 0 <= k < n && (#[trigger] vars@[i2]@[k]) != 0 ==> valid_var(vars@[i2]@[k] as int),
                1 <= self.var_name_generator.spec_peek() <= i32::MAX + 1,
            decreases makespan - i,
        {
            let mut row: Vec<usize> = Vec::new();
            let mut k: usize = 0;
            while k < n
                invariant
                    self.clauses == old(self).clauses,
                    k <= n,
                    row.len() == k,
                    forall|t: int| 0 <= t < k ==> #[trigger] row@[t] == 0,
                decreases n - k,
            {
                row.push(0);
                k = k + 1;
            }
            proof {
                lemma_arcs_from(sizes, makespan as int, i as int, n as int);
            }
            let ghost jobs = choices@[i as int]@;
            let mut t: usize = 0;
            while t < choices[i].len()
                invariant
                    self.clauses == old(self).clauses,
                    sizes == partial_solution.instance.job_sizes@,
                    n == partial_solution.instance.num_jobs,
                    choices.len() == makespan + 1,
                    i < makespan,
                    jobs == choices@[i as int]@,
                    jobs == arcs_from(sizes, makespan as int, i as int, n as int),
                    forall|t2: int| 0 <= t2 < jobs.len() ==> (#[trigger] jobs[t2]) < n && arc(sizes, makespan as int, jobs[t2] as int, i as int),
                    forall|t1: int, t2: int| 0 <= t1 < t2 < jobs.len() ==> #[trigger] jobs[t1] < #[trigger] jobs[t2],
                    forall|j: int| 0 <= j < n && arc(sizes, makespan as int, j, i as int) ==> jobs.contains(j as usize),
                    t <= jobs.len(),
                    row.len() == n,
                    forall|k2: int| 0 <= k2 < n ==> (#[trigger] row@[k2] != 0 <==> exists|t2: int| 0 <= t2 < t && jobs[t2] == k2),
                    forall|k2: int| 0 <= k2 < n && #[trigger] row@[k2] != 0 ==> valid_var(row@[k2] as int),
                    1 <= self.var_name_generator.spec_peek() <= i32::MAX + 1,
                decreases jobs.len() - t,
            {
                if !room_for(self.var_name_generator.peek(), 1) {
                    proof {
                        let k = choose|k: int| 0 <= k < n && #[trigger] sizes[k] <= makespan;
                        lemma_arcs_total_monotone(sizes, makespan as int, n as int, 0, makespan + 1);
                        lemma_run_out(sizes, makespan as int, n as int, 1, self.var_name_generator.spec_peek() as int);
                    }
                    return false;
                }
                let job = choices[i][t];
                let v = self.var_name_generator.next();
                let ghost before = row@;
                row.set(job, v);
                proof {
                    assert forall|k2: int| 0 <= k2 < n implies (#[trigger] row@[k2] != 0 <==> exists|t2: int| 0 <= t2 < t + 1 && jobs[t2] == k2) by {
                        if k2 == job {
                            assert(jobs[t as int] == k2);
                        } else {
                            assert(row@[k2] == before[k2]);
                            if exists|t2: int| 0 <= t2 < t + 1 && jobs[t2] == k2 {
                                let t2 = choose|t2: int| 0 <= t2 < t + 1 && jobs[t2] == k2;
                                assert(t2 != t);
                            }
                        }
                    }
                }
                t = t + 1;
            }
            proof {
                assert forall|k2: int| 0 <= k2 < n implies (#[trigger] row@[k2] != 0 <==> arc(sizes, makespan as int, k2, i as int)) by {
                    if arc(sizes, makespan as int, k2, i as int) {
                        assert(jobs.contains(k2 as usize));
                        let t2 = choose|t2: int| 0 <= t2 < jobs.len() && jobs[t2] == k2 as usize;
                    }
                }
            }
            let ghost before = vars@;
            vars.push(row);
            proof {
                assert forall|i2: int, k: int| 0 <= i2 < i + 1 && 0 <= k < n implies ((#[trigger] vars@[i2]@[k]) != 0 <==> arc(sizes, makespan as int, k, i2)) by {
                    if i2 < i {
                        assert(vars@[i2] == before[i2]);
                    }
                }
                assert forall|i2: int, k: int| 0 <= i2 < i + 1 && 0 <= k < n && (#[trigger] vars@[i2]@[k]) != 0 implies valid_var(vars@[i2]@[k] as int) by {
                    if i2 < i {
                        assert(vars@[i2] == before[i2]);
                    }
                }
                assert forall|i2: int| 0 <= i2 < i + 1 implies (#[trigger] vars@[i2]).len() == n by {
                    if i2 < i {
                        assert(vars@[i2] == before[i2]);
                    }
                }
            }
            i = i + 1;
        }
        let mut clauses = Clauses::new();
        // as many arcs leave node 0 as there are processors, where the jobs allow it
        let vars_on_node_0 = node_vars(&vars[0]);
        proof {
            let k = choose|k: int| 0 <= k < n && #[trigger] sizes[k] <= makespan;
            crate::bounds::upper_bounds::subset_sum::lemma_sums_to_zero(sizes, k);
            assert(arc(sizes, makespan as int, k, 0));
            assert(vars@[0]@[k] != 0);
        }
        proof {
            lemma_arcs_total_monotone(sizes, makespan as int, n as int, 0, makespan + 1);
        }
        if !basic_sort_fits(&vars_on_node_0, m, self.var_name_generator.peek()) {
            proof {
                lemma_basic_sort_size(vars_on_node_0@, m as int, self.var_name_generator.spec_peek() as int);
                lemma_run_out(sizes, makespan as int, n as int, vars_on_node_0.len() as int, self.var_name_generator.spec_peek() as int);
            }
            return false;
        }
        proof {
            lemma_basic_sort_size(vars_on_node_0@, m as int, self.var_name_generator.spec_peek() as int);
            lemma_basic_sort_outs(vars_on_node_0@, m as int, self.var_name_generator.spec_peek() as int);
        }
        let ghost start0 = self.var_name_generator.spec_peek() as int;
        let (mut card_clauses, num_true_vars) = basic_sort(&vars_on_node_0, m, &mut self.var_name_generator);
        let ghost card0 = card_clauses@;
        clauses.add_many_clauses(&mut card_clauses);
        let last = num_true_vars[num_true_vars.len() - 1];
        add_unit(&mut clauses, lit_pos(last));
        let ghost c0 = clauses@;
        proof {
            let len = vars_on_node_0.len() as int;
            let start = self.var_name_generator.spec_peek() as int;
            assert forall|a: spec_fn(int) -> bool| #[trigger] all_sat(a, c0)
                implies true_count(a, vars_on_node_0@, len) == spec_min(len, m as int) by {
                lemma_all_sat_push(a, card0, seq![pos(last)]);
                assert(card0 =~= Seq::<Seq<i32>>::empty() + card0);
                lemma_basic_sort_counts(a, vars_on_node_0@, m as int, start0);
                lemma_pos_neg(a, last);
                assert(seq![pos(last)][0] == pos(last));
                assert(a(last as int));
                let k = num_true_vars@.len() - 1;
                assert(num_true_vars@[k] == last);
                crate::encoding::sat_encoding::cardinality_networks::lemma_true_count_bound(a, vars_on_node_0@, len);
            }
        }
        // the arcs into each node
        let mut in_edges: Vec<Vec<usize>> = Vec::new();
        let mut i: usize = 0;
        while i <= makespan
            invariant
                self.clauses == old(self).clauses,
                i <= makespan + 1,
                makespan + 1 <= usize::MAX / 8,
                in_edges.len() == i,
                forall|a: int, b: int| 0 <= a < in_edges.len() && 0 <= b < in_edges@[a].len() ==> valid_var(#[trigger] in_edges@[a]@[b] as int),
                forall|a: int| 0 <= a < in_edges.len() ==> #[trigger] in_edges@[a].len() == 0,
            decreases makespan + 1 - i,
        {
            in_edges.push(Vec::new());
            i = i + 1;
        }
        proof {
            assert forall|a: int| 0 <= a < in_edges.len() implies (#[trigger] in_edges@[a])@ == arcs_into(vars@, sizes, makespan as int, n as int, a, 0) by {
                assert(in_edges@[a].len() == 0);
                assert(in_edges@[a]@ =~= Seq::<usize>::empty());
            }
        }
        let mut i: usize = 0;
        while i <= makespan
            invariant
                self.clauses == old(self).clauses,
                sizes == partial_solution.instance.job_sizes@,
                n == partial_solution.instance.num_jobs,
                arc_inputs(partial_solution, makespan),
                choices.len() == makespan + 1,
                forall|i2: int| 0 <= i2 <= makespan ==> (#[trigger] choices@[i2])@ == arcs_from(sizes, makespan as int, i2, n as int),
                vars.len() == makespan,
                forall|i2: int| 0 <= i2 < makespan ==> (#[trigger] vars@[i2]).len() == n,
                forall|i2: int, k: int| 0 <= i2 < makespan && 0 <= k < n ==> ((#[trigger] vars@[i2]@[k]) != 0 <==> arc(sizes, makespan as int, k, i2)),
                forall|i2: int, k: int| 0 <= i2 < makespan && 0 <= k < n && (#[trigger] vars@[i2]@[k]) != 0 ==> valid_var(vars@[i2]@[k] as int),
                i <= makespan + 1,
                in_edges.len() == makespan + 1,
                forall|a: int, b: int| 0 <= a < in_edges.len() && 0 <= b < in_edges@[a].len() ==> valid_var(#[trigger] in_edges@[a]@[b] as int),
                forall|a: int| 0 <= a < in_edges.len() ==> #[trigger] in_edges@[a].len() <= arcs_total(sizes, makespan as int, n as int, i as int),
                forall|a: int| 0 <= a < in_edges.len() ==> (#[trigger] in_edges@[a])@ == arcs_into(vars@, sizes, makespan as int, n as int, a, i as int),
            decreases makespan + 1 - i,
        {
            proof {
                lemma_arcs_from(sizes, makespan as int, i as int, n as int);
            }
            let mut t: usize = 0;
            while t < choices[i].len()
                invariant
                    self.clauses == old(self).clauses,
                    sizes == partial_solution.instance.job_sizes@,
                    n == partial_solution.instance.num_jobs,
                    arc_inputs(partial_solution, makespan),
                    choices.len() == makespan + 1,
                    i <= makespan,
                    choices@[i as int]@ == arcs_from(sizes, makespan as int, i as int, n as int),
                    forall|t2: int| 0 <= t2 < choices@[i as int]@.len() ==> (#[trigger] choices@[i as int]@[t2]) < n && arc(
                        sizes,
                        makespan as int,
                        choices@[i as int]@[t2] as int,
                        i as int,
                    ),
                    vars.len() == makespan,
                    forall|i2: int| 0 <= i2 < makespan ==> (#[trigger] vars@[i2]).len() == n,
                    forall|i2: int, k: int| 0 <= i2 < makespan && 0 <= k < n ==> ((#[trigger] vars@[i2]@[k]) != 0 <==> arc(sizes, makespan as int, k, i2)),
                    forall|i2: int, k: int| 0 <= i2 < makespan && 0 <= k < n && (#[trigger] vars@[i2]@[k]) != 0 ==> valid_var(vars@[i2]@[k] as int),
                    in_edges.len() == makespan + 1,
                    forall|a: int, b: int| 0 <= a < in_edges.len() && 0 <= b < in_edges@[a].len() ==> valid_var(#[trigger] in_edges@[a]@[b] as int),
                    t <= choices@[i as int]@.len(),
                    forall|a: int| 0 <= a < in_edges.len() ==> #[trigger] in_edges@[a].len() <= arcs_total(sizes, makespan as int, n as int, i as int) + t,
                    forall|a: int| 0 <= a < in_edges.len() ==> (#[trigger] in_edges@[a])@ == arcs_into(vars@, sizes, makespan as int, n as int, a, i as int)
                        + into_from(vars@, sizes, choices@[i as int]@, i as int, a, t as int),
                decreases choices@[i as int]@.len() - t,
            {
                let job = choices[i][t];
                proof {
                    assert(arc(sizes, makespan as int, job as int, i as int));
                    if i == makespan {
                        assert(sizes[job as int] == 0);
                        assert(false);
                    }
                }
                let target = i + partial_solution.instance.job_sizes[job];
                let v = vars[i][job];
                proof {
                    assert(in_edges@[target as int].len() <= arcs_total(sizes, makespan as int, n as int, i as int) + t);
                }
                let ghost before = in_edges@;
                in_edges[target].push(v);
                proof {
                    assert forall|a: int| 0 <= a < in_edges.len() implies (#[trigger] in_edges@[a])@ == arcs_into(vars@, sizes, makespan as int, n as int, a, i as int)
                        + into_from(vars@, sizes, choices@[i as int]@, i as int, a, t + 1) by {
                        assert(choices@[i as int]@[t as int] == job);
                        if a != target {
                            assert(in_edges@[a] == before[a]);
                        } else {
                            assert(in_edges@[a]@ == before[a]@.push(v));
                        }
                    }
                    assert forall|a: int| 0 <= a < in_edges.len() implies #[trigger] in_edges@[a].len() <= arcs_total(sizes, makespan as int, n as int, i as int) + t + 1 by {
                        if a != target {
                            assert(in_edges@[a] == before[a]);
                            assert(before[a].len() <= arcs_total(sizes, makespan as int, n as int, i as int) + t);
                        } else {
                            assert(in_edges@[a].len() == before[a].len() + 1);
                        }
                    }
                    assert forall|a: int, b: int| 0 <= a < in_edges.len() && 0 <= b < in_edges@[a].len() implies valid_var(#[trigger] in_edges@[a]@[b] as int) by {
                        if a != target {
                            assert(in_edges@[a] == before[a]);
                        } else if b < before[a].len() {
                            assert(in_edges@[a]@[b] == before[a]@[b]);
                        } else {
                            assert(in_edges@[a]@[b] == v);
                            assert(vars@[i as int]@[job as int] != 0);
                        }
                    }
                }
                t = t + 1;
            }
            proof {
                assert(arcs_total(sizes, makespan as int, n as int, i + 1) == arcs_total(sizes, makespan as int, n as int, i as int)
                    + arcs_from(sizes, makespan as int, i as int, n as int).len());
            }
            i = i + 1;
        }
        // no more arcs leave a node than arrive at it
        let mut i: usize = 1;
        while i < makespan
            invariant
                self.clauses == old(self).clauses,
                sizes == partial_solution.instance.job_sizes@,
                n == partial_solution.instance.num_jobs,
                m == partial_solution.instance.num_processors,
                arc_inputs(partial_solution, makespan),
                choices.len() == makespan + 1,
                forall|i2: int| 0 <= i2 <= makespan ==> (#[trigger] choices@[i2])@ == arcs_from(sizes, makespan as int, i2, n as int),
                vars.len() == makespan,
                forall|i2: int| 0 <= i2 < makespan ==> (#[trigger] vars@[i2]).len() == n,
                forall|i2: int, k: int| 0 <= i2 < makespan && 0 <= k < n ==> ((#[trigger] vars@[i2]@[k]) != 0 <==> arc(sizes, makespan as int, k, i2)),
                forall|i2: int, k: int| 0 <= i2 < makespan && 0 <= k < n && (#[trigger] vars@[i2]@[k]) != 0 ==> valid_var(vars@[i2]@[k] as int),
                in_edges.len() == makespan + 1,
                forall|a: int, b: int| 0 <= a < in_edges.len() && 0 <= b < in_edges@[a].len() ==> valid_var(#[trigger] in_edges@[a]@[b] as int),
                1 <= i <= makespan,
                1 <= self.var_name_generator.spec_peek() <= i32::MAX + 1,
                clauses.wf(),
                starts_with(clauses@, c0),
                forall|a: int| 0 <= a < in_edges.len() ==> #[trigger] in_edges@[a].len() <= arcs_total(sizes, makespan as int, n as int, makespan + 1),
                0 <= arcs_total(sizes, makespan as int, n as int, makespan + 1),
                forall|a: int| 0 <= a < in_edges.len() ==> (#[trigger] in_edges@[a])@ == arcs_into(vars@, sizes, makespan as int, n as int, a, makespan + 1),
                forall|a: spec_fn(int) -> bool| #[trigger] all_sat(a, clauses@)
                    ==> forall|i2: int| 1 <= i2 < i ==> #[trigger] flow_ok(a, vars@, sizes, makespan as int, n as int, i2),
            decreases makespan - i,
        {
            if in_edges[i].len() == 0 || choices[i].len() == 0 {
                proof {
                    let outs = nonzero(vars@[i as int]@);
                    if in_edges[i as int].len() > 0 && outs.len() > 0 {
                        vars@[i as int]@.filter_lemma(has_arc());
                        let x = outs[0];
                        assert(outs.contains(x));
                        vars@[i as int]@.lemma_filter_contains_rev(has_arc(), x);
                        assert(vars@[i as int]@.contains(x));
                        let k = choose|k: int| 0 <= k < vars@[i as int]@.len() && vars@[i as int]@[k] == x;
                        lemma_arcs_from(sizes, makespan as int, i as int, n as int);
                        assert(arcs_from(sizes, makespan as int, i as int, n as int).contains(k as usize));
                    }
                    assert forall|a: spec_fn(int) -> bool| #[trigger] all_sat(a, clauses@)
                        implies forall|i2: int| 1 <= i2 < i + 1 ==> #[trigger] flow_ok(a, vars@, sizes, makespan as int, n as int, i2) by {
                        assert forall|i2: int| 1 <= i2 < i + 1 implies #[trigger] flow_ok(a, vars@, sizes, makespan as int, n as int, i2) by {
                            if i2 == i {
                                let ins = arcs_into(vars@, sizes, makespan as int, n as int, i2, makespan + 1);
                                crate::encoding::sat_encoding::cardinality_networks::lemma_true_count_bound(a, ins, ins.len() as int);
                                if ins.len() > 0 {
                                    assert(outs.len() == 0);
                                    assert(true_count(a, outs, 0) == 0);
                                }
                            }
                        }
                    }
                }
                i = i + 1;
                continue;
            }
            let ghost pre = clauses@;
            let ghost s_in = self.var_name_generator.spec_peek() as int;
            proof {
                assert(in_edges@[i as int].len() <= arcs_total(sizes, makespan as int, n as int, makespan + 1));
            }
            if !basic_sort_fits(&in_edges[i], m, self.var_name_generator.peek()) {
                proof {
                    lemma_basic_sort_size(in_edges@[i as int]@, m as int, self.var_name_generator.spec_peek() as int);
                    lemma_run_out(sizes, makespan as int, n as int, in_edges[i as int].len() as int, self.var_name_generator.spec_peek() as int);
                }
                return false;
            }
            proof {
                lemma_basic_sort_size(in_edges@[i as int]@, m as int, self.var_name_generator.spec_peek() as int);
                lemma_basic_sort_outs(in_edges@[i as int]@, m as int, self.var_name_generator.spec_peek() as int);
                assert(all_valid(in_edges@[i as int]@)) by {
                    assert forall|b: int| 0 <= b < in_edges@[i as int]@.len() implies valid_var(#[trigger] in_edges@[i as int]@[b] as int) by {
                    }
                }
            }
            let (mut in_card_clauses, in_var_card) = basic_sort(&in_edges[i], m, &mut self.var_name_generator);
            let ghost in_cl = in_card_clauses@;
            clauses.add_many_clauses(&mut in_card_clauses);
            proof {
                lemma_arcs_from(sizes, makespan as int, i as int, n as int);
                let k = choices@[i as int]@[0] as int;
                assert(arc(sizes, makespan as int, k, i as int));
                assert(vars@[i as int]@[k] != 0);
            }
            let out_vars = node_vars(&vars[i]);
            let mut max_num_vars = out_vars.len();
            if in_edges[i].len() < max_num_vars {
                max_num_vars = in_edges[i].len();
            }
            if m < max_num_vars {
                max_num_vars = m;
            }
            if !basic_sort_fits(&out_vars, max_num_vars, self.var_name_generator.peek()) {
                proof {
                    lemma_basic_sort_size(out_vars@, max_num_vars as int, self.var_name_generator.spec_peek() as int);
                    lemma_run_out(sizes, makespan as int, n as int, out_vars.len() as int, self.var_name_generator.spec_peek() as int);
                }
                return false;
            }
            proof {
                lemma_basic_sort_size(out_vars@, max_num_vars as int, self.var_name_generator.spec_peek() as int);
                lemma_basic_sort_outs(out_vars@, max_num_vars as int, self.var_name_generator.spec_peek() as int);
            }
            let ghost s_out = self.var_name_generator.spec_peek() as int;
            let (mut out_card_clauses, out_var_card) = basic_sort(&out_vars, max_num_vars, &mut self.var_name_generator);
            let ghost out_cl = out_card_clauses@;
            clauses.add_many_clauses(&mut out_card_clauses);
            let ghost mid = clauses@;
            let mut j: usize = 0;
            while j < out_var_card.len()
                invariant
                    self.clauses == old(self).clauses,
                    out_var_card.len() <= in_var_card.len(),
                    all_valid(out_var_card@),
                    all_valid(in_var_card@),
                    j <= out_var_card.len(),
                    clauses.wf(),
                    starts_with(clauses@, c0),
                    clauses@ == mid + pair_seq(out_var_card@, in_var_card@, j as int),
                decreases out_var_card.len() - j,
            {
                let ghost before = clauses@;
                add_pair(&mut clauses, lit_neg(out_var_card[j]), lit_pos(in_var_card[j]));
                proof {
                    assert(clauses@ =~= mid + pair_seq(out_var_card@, in_var_card@, j + 1));
                    assert forall|t: int| 0 <= t < c0.len() implies #[trigger] clauses@[t] == c0[t] by {
                        assert(before[t] == c0[t]);
                    }
                }
                j = j + 1;
            }
            proof {
                let ins = in_edges@[i as int]@;
                let outs = out_vars@;
                assert(ins == arcs_into(vars@, sizes, makespan as int, n as int, i as int, makespan + 1));
                assert(outs == nonzero(vars@[i as int]@));
                assert(mid == pre + in_cl + out_cl);
                assert forall|a: spec_fn(int) -> bool| #[trigger] all_sat(a, clauses@)
                    implies forall|i2: int| 1 <= i2 < i + 1 ==> #[trigger] flow_ok(a, vars@, sizes, makespan as int, n as int, i2) by {
                    lemma_all_sat_append(a, mid, pair_seq(out_var_card@, in_var_card@, j as int));
                    lemma_all_sat_append(a, pre + in_cl, out_cl);
                    lemma_all_sat_append(a, pre, in_cl);
                    lemma_node_flow(a, ins, outs, m as int, max_num_vars as int, s_in, s_out);
                    assert forall|i2: int| 1 <= i2 < i + 1 implies #[trigger] flow_ok(a, vars@, sizes, makespan as int, n as int, i2) by {
                    }
                }
            }
            i = i + 1;
        }
        let ghost c1 = clauses@;
        // each job is exactly one arc
        let mut job: usize = 0;
        while job < n
            invariant
                self.clauses == old(self).clauses,
                n == partial_solution.instance.num_jobs,
                vars.len() == makespan,
                forall|i2: int| 0 <= i2 < makespan ==> (#[trigger] vars@[i2]).len() == n,
                forall|i2: int, k: int| 0 <= i2 < makespan && 0 <= k < n && (#[trigger] vars@[i2]@[k]) != 0 ==> valid_var(vars@[i2]@[k] as int),
                job <= n,
                clauses.wf(),
                starts_with(clauses@, c0),
                starts_with(clauses@, c1),
                forall|a: spec_fn(int) -> bool| #[trigger] all_sat(a, clauses@)
                    ==> forall|k: int| 0 <= k < job ==> #[trigger] one_arc(a, vars@, k, makespan as int),
            decreases n - job,
        {
            let mut edges: Vec<usize> = Vec::new();
            let ghost mut idx: Seq<int> = Seq::empty();
            let mut i: usize = 0;
            while i < makespan
                invariant
                    self.clauses == old(self).clauses,
                    n == partial_solution.instance.num_jobs,
                    vars.len() == makespan,
                    forall|i2: int| 0 <= i2 < makespan ==> (#[trigger] vars@[i2]).len() == n,
                    forall|i2: int, k: int| 0 <= i2 < makespan && 0 <= k < n && (#[trigger] vars@[i2]@[k]) != 0 ==> valid_var(vars@[i2]@[k] as int),
                    job < n,
                    i <= makespan,
                    all_valid(edges@),
                    gathered(edges@, idx, vars@, job as int, i as int),
                decreases makespan - i,
            {
                let v = vars[i][job];
                if v != 0 {
                    let ghost before = edges@;
                    let ghost idx0 = idx;
                    edges.push(v);
                    proof {
                        idx = idx.push(i as int);
                        assert forall|i2: int| 0 <= i2 < i + 1 && vars@[i2]@[job as int] != 0 implies exists|t: int| 0 <= t < idx.len() && #[trigger] idx[t] == i2 by {
                            if i2 < i {
                                let t = choose|t: int| 0 <= t < idx0.len() && #[trigger] idx0[t] == i2;
                                assert(idx[t] == i2);
                            } else {
                                assert(idx[idx.len() - 1] == i2);
                            }
                        }
                        assert forall|t: int| 0 <= t < idx.len() implies 0 <= #[trigger] idx[t] < i + 1 && edges@[t] == vars@[idx[t]]@[job as int] && vars@[idx[t]]@[job as int] != 0 by {
                            if t < idx0.len() {
                                assert(idx[t] == idx0[t]);
                                assert(edges@[t] == before[t]);
                            }
                        }
                        assert forall|t: int| 0 <= t < edges.len() implies valid_var(#[trigger] edges@[t] as int) by {
                            if t < before.len() {
                                assert(edges@[t] == before[t]);
                            }
                        }
                    }
                }
                i = i + 1;
            }
            let lits = positive_lits(&edges);
            let mut amo = pairwise_encoded_at_most_one(&lits);
            let ghost lv = lits@;
            let alo = at_least_one_encoding(lits);
            let ghost cs0 = clauses@;
            let ghost prev_job = job as int;
            clauses.add_clause(alo);
            clauses.add_many_clauses(&mut amo);
            proof {
                assert forall|a: spec_fn(int) -> bool| #[trigger] all_sat(a, clauses@)
                    implies forall|k: int| 0 <= k < prev_job + 1 ==> #[trigger] one_arc(a, vars@, k, makespan as int) by {
                    lemma_job_clauses(a, cs0, lv, edges@, idx, vars@, prev_job, makespan as int);
                }
            }
            job = job + 1;
        }
        proof {
            assert forall|a: spec_fn(int) -> bool| #[trigger] all_sat(a, clauses@)
                implies true_count(a, nonzero(vars@[0]@), nonzero(vars@[0]@).len() as int)
                    == spec_min(nonzero(vars@[0]@).len() as int, m as int) by {
                lemma_starts_with_sat(a, clauses@, c0);
            }
        }
        proof {
            assert forall|a: spec_fn(int) -> bool| #[trigger] all_sat(a, clauses@)
                implies forall|i2: int| 1 <= i2 < makespan ==> #[trigger] flow_ok(a, vars@, sizes, makespan as int, n as int, i2) by {
                lemma_starts_with_sat(a, clauses@, c1);
            }
        }
        self.vars = vars;
        self.clauses = clauses;
        true
    }

    /// The clauses; the encoder keeps none of them.
    fn output(&mut self) -> (out: Clauses)
        ensures
            out.wf(),
            out@ == old(self).pending()@,
    {
        let mut out = Clauses::new();
        std::mem::swap(&mut out, &mut self.clauses);
        out
    }

    fn decode(&self, instance: &ProblemInstance, var_assignment: &Vec<i32>) -> (s: Solution)
        ensures
            s.assignment.len() == instance.num_jobs,
            instance.num_processors >= 1 ==> forall|j: int| 0 <= j < instance.num_jobs ==> #[trigger] s.assignment@[j]
                < instance.num_processors,
            instance.num_processors >= 1 ==> s.makespan == max_load(instance.job_sizes@, s.assignment@, instance.num_processors as int),
    {
        let n = instance.num_jobs;
        let m = instance.num_processors;
        let mut assignment: Vec<usize> = Vec::new();
        let mut unassigned_jobs: HashSet<usize> = HashSet::new();
        let mut k: usize = 0;
        while k < n
            invariant
                k <= n,
                assignment.len() == k,
                forall|j: int| 0 <= j < k ==> #[trigger] assignment@[j] == 0,
            decreases n - k,
        {
            assignment.push(0);
            unassigned_jobs.insert(k);
            k = k + 1;
        }
        let mut true_set: HashSet<usize> = HashSet::new();
        let mut k: usize = 0;
        while k < var_assignment.len()
            invariant
                k <= var_assignment.len(),
            decreases var_assignment.len() - k,
        {
            let a = var_assignment[k];
            if a > 0 {
                true_set.insert(a as usize);
            }
            k = k + 1;
        }
        let mut proc: usize = 0;
        while proc < m
            invariant
                self.decode_requires(instance, var_assignment),
                n == instance.num_jobs,
                m == instance.num_processors,
                proc <= m,
                assignment.len() == n,
                forall|j: int| 0 <= j < n ==> #[trigger] assignment@[j] < m || assignment@[j] == 0,
            decreases m - proc,
        {
            let mut current_node: usize = 0;
            let mut moving = true;
            while moving && current_node < self.vars.len()
                invariant
                    self.decode_requires(instance, var_assignment),
                    n == instance.num_jobs,
                    m == instance.num_processors,
                    proc < m,
                    assignment.len() == n,
                    forall|j: int| 0 <= j < n ==> #[trigger] assignment@[j] < m || assignment@[j] == 0,
                decreases (if current_node < self.vars.len() { self.vars.len() - current_node } else { 0int }) + (if moving {
                    1int
                } else {
                    0int
                }),
            {
                let old_current = current_node;
                let mut found = false;
                let mut job: usize = 0;
                while job < n && !found
                    invariant
                        self.decode_requires(instance, var_assignment),
                        n == instance.num_jobs,
                        m == instance.num_processors,
                        proc < m,
                        old_current < self.vars.len(),
                        found ==> current_node >= old_current,
                        !found ==> current_node == old_current,
                        current_node <= usize::MAX / 2 + usize::MAX / 2,
                        old_current <= usize::MAX / 2,
                        job <= n,
                        assignment.len() == n,
                        forall|j: int| 0 <= j < n ==> #[trigger] assignment@[j] < m || assignment@[j] == 0,
                    decreases n - job + (if found { 0int } else { 1int }),
                {
                    if unassigned_jobs.contains(&job) && true_set.contains(&self.vars[old_current][job]) {
                        unassigned_jobs.remove(&job);
                        assignment.set(job, proc);
                        current_node = old_current + instance.job_sizes[job];
                        found = true;
                    } else {
                        job = job + 1;
                    }
                }
                if current_node == old_current {
                    moving = false;
                }
            }
            proc = proc + 1;
        }
        proof {
            assert forall|p: int| 0 <= p < m implies #[trigger] load(instance.job_sizes@, assignment@, p, assignment@.len() as int) <= usize::MAX by {
                lemma_load_le_total(instance.job_sizes@, assignment@, p, n as int);
            }
        }
        let makespan = calc_makespan(instance, &assignment);
        Solution { makespan, assignment }
    }

    fn get_num_vars(&self) -> (n: usize)
        ensures
            n == self.names().spec_peek(),
    {
        self.var_name_generator.peek()
    }
}

} // verus!
