//! Cardinality networks: clauses that sort a set of boolean variables into a unary
//! count (at most `max_true` of them may be true), merge two such counts, and read off
//! the parity of a count.
use vstd::prelude::*;
use crate::encoding::encoder::{VarNameGenerator, Clause, Clauses, all_valid, valid_var, pos, neg, proper_lit};
use crate::encoding::encoder::all_sat;
use crate::encoding::encoder::clause_sat;
use crate::encoding::encoder::lit_true;
use crate::encoding::encoder::lemma_all_sat_append;
use crate::encoding::encoder::lemma_all_sat_push;
use crate::encoding::encoder::lemma_pos_neg;
use crate::encoding::sat_encoding::binary_arithmetic::{lit_pos, lit_neg, fresh_range, fresh_vars, unit, spec_min};

verus! {

/// The result of a network in the specification: its clauses, its output variables,
/// and the next fresh variable name after it.
pub struct NetOut {
    pub clauses: Seq<Seq<i32>>,
    pub outs: Seq<usize>,
    pub next: int,
}

fn add2(clauses: &mut Clauses, a: i32, b: i32)
    requires
        old(clauses).wf(),
        proper_lit(a),
        proper_lit(b),
    ensures
        final(clauses).wf(),
        final(clauses)@ == old(clauses)@.push(seq![a, b]),
{
    let c = Clause { vars: vec![a, b] };
    assert(c.vars@ =~= seq![a, b]);
    clauses.add_clause(c);
}

fn add3(clauses: &mut Clauses, a: i32, b: i32, c: i32)
    requires
        old(clauses).wf(),
        proper_lit(a),
        proper_lit(b),
        proper_lit(c),
    ensures
        final(clauses).wf(),
        final(clauses)@ == old(clauses)@.push(seq![a, b, c]),
{
    let cl = Clause { vars: vec![a, b, c] };
    assert(cl.vars@ =~= seq![a, b, c]);
    clauses.add_clause(cl);
}

fn add1(clauses: &mut Clauses, a: i32)
    requires
        old(clauses).wf(),
        proper_lit(a),
    ensures
        final(clauses).wf(),
        final(clauses)@ == old(clauses)@.push(unit(a)),
{
    let c = Clause { vars: vec![a] };
    assert(c.vars@ =~= unit(a));
    clauses.add_clause(c);
}

// ---------------------------------------------------------------------------------
// basic_sort: a totalizer built one input at a time
// ---------------------------------------------------------------------------------

/// The clauses for output `j` of a layer that adds input `x` to the counter `prev`.
pub open spec fn sort_cell(prev: Seq<usize>, x: usize, nw: usize, j: int) -> Seq<Seq<i32>> {
    (if j > 0 {
        seq![seq![neg(prev[j - 1]), neg(x), pos(nw)], seq![pos(prev[j - 1]), neg(nw)]]
    } else {
        seq![seq![neg(prev[j]), pos(nw)], seq![neg(x), pos(nw)]]
    }) + (if j < prev.len() {
        seq![seq![pos(prev[j]), pos(x), neg(nw)], seq![neg(prev[j]), pos(nw)]]
    } else {
        seq![seq![pos(x), neg(nw)]]
    })
}

/// The clauses of the cells `j < hi` of a layer.
pub open spec fn sort_layer(prev: Seq<usize>, x: usize, nw: Seq<usize>, hi: int) -> Seq<Seq<i32>>
    decreases hi,
{
    if hi <= 0 {
        Seq::empty()
    } else {
        sort_layer(prev, x, nw, hi - 1) + sort_cell(prev, x, nw[hi - 1], hi - 1)
    }
}

/// The width of layer `i` (the counter after `i + 1` inputs).
pub open spec fn sort_width(i: int, max_true: int) -> int {
    spec_min(i, max_true) + 1
}

/// The totalizer after the inputs below `i` (`i >= 1`).
pub open spec fn sort_state(vars: Seq<usize>, max_true: int, start: int, i: int) -> NetOut
    decreases i,
{
    if i <= 1 {
        NetOut { clauses: Seq::empty(), outs: seq![vars[0]], next: start }
    } else {
        let st = sort_state(vars, max_true, start, i - 1);
        let w = sort_width(i - 1, max_true);
        let nw = fresh_range(st.next, w as nat);
        NetOut {
            clauses: st.clauses + sort_layer(st.outs, vars[i - 1], nw, w),
            outs: nw,
            next: st.next + w,
        }
    }
}

/// The result of `basic_sort`.
pub open spec fn spec_basic_sort(vars: Seq<usize>, max_true: int, start: int) -> NetOut {
    if vars.len() == 0 {
        NetOut { clauses: Seq::empty(), outs: Seq::empty(), next: start }
    } else {
        let st = sort_state(vars, max_true, start, vars.len() as int);
        if st.outs.len() >= max_true + 1 {
            NetOut {
                clauses: st.clauses.push(unit(neg(st.outs[st.outs.len() - 1]))),
                outs: st.outs.drop_last(),
                next: st.next,
            }
        } else {
            st
        }
    }
}

proof fn lemma_sort_state(vars: Seq<usize>, max_true: int, start: int, i: int)
    requires
        1 <= i <= vars.len(),
        0 <= max_true,
    ensures
        sort_state(vars, max_true, start, i).next >= start,
        sort_state(vars, max_true, start, i).outs.len() == sort_width(i - 1, max_true),
    decreases i,
{
    if i > 1 {
        lemma_sort_state(vars, max_true, start, i - 1);
    }
}

pub fn basic_sort(vars: &Vec<usize>, max_true: usize, var_name_generator: &mut VarNameGenerator) -> (res: (
    Clauses,
    Vec<usize>,
))
    requires
        all_valid(vars@),
        max_true < usize::MAX,
        1 <= old(var_name_generator).spec_peek(),
        spec_basic_sort(vars@, max_true as int, old(var_name_generator).spec_peek() as int).next <= i32::MAX + 1,
    ensures
        ({
            let r = spec_basic_sort(vars@, max_true as int, old(var_name_generator).spec_peek() as int);
            &&& res.0.wf()
            &&& res.0@ == r.clauses
            &&& res.1@ == r.outs
            &&& final(var_name_generator).spec_peek() == r.next
        }),
        all_valid(res.1@),
{
    let mut clauses: Clauses = Clauses::new();
    let ghost start = var_name_generator.spec_peek() as int;
    if vars.len() == 0 {
        return (clauses, Vec::new());
    }
    let ghost total = sort_state(vars@, max_true as int, start, vars.len() as int);
    proof {
        lemma_sort_state(vars@, max_true as int, start, vars.len() as int);
    }
    let mut previous_vars: Vec<usize> = vec![vars[0]];
    assert(previous_vars@ =~= seq![vars@[0]]);
    let mut i: usize = 1;
    while i < vars.len()
        invariant
            all_valid(vars@),
            max_true < usize::MAX,
            1 <= i <= vars.len(),
            start >= 1,
            total == sort_state(vars@, max_true as int, start, vars.len() as int),
            total.next <= i32::MAX + 1,
            var_name_generator.spec_peek() == sort_state(vars@, max_true as int, start, i as int).next,
            clauses.wf(),
            clauses@ == sort_state(vars@, max_true as int, start, i as int).clauses,
            previous_vars@ == sort_state(vars@, max_true as int, start, i as int).outs,
            all_valid(previous_vars@),
        decreases vars.len() - i,
    {
        let ghost st = sort_state(vars@, max_true as int, start, i as int);
        proof {
            lemma_sort_state(vars@, max_true as int, start, i as int);
            lemma_sort_state(vars@, max_true as int, start, i + 1);
            lemma_sort_state_mono(vars@, max_true as int, start, (i + 1) as int, vars.len() as int);
        }
        let width = if i <= max_true {
            i
        } else {
            max_true
        } + 1;
        let new_vars = fresh_vars(width, var_name_generator);
        let ghost nw = new_vars@;
        let x = vars[i];
        assert(valid_var(x as int));
        let ghost base = clauses@;
        let mut j: usize = 0;
        while j < width
            invariant
                all_valid(previous_vars@),
                all_valid(new_vars@),
                nw == new_vars@,
                new_vars.len() == width,
                previous_vars@ == st.outs,
                previous_vars.len() == sort_width(i - 1, max_true as int),
                previous_vars.len() >= 1,
                i <= max_true ==> width == i + 1,
                i > max_true ==> width == max_true + 1,
                valid_var(x as int),
                j <= width,
                clauses.wf(),
                clauses@ == base + sort_layer(st.outs, x, nw, j as int),
            decreases width - j,
        {
            let new_var = new_vars[j];
            assert(valid_var(new_var as int));
            let ghost before = clauses@;
            if j > 0 {
                assert(valid_var(previous_vars@[j - 1] as int));
                add3(&mut clauses, lit_neg(previous_vars[j - 1]), lit_neg(x), lit_pos(new_var));
                add2(&mut clauses, lit_pos(previous_vars[j - 1]), lit_neg(new_var));
            } else {
                assert(valid_var(previous_vars@[0] as int));
                add2(&mut clauses, lit_neg(previous_vars[j]), lit_pos(new_var));
                add2(&mut clauses, lit_neg(x), lit_pos(new_var));
            }
            if j < previous_vars.len() {
                assert(valid_var(previous_vars@[j as int] as int));
                add3(&mut clauses, lit_pos(previous_vars[j]), lit_pos(x), lit_neg(new_var));
                add2(&mut clauses, lit_neg(previous_vars[j]), lit_pos(new_var));
            } else {
                add2(&mut clauses, lit_pos(x), lit_neg(new_var));
            }
            assert(clauses@ =~= before + sort_cell(st.outs, x, nw[j as int], j as int));
            assert(clauses@ =~= base + sort_layer(st.outs, x, nw, j + 1));
            j = j + 1;
        }
        previous_vars = new_vars;
        i = i + 1;
    }
    if previous_vars.len() >= max_true + 1 {
        let last = previous_vars[previous_vars.len() - 1];
        assert(valid_var(last as int));
        add1(&mut clauses, lit_neg(last));
        let ghost full = previous_vars@;
        previous_vars.pop();
        assert forall|k: int| 0 <= k < previous_vars.len() implies valid_var(#[trigger] previous_vars@[k] as int) by {
            assert(previous_vars@[k] == full[k]);
        }
    }
    (clauses, previous_vars)
}

/// The totalizer after `i` inputs has taken at most `(i - 1) * i` fresh variables.
proof fn lemma_sort_state_size(vars: Seq<usize>, max_true: int, start: int, i: int)
    requires
        1 <= i <= vars.len(),
        0 <= max_true,
    ensures
        sort_state(vars, max_true, start, i).next - start <= (i - 1) * i,
    decreases i,
{
    if i > 1 {
        lemma_sort_state_size(vars, max_true, start, i - 1);
        assert((i - 2) * (i - 1) + i <= (i - 1) * i) by (nonlinear_arith)
            requires
                i >= 2,
        ;
    }
}

/// `basic_sort` on `n` inputs takes at most `n * n` fresh variables and gives at most `n`
/// outputs.
pub proof fn lemma_basic_sort_size(vars: Seq<usize>, max_true: int, start: int)
    requires
        0 <= max_true,
    ensures
        spec_basic_sort(vars, max_true, start).next - start <= vars.len() * vars.len(),
        spec_basic_sort(vars, max_true, start).outs.len() <= vars.len(),
        spec_basic_sort(vars, max_true, start).next >= start,
{
    if vars.len() > 0 {
        let n = vars.len() as int;
        lemma_sort_state_size(vars, max_true, start, n);
        lemma_sort_state(vars, max_true, start, n);
        assert((n - 1) * n <= n * n) by (nonlinear_arith)
            requires
                n >= 1,
        ;
    }
}

/// A totalizer with a positive bound gives as many outputs as it has inputs, up to the
/// bound.
pub proof fn lemma_basic_sort_outs(vars: Seq<usize>, max_true: int, start: int)
    requires
        max_true >= 1,
        vars.len() >= 1,
    ensures
        spec_basic_sort(vars, max_true, start).outs.len() == spec_min(vars.len() as int, max_true),
{
    lemma_sort_state(vars, max_true, start, vars.len() as int);
}

/// Under `a`, the true entries of `v` come first.
pub open spec fn sorted_true(a: spec_fn(int) -> bool, v: Seq<usize>) -> bool {
    forall|t: int| 0 < t < v.len() && a(#[trigger] v[t] as int) ==> a(v[t - 1] as int)
}

/// In a list whose true entries come first, entry `t` is true exactly when more than `t`
/// entries are.
proof fn lemma_sorted_count(a: spec_fn(int) -> bool, v: Seq<usize>, i: int)
    requires
        sorted_true(a, v),
        0 <= i <= v.len(),
    ensures
        forall|t: int| 0 <= t < i ==> (a(#[trigger] v[t] as int) <==> true_count(a, v, i) > t),
        true_count(a, v, i) == true_count(a, v, i),
    decreases i,
{
    if i > 0 {
        lemma_sorted_count(a, v, i - 1);
        lemma_true_count_bound(a, v, i - 1);
        let c = true_count(a, v, i - 1);
        if a(v[i - 1] as int) {
            assert forall|t: int| 0 <= t < i - 1 implies a(#[trigger] v[t] as int) by {
                lemma_sorted_prefix(a, v, t, i - 1);
            }
            assert(c == i - 1) by {
                lemma_all_true_count(a, v, i - 1);
            }
        }
    }
}

/// In a list whose true entries come first, a true entry has only true entries before it.
proof fn lemma_sorted_prefix(a: spec_fn(int) -> bool, v: Seq<usize>, t: int, k: int)
    requires
        sorted_true(a, v),
        0 <= t <= k < v.len(),
        a(v[k] as int),
    ensures
        a(v[t] as int),
    decreases k - t,
{
    if t < k {
        assert(a(v[k - 1] as int));
        lemma_sorted_prefix(a, v, t, k - 1);
    }
}

proof fn lemma_all_true_count(a: spec_fn(int) -> bool, v: Seq<usize>, i: int)
    requires
        0 <= i <= v.len(),
        forall|t: int| 0 <= t < i ==> a(#[trigger] v[t] as int),
    ensures
        true_count(a, v, i) == i,
    decreases i,
{
    if i > 0 {
        lemma_all_true_count(a, v, i - 1);
    }
}

proof fn lemma_merge_copy_sat(a: spec_fn(int) -> bool, v1: Seq<usize>, v2: Seq<usize>, m: Seq<usize>, hi: int, t: int)
    requires
        all_valid(v1),
        all_valid(v2),
        all_valid(m),
        0 <= t < hi <= m.len(),
        all_sat(a, merge_copy(v1, v2, m, hi)),
    ensures
        t < v1.len() && a(v1[t] as int) ==> a(m[t] as int),
        t < v2.len() && a(v2[t] as int) ==> a(m[t] as int),
    decreases hi,
{
    let i = hi - 1;
    let c1 = if i < v1.len() { seq![seq![neg(v1[i]), pos(m[i])]] } else { Seq::<Seq<i32>>::empty() };
    let c2 = if i < v2.len() { seq![seq![neg(v2[i]), pos(m[i])]] } else { Seq::<Seq<i32>>::empty() };
    lemma_all_sat_append(a, merge_copy(v1, v2, m, hi - 1) + c1, c2);
    lemma_all_sat_append(a, merge_copy(v1, v2, m, hi - 1), c1);
    if t < i {
        lemma_merge_copy_sat(a, v1, v2, m, hi - 1, t);
    } else {
        lemma_pos_neg(a, m[i]);
        if i < v1.len() {
            lemma_pos_neg(a, v1[i]);
            assert(c1[0] == seq![neg(v1[i]), pos(m[i])]);
            assert(clause_sat(a, c1[0]));
        }
        if i < v2.len() {
            lemma_pos_neg(a, v2[i]);
            assert(c2[0] == seq![neg(v2[i]), pos(m[i])]);
            assert(clause_sat(a, c2[0]));
        }
    }
}

proof fn lemma_merge_row_sat(a: spec_fn(int) -> bool, v1: Seq<usize>, v2: Seq<usize>, m: Seq<usize>, i: int, hi: int, j: int)
    requires
        all_valid(v1),
        all_valid(v2),
        all_valid(m),
        0 <= i < v1.len(),
        0 <= j < hi <= v2.len(),
        i + hi < m.len(),
        all_sat(a, merge_row(v1, v2, m, i, hi)),
        a(v1[i] as int),
        a(v2[j] as int),
    ensures
        a(m[i + j + 1] as int),
    decreases hi,
{
    let k = hi - 1;
    let c = seq![seq![neg(v1[i]), neg(v2[k]), pos(m[i + k + 1])], seq![pos(v1[i]), pos(v2[k]), neg(m[i + k])]];
    lemma_all_sat_append(a, merge_row(v1, v2, m, i, hi - 1), c);
    if j < k {
        lemma_merge_row_sat(a, v1, v2, m, i, hi - 1, j);
    } else {
        lemma_pos_neg(a, v1[i]);
        lemma_pos_neg(a, v2[k]);
        lemma_pos_neg(a, m[i + k + 1]);
        assert(clause_sat(a, c[0]));
    }
}

proof fn lemma_merge_rows_sat(a: spec_fn(int) -> bool, v1: Seq<usize>, v2: Seq<usize>, m: Seq<usize>, max_true: int, hi: int, i: int, j: int)
    requires
        all_valid(v1),
        all_valid(v2),
        all_valid(m),
        0 <= i < hi <= v1.len(),
        0 <= j < spec_min(max_true - i, v2.len() as int),
        m.len() == spec_min((v1.len() + v2.len()) as int, max_true + 1),
        all_sat(a, merge_rows(v1, v2, m, max_true, hi)),
        a(v1[i] as int),
        a(v2[j] as int),
    ensures
        a(m[i + j + 1] as int),
    decreases hi,
{
    let k = hi - 1;
    lemma_all_sat_append(a, merge_rows(v1, v2, m, max_true, hi - 1), merge_row(v1, v2, m, k, spec_min(max_true - k, v2.len() as int)));
    if i < k {
        lemma_merge_rows_sat(a, v1, v2, m, max_true, hi - 1, i, j);
    } else {
        lemma_merge_row_sat(a, v1, v2, m, i, spec_min(max_true - i, v2.len() as int), j);
    }
}

/// `basic_merge` adds two counts whose true entries come first: under every assignment that
/// satisfies its clauses, output `t` is true when the inputs hold more than `t` true
/// entries together, and where the outputs are cut at `max_true`, they hold at most
/// `max_true`.
pub proof fn lemma_basic_merge_counts(a: spec_fn(int) -> bool, v1: Seq<usize>, v2: Seq<usize>, max_true: int, start: int)
    requires
        0 <= max_true,
        1 <= start,
        all_valid(v1),
        all_valid(v2),
        sorted_true(a, v1),
        sorted_true(a, v2),
        spec_basic_merge(v1, v2, max_true, start).next <= i32::MAX + 1,
        all_sat(a, spec_basic_merge(v1, v2, max_true, start).clauses),
    ensures
        ({
            let c = true_count(a, v1, v1.len() as int) + true_count(a, v2, v2.len() as int);
            let r = spec_basic_merge(v1, v2, max_true, start);
            &&& forall|t: int| 0 <= t < r.outs.len() && c > t ==> a(#[trigger] r.outs[t] as int)
            &&& v1.len() + v2.len() > max_true ==> c <= max_true
        }),
{
    lemma_sorted_count(a, v1, v1.len() as int);
    lemma_sorted_count(a, v2, v2.len() as int);
    lemma_true_count_bound(a, v1, v1.len() as int);
    lemma_true_count_bound(a, v2, v2.len() as int);
    let c1 = true_count(a, v1, v1.len() as int);
    let c2 = true_count(a, v2, v2.len() as int);
    let r = spec_basic_merge(v1, v2, max_true, start);
    if v1.len() == 0 {
        assert(c1 == 0);
        if v2.len() > max_true {
            let u = unit(neg(v2[max_true]));
            assert(r.clauses[0] == u);
            assert(clause_sat(a, u));
            lemma_pos_neg(a, v2[max_true]);
            assert(u[0] == neg(v2[max_true]));
        }
    } else if v2.len() == 0 {
        assert(c2 == 0);
        if v1.len() > max_true {
            let u = unit(neg(v1[max_true]));
            assert(r.clauses[0] == u);
            assert(clause_sat(a, u));
            lemma_pos_neg(a, v1[max_true]);
            assert(u[0] == neg(v1[max_true]));
        }
    } else {
        let size = spec_min((v1.len() + v2.len()) as int, max_true + 1);
        let m = fresh_range(start, size as nat);
        assert(all_valid(m)) by {
            assert forall|t: int| 0 <= t < m.len() implies valid_var(#[trigger] m[t] as int) by {
            }
        }
        let copy = merge_copy(v1, v2, m, size);
        let rows = merge_rows(v1, v2, m, max_true, spec_min(max_true, v1.len() as int));
        let body = copy + rows;
        if size == max_true + 1 {
            lemma_all_sat_push(a, body, unit(neg(m[max_true])));
        }
        lemma_all_sat_append(a, copy, rows);
        assert forall|t: int| 0 <= t < size && c1 + c2 > t implies a(#[trigger] m[t] as int) by {
            if c1 > t {
                lemma_merge_copy_sat(a, v1, v2, m, size, t);
            } else if c2 > t {
                lemma_merge_copy_sat(a, v1, v2, m, size, t);
            } else {
                let i = c1 - 1;
                let j = t - c1;
                assert(a(v1[i] as int));
                assert(a(v2[j] as int));
                lemma_merge_rows_sat(a, v1, v2, m, max_true, spec_min(max_true, v1.len() as int), i, j);
            }
        }
        if size == max_true + 1 {
            let u = unit(neg(m[max_true]));
            lemma_pos_neg(a, m[max_true]);
            assert(u[0] == neg(m[max_true]));
            assert(!a(m[max_true] as int));
            assert forall|t: int| 0 <= t < r.outs.len() && c1 + c2 > t implies a(#[trigger] r.outs[t] as int) by {
                assert(r.outs[t] == m[t]);
            }
        }
    }
}

/// `basic_merge` takes at most one fresh variable per input and gives at most one output
/// per input.
pub proof fn lemma_basic_merge_size(v1: Seq<usize>, v2: Seq<usize>, max_true: int, start: int)
    requires
        0 <= max_true,
    ensures
        spec_basic_merge(v1, v2, max_true, start).next - start <= v1.len() + v2.len(),
        spec_basic_merge(v1, v2, max_true, start).outs.len() <= v1.len() + v2.len(),
        spec_basic_merge(v1, v2, max_true, start).next >= start,
{
}

/// The inputs among the first `i` that `a` makes true.
pub open spec fn true_count(a: spec_fn(int) -> bool, vars: Seq<usize>, i: int) -> int
    decreases i,
{
    if i <= 0 {
        0
    } else {
        true_count(a, vars, i - 1) + if a(vars[i - 1] as int) {
            1int
        } else {
            0int
        }
    }
}

/// Between none and all of the first `i` inputs are true.
pub proof fn lemma_true_count_bound(a: spec_fn(int) -> bool, vars: Seq<usize>, i: int)
    requires
        0 <= i,
    ensures
        0 <= true_count(a, vars, i) <= i,
    decreases i,
{
    if i > 0 {
        lemma_true_count_bound(a, vars, i - 1);
    }
}

/// Under an assignment that satisfies the clauses of a cell, its output is true exactly when
/// the counter below it and the new input, or the counter at it, are.
proof fn lemma_sort_cell(a: spec_fn(int) -> bool, prev: Seq<usize>, x: usize, nw: usize, j: int)
    requires
        all_valid(prev),
        valid_var(x as int),
        valid_var(nw as int),
        prev.len() >= 1,
        0 <= j <= prev.len(),
        all_sat(a, sort_cell(prev, x, nw, j)),
    ensures
        a(nw as int) == (((j == 0 || a(prev[j - 1] as int)) && a(x as int)) || (j < prev.len() && a(prev[j] as int))),
{
    let c = sort_cell(prev, x, nw, j);
    lemma_pos_neg(a, x);
    lemma_pos_neg(a, nw);
    lemma_pos_neg(a, prev[0]);
    if j > 0 {
        lemma_pos_neg(a, prev[j - 1]);
    }
    if j < prev.len() {
        lemma_pos_neg(a, prev[j]);
    }
    assert(clause_sat(a, c[0]));
    assert(clause_sat(a, c[1]));
    assert(clause_sat(a, c[2]));
    if j < prev.len() {
        assert(clause_sat(a, c[3]));
    }
}

proof fn lemma_sort_layer(a: spec_fn(int) -> bool, prev: Seq<usize>, x: usize, nw: Seq<usize>, hi: int)
    requires
        all_valid(prev),
        valid_var(x as int),
        all_valid(nw),
        prev.len() >= 1,
        0 <= hi <= nw.len(),
        hi <= prev.len() + 1,
        all_sat(a, sort_layer(prev, x, nw, hi)),
    ensures
        forall|j: int| 0 <= j < hi ==> a(#[trigger] nw[j] as int) == (((j == 0 || a(prev[j - 1] as int)) && a(x as int))
            || (j < prev.len() && a(prev[j] as int))),
    decreases hi,
{
    if hi > 0 {
        lemma_all_sat_append(a, sort_layer(prev, x, nw, hi - 1), sort_cell(prev, x, nw[hi - 1], hi - 1));
        lemma_sort_layer(a, prev, x, nw, hi - 1);
        lemma_sort_cell(a, prev, x, nw[hi - 1], hi - 1);
    }
}

/// The totalizer after `i` inputs counts them: its output `j` is true exactly when more than
/// `j` of the inputs are.
proof fn lemma_sort_state_counts(a: spec_fn(int) -> bool, vars: Seq<usize>, max_true: int, start: int, i: int)
    requires
        1 <= i <= vars.len(),
        0 <= max_true,
        1 <= start,
        all_valid(vars),
        sort_state(vars, max_true, start, i).next <= i32::MAX + 1,
        all_sat(a, sort_state(vars, max_true, start, i).clauses),
    ensures
        all_valid(sort_state(vars, max_true, start, i).outs),
        forall|j: int| 0 <= j < sort_state(vars, max_true, start, i).outs.len()
            ==> a(#[trigger] sort_state(vars, max_true, start, i).outs[j] as int) == (true_count(a, vars, i) > j),
    decreases i,
{
    lemma_sort_state(vars, max_true, start, i);
    if i <= 1 {
        assert(valid_var(vars[0] as int));
        assert(true_count(a, vars, 0) == 0);
        assert(sort_state(vars, max_true, start, i).outs == seq![vars[0]]);
    } else {
        let st = sort_state(vars, max_true, start, i - 1);
        lemma_sort_state(vars, max_true, start, i - 1);
        let w = sort_width(i - 1, max_true);
        let nw = fresh_range(st.next, w as nat);
        let x = vars[i - 1];
        lemma_all_sat_append(a, st.clauses, sort_layer(st.outs, x, nw, w));
        lemma_sort_state_counts(a, vars, max_true, start, i - 1);
        assert(all_valid(nw)) by {
            assert forall|t: int| 0 <= t < nw.len() implies valid_var(#[trigger] nw[t] as int) by {
            }
        }
        assert(valid_var(x as int));
        lemma_sort_layer(a, st.outs, x, nw, w);
        lemma_true_count_bound(a, vars, i - 1);
        let c = true_count(a, vars, i - 1);
        assert(sort_state(vars, max_true, start, i).outs == nw);
        assert(true_count(a, vars, i) == c + if a(x as int) { 1int } else { 0int });
        assert forall|j: int| 0 <= j < w implies a(#[trigger] nw[j] as int) == (true_count(a, vars, i) > j) by {
            if j > 0 {
                assert(a(st.outs[j - 1] as int) == (c > j - 1));
            }
            if j < st.outs.len() {
                assert(a(st.outs[j] as int) == (c > j));
            }
        }
    }
}

/// The outputs of `basic_sort` are valid variables, where its fresh variables fit.
pub proof fn lemma_basic_sort_valid(vars: Seq<usize>, max_true: int, start: int)
    requires
        0 <= max_true,
        1 <= start,
        all_valid(vars),
        spec_basic_sort(vars, max_true, start).next <= i32::MAX + 1,
    ensures
        all_valid(spec_basic_sort(vars, max_true, start).outs),
{
    if vars.len() > 0 {
        let n = vars.len() as int;
        lemma_sort_state(vars, max_true, start, n);
        lemma_sort_state_outs_valid(vars, max_true, start, n);
        let o = sort_state(vars, max_true, start, n).outs;
        if o.len() >= max_true + 1 {
            assert forall|t: int| 0 <= t < o.drop_last().len() implies valid_var(#[trigger] o.drop_last()[t] as int) by {
                assert(o.drop_last()[t] == o[t]);
            }
        }
    }
}

proof fn lemma_sort_state_outs_valid(vars: Seq<usize>, max_true: int, start: int, i: int)
    requires
        1 <= i <= vars.len(),
        0 <= max_true,
        1 <= start,
        all_valid(vars),
        sort_state(vars, max_true, start, i).next <= i32::MAX + 1,
    ensures
        all_valid(sort_state(vars, max_true, start, i).outs),
{
    lemma_sort_state(vars, max_true, start, i);
    if i <= 1 {
        assert(valid_var(vars[0] as int));
    } else {
        lemma_sort_state(vars, max_true, start, i - 1);
        let st = sort_state(vars, max_true, start, i - 1);
        let nw = fresh_range(st.next, sort_width(i - 1, max_true) as nat);
        assert forall|t: int| 0 <= t < nw.len() implies valid_var(#[trigger] nw[t] as int) by {
        }
    }
}

/// `basic_sort` counts its inputs: under every assignment that satisfies its clauses, output
/// `j` is true exactly when more than `j` inputs are true; where there are more inputs than
/// `max_true`, at most `max_true` of them are true.
pub proof fn lemma_basic_sort_counts(a: spec_fn(int) -> bool, vars: Seq<usize>, max_true: int, start: int)
    requires
        0 <= max_true,
        1 <= start,
        all_valid(vars),
        spec_basic_sort(vars, max_true, start).next <= i32::MAX + 1,
        all_sat(a, spec_basic_sort(vars, max_true, start).clauses),
    ensures
        forall|j: int| 0 <= j < spec_basic_sort(vars, max_true, start).outs.len()
            ==> a(#[trigger] spec_basic_sort(vars, max_true, start).outs[j] as int) == (true_count(a, vars, vars.len() as int) > j),
        vars.len() > max_true ==> true_count(a, vars, vars.len() as int) <= max_true,
{
    if vars.len() > 0 {
        let n = vars.len() as int;
        let st = sort_state(vars, max_true, start, n);
        lemma_sort_state(vars, max_true, start, n);
        if st.outs.len() >= max_true + 1 {
            lemma_all_sat_push(a, st.clauses, unit(neg(st.outs[st.outs.len() - 1])));
            lemma_sort_state_counts(a, vars, max_true, start, n);
            let last = st.outs[st.outs.len() - 1];
            lemma_pos_neg(a, last);
            assert(unit(neg(last))[0] == neg(last));
            assert(!a(last as int));
        } else {
            lemma_sort_state_counts(a, vars, max_true, start, n);
        }
    }
}

/// Whether the fresh variables of `basic_sort` on `vars` with bound `max_true`, named from
/// `start`, all fit in a literal.
pub fn basic_sort_fits(vars: &Vec<usize>, max_true: usize, start: usize) -> (r: bool)
    ensures
        r == (spec_basic_sort(vars@, max_true as int, start as int).next <= i32::MAX + 1),
{
    let limit: u64 = 0x8000_0000;
    if start as u64 > limit {
        proof {
            lemma_basic_sort_size(vars@, max_true as int, start as int);
        }
        return false;
    }
    if vars.len() == 0 {
        return true;
    }
    let n = vars.len();
    let mut next: u64 = start as u64;
    let mut i: usize = 1;
    while i < n
        invariant
            1 <= i <= n,
            n == vars.len(),
            next == sort_state(vars@, max_true as int, start as int, i as int).next,
            next <= limit,
            limit == 0x8000_0000,
        decreases n - i,
    {
        let w: u64 = if i < max_true { i as u64 + 1 } else { max_true as u64 + 1 };
        if w > limit - next {
            proof {
                assert(sort_width(i as int, max_true as int) == w);
                assert(sort_state(vars@, max_true as int, start as int, i + 1).next == next + w);
                lemma_sort_state_mono(vars@, max_true as int, start as int, i + 1, n as int);
                assert(spec_basic_sort(vars@, max_true as int, start as int).next
                    == sort_state(vars@, max_true as int, start as int, n as int).next);
                assert(next + w > 0x8000_0000);
                assert(sort_state(vars@, max_true as int, start as int, n as int).next > i32::MAX + 1);
            }
            return false;
        }
        next = next + w;
        i = i + 1;
    }
    true
}

proof fn lemma_sort_state_mono(vars: Seq<usize>, max_true: int, start: int, i: int, k: int)
    requires
        1 <= i <= k <= vars.len(),
        0 <= max_true,
    ensures
        sort_state(vars, max_true, start, i).next <= sort_state(vars, max_true, start, k).next,
    decreases k - i,
{
    if i < k {
        lemma_sort_state_mono(vars, max_true, start, i, k - 1);
        lemma_sort_state(vars, max_true, start, k - 1);
    }
}

// ---------------------------------------------------------------------------------
// basic_merge: merging two unary counts directly
// ---------------------------------------------------------------------------------

/// The clauses `v_i -> m_i` for both inputs, for the outputs below `hi`.
pub open spec fn merge_copy(v1: Seq<usize>, v2: Seq<usize>, m: Seq<usize>, hi: int) -> Seq<Seq<i32>>
    decreases hi,
{
    if hi <= 0 {
        Seq::empty()
    } else {
        let i = hi - 1;
        merge_copy(v1, v2, m, hi - 1) + (if i < v1.len() {
            seq![seq![neg(v1[i]), pos(m[i])]]
        } else {
            Seq::<Seq<i32>>::empty()
        }) + (if i < v2.len() {
            seq![seq![neg(v2[i]), pos(m[i])]]
        } else {
            Seq::<Seq<i32>>::empty()
        })
    }
}

/// The clauses linking `v1[i]` and `v2[j]` to the outputs, for `j < hi`.
pub open spec fn merge_row(v1: Seq<usize>, v2: Seq<usize>, m: Seq<usize>, i: int, hi: int) -> Seq<Seq<i32>>
    decreases hi,
{
    if hi <= 0 {
        Seq::empty()
    } else {
        let j = hi - 1;
        merge_row(v1, v2, m, i, hi - 1) + seq![
            seq![neg(v1[i]), neg(v2[j]), pos(m[i + j + 1])],
            seq![pos(v1[i]), pos(v2[j]), neg(m[i + j])],
        ]
    }
}

/// The rows for `i < hi`.
pub open spec fn merge_rows(v1: Seq<usize>, v2: Seq<usize>, m: Seq<usize>, max_true: int, hi: int) -> Seq<Seq<i32>>
    decreases hi,
{
    if hi <= 0 {
        Seq::empty()
    } else {
        let i = hi - 1;
        merge_rows(v1, v2, m, max_true, hi - 1) + merge_row(v1, v2, m, i, spec_min(max_true - i, v2.len() as int))
    }
}

/// The result of `basic_merge`.
pub open spec fn spec_basic_merge(v1: Seq<usize>, v2: Seq<usize>, max_true: int, start: int) -> NetOut {
    if v1.len() == 0 {
        NetOut {
            clauses: if v2.len() > max_true { seq![unit(neg(v2[max_true]))] } else { Seq::empty() },
            outs: v2,
            next: start,
        }
    } else if v2.len() == 0 {
        NetOut {
            clauses: if v1.len() > max_true { seq![unit(neg(v1[max_true]))] } else { Seq::empty() },
            outs: v1,
            next: start,
        }
    } else {
        let size = spec_min((v1.len() + v2.len()) as int, max_true + 1);
        let m = fresh_range(start, size as nat);
        let body = merge_copy(v1, v2, m, size) + merge_rows(v1, v2, m, max_true, spec_min(max_true, v1.len() as int));
        if size == max_true + 1 {
            NetOut { clauses: body.push(unit(neg(m[max_true]))), outs: m.drop_last(), next: start + size }
        } else {
            NetOut { clauses: body, outs: m, next: start + size }
        }
    }
}

fn copy_vars(v: &Vec<usize>) -> (r: Vec<usize>)
    ensures
        r@ == v@,
{
    let mut r: Vec<usize> = Vec::new();
    let mut i: usize = 0;
    while i < v.len()
        invariant
            i <= v.len(),
            r@ =~= v@.take(i as int),
        decreases v.len() - i,
    {
        r.push(v[i]);
        i = i + 1;
    }
    assert(v@.take(v.len() as int) =~= v@);
    r
}

pub fn basic_merge(
    vars1: &Vec<usize>,
    vars2: &Vec<usize>,
    max_true: usize,
    var_name_generator: &mut VarNameGenerator,
) -> (res: (Clauses, Vec<usize>))
    requires
        all_valid(vars1@),
        all_valid(vars2@),
        max_true < usize::MAX,
        vars1.len() + vars2.len() <= usize::MAX,
        1 <= old(var_name_generator).spec_peek(),
        spec_basic_merge(vars1@, vars2@, max_true as int, old(var_name_generator).spec_peek() as int).next
            <= i32::MAX + 1,
    ensures
        ({
            let r = spec_basic_merge(vars1@, vars2@, max_true as int, old(var_name_generator).spec_peek() as int);
            &&& res.0.wf()
            &&& res.0@ == r.clauses
            &&& res.1@ == r.outs
            &&& final(var_name_generator).spec_peek() == r.next
        }),
        all_valid(res.1@),
{
    let mut clauses = Clauses::new();
    let ghost start = var_name_generator.spec_peek() as int;
    if vars1.len() == 0 {
        if vars2.len() > max_true {
            assert(valid_var(vars2@[max_true as int] as int));
            add1(&mut clauses, lit_neg(vars2[max_true]));
        }
        return (clauses, copy_vars(vars2));
    } else if vars2.len() == 0 {
        if vars1.len() > max_true {
            assert(valid_var(vars1@[max_true as int] as int));
            add1(&mut clauses, lit_neg(vars1[max_true]));
        }
        return (clauses, copy_vars(vars1));
    }
    let l1 = vars1.len();
    let l2 = vars2.len();
    let merged_size = if l1 + l2 <= max_true + 1 {
        l1 + l2
    } else {
        max_true + 1
    };
    let mut merged: Vec<usize> = fresh_vars(merged_size, var_name_generator);
    let ghost m = merged@;
    let ghost v1 = vars1@;
    let ghost v2 = vars2@;

    let mut i: usize = 0;
    while i < merged_size
        invariant
            all_valid(v1),
            all_valid(v2),
            all_valid(m),
            v1 == vars1@,
            v2 == vars2@,
            m == merged@,
            merged.len() == merged_size,
            i <= merged_size,
            clauses.wf(),
            clauses@ == merge_copy(v1, v2, m, i as int),
        decreases merged_size - i,
    {
        assert(valid_var(m[i as int] as int));
        if i < vars1.len() {
            assert(valid_var(v1[i as int] as int));
            add2(&mut clauses, lit_neg(vars1[i]), lit_pos(merged[i]));
        }
        if i < vars2.len() {
            assert(valid_var(v2[i as int] as int));
            add2(&mut clauses, lit_neg(vars2[i]), lit_pos(merged[i]));
        }
        assert(clauses@ =~= merge_copy(v1, v2, m, i + 1));
        i = i + 1;
    }
    let ghost copies = clauses@;
    let rows = if max_true <= l1 {
        max_true
    } else {
        l1
    };
    let mut i: usize = 0;
    while i < rows
        invariant
            all_valid(v1),
            all_valid(v2),
            all_valid(m),
            v1 == vars1@,
            v2 == vars2@,
            m == merged@,
            l1 == v1.len(),
            l2 == v2.len(),
            merged.len() == merged_size,
            merged_size == spec_min(l1 + l2, max_true + 1),
            rows == spec_min(max_true as int, l1 as int),
            i <= rows,
            clauses.wf(),
            clauses@ == copies + merge_rows(v1, v2, m, max_true as int, i as int),
        decreases rows - i,
    {
        let cols = if max_true - i <= l2 {
            max_true - i
        } else {
            l2
        };
        let ghost base = clauses@;
        let mut j: usize = 0;
        while j < cols
            invariant
                all_valid(v1),
                all_valid(v2),
                all_valid(m),
                v1 == vars1@,
                v2 == vars2@,
                m == merged@,
                l1 == v1.len(),
                l2 == v2.len(),
                merged.len() == merged_size,
                merged_size == spec_min(l1 + l2, max_true + 1),
                i < rows,
                rows == spec_min(max_true as int, l1 as int),
                cols == spec_min(max_true - i, l2 as int),
                j <= cols,
                clauses.wf(),
                clauses@ == base + merge_row(v1, v2, m, i as int, j as int),
            decreases cols - j,
        {
            assert(valid_var(v1[i as int] as int) && valid_var(v2[j as int] as int));
            assert(i + j + 1 < merged_size);
            assert(valid_var(m[i + j + 1] as int) && valid_var(m[i + j] as int));
            add3(&mut clauses, lit_neg(vars1[i]), lit_neg(vars2[j]), lit_pos(merged[i + j + 1]));
            add3(&mut clauses, lit_pos(vars1[i]), lit_pos(vars2[j]), lit_neg(merged[i + j]));
            assert(clauses@ =~= base + merge_row(v1, v2, m, i as int, j + 1));
            j = j + 1;
        }
        assert(clauses@ =~= copies + merge_rows(v1, v2, m, max_true as int, i + 1));
        i = i + 1;
    }
    if merged.len() == max_true + 1 {
        assert(valid_var(m[max_true as int] as int));
        add1(&mut clauses, lit_neg(merged[max_true]));
        merged.pop();
        assert forall|k: int| 0 <= k < merged.len() implies valid_var(#[trigger] merged@[k] as int) by {
            assert(merged@[k] == m[k]);
        }
    }
    (clauses, merged)
}

// ---------------------------------------------------------------------------------
// sorted_parity and sorted_exact_parity
// ---------------------------------------------------------------------------------

/// The clauses of `sorted_parity` from position `i` on.
pub open spec fn parity_clauses(v: Seq<usize>, p: usize, i: int) -> Seq<Seq<i32>>
    decreases v.len() - i,
{
    if i < v.len() - 1 {
        seq![seq![neg(v[i]), pos(v[i + 1]), pos(p)]] + parity_clauses(v, p, i + 2)
    } else if i == v.len() - 1 {
        seq![seq![neg(v[i]), pos(p)]]
    } else {
        Seq::empty()
    }
}

/// The clause of `parity_clauses(v, p, i)` for an even distance from `i` to `j`.
proof fn lemma_parity_clause_at(v: Seq<usize>, p: usize, i: int, j: int)
    requires
        0 <= i <= j < v.len(),
        (j - i) % 2 == 0,
    ensures
        (j - i) / 2 < parity_clauses(v, p, i).len(),
        j < v.len() - 1 ==> parity_clauses(v, p, i)[(j - i) / 2] == seq![neg(v[j]), pos(v[j + 1]), pos(p)],
        j == v.len() - 1 ==> parity_clauses(v, p, i)[(j - i) / 2] == seq![neg(v[j]), pos(p)],
    decreases j - i,
{
    if i < j {
        lemma_parity_clause_at(v, p, i + 2, j);
        assert(parity_clauses(v, p, i) == seq![seq![neg(v[i]), pos(v[i + 1]), pos(p)]] + parity_clauses(v, p, i + 2));
        assert((j - i) / 2 == 1 + (j - i - 2) / 2);
    }
}

/// For inputs whose true entries come first, an odd number of true inputs sets the parity
/// output of `sorted_parity` in every assignment that satisfies its clauses.
pub proof fn lemma_sorted_parity(a: spec_fn(int) -> bool, v: Seq<usize>, p: usize)
    requires
        all_valid(v),
        valid_var(p as int),
        v.len() >= 1,
        sorted_true(a, v),
        all_sat(a, parity_clauses(v, p, 0)),
        true_count(a, v, v.len() as int) % 2 == 1,
    ensures
        a(p as int),
{
    let n = v.len() as int;
    let c = true_count(a, v, n);
    lemma_sorted_count(a, v, n);
    lemma_true_count_bound(a, v, n);
    let j = c - 1;
    assert(0 <= j < n);
    assert(a(v[j] as int));
    lemma_parity_clause_at(v, p, 0, j);
    let cl = parity_clauses(v, p, 0)[j / 2];
    assert(clause_sat(a, cl));
    lemma_pos_neg(a, v[j]);
    lemma_pos_neg(a, p);
    if j < n - 1 {
        assert(!a(v[j + 1] as int));
        lemma_pos_neg(a, v[j + 1]);
        let k = choose|k: int| 0 <= k < cl.len() && lit_true(a, #[trigger] cl[k]);
        assert(cl.len() == 3);
    } else {
        let k = choose|k: int| 0 <= k < cl.len() && lit_true(a, #[trigger] cl[k]);
        assert(cl.len() == 2);
    }
}

/// For inputs whose true entries come first and some true input, the output of
/// `sorted_exact_parity` holds in every assignment that satisfies its clauses exactly when
/// the number of true inputs is odd.
pub proof fn lemma_sorted_exact_parity(a: spec_fn(int) -> bool, v: Seq<usize>, p: usize)
    requires
        all_valid(v),
        valid_var(p as int),
        v.len() >= 1,
        sorted_true(a, v),
        all_sat(a, spec_exact_parity(v, p)),
        true_count(a, v, v.len() as int) >= 1,
    ensures
        a(p as int) <==> true_count(a, v, v.len() as int) % 2 == 1,
{
    let n = v.len() as int;
    let c = true_count(a, v, n);
    lemma_sorted_count(a, v, n);
    lemma_true_count_bound(a, v, n);
    let j = c - 1;
    assert(0 <= j < n);
    assert(a(v[j] as int));
    let cs = spec_exact_parity(v, p);
    assert(clause_sat(a, cs[j]));
    let cl = cs[j];
    lemma_pos_neg(a, v[j]);
    lemma_pos_neg(a, p);
    if j < n - 1 {
        assert(!a(v[j + 1] as int));
        lemma_pos_neg(a, v[j + 1]);
        assert(cl == exact_parity_clause(v, p, j));
        let k = choose|k: int| 0 <= k < cl.len() && lit_true(a, #[trigger] cl[k]);
        assert(cl.len() == 3);
    } else {
        let k = choose|k: int| 0 <= k < cl.len() && lit_true(a, #[trigger] cl[k]);
        assert(cl.len() == 2);
    }
}

pub fn sorted_parity(vars: &Vec<usize>, var_name_generator: &mut VarNameGenerator) -> (res: (Clauses, usize))
    requires
        vars.len() >= 1,
        all_valid(vars@),
        1 <= old(var_name_generator).spec_peek() <= i32::MAX,
    ensures
        res.1 == old(var_name_generator).spec_peek(),
        final(var_name_generator).spec_peek() == old(var_name_generator).spec_peek() + 1,
        res.0.wf(),
        res.0@ == parity_clauses(vars@, res.1, 0),
{
    let mut clauses = Clauses::new();
    let parity = var_name_generator.next();
    let ghost v = vars@;
    let mut i: usize = 0;
    while i < vars.len() - 1
        invariant
            v == vars@,
            all_valid(v),
            vars.len() >= 1,
            valid_var(parity as int),
            i <= vars.len(),
            clauses.wf(),
            clauses@ + parity_clauses(v, parity, i as int) == parity_clauses(v, parity, 0),
        decreases vars.len() - i,
    {
        assert(valid_var(v[i as int] as int) && valid_var(v[i + 1] as int));
        let ghost before = clauses@;
        add3(&mut clauses, lit_neg(vars[i]), lit_pos(vars[i + 1]), lit_pos(parity));
        assert(parity_clauses(v, parity, i as int) == seq![seq![neg(v[i as int]), pos(v[i + 1]), pos(parity)]]
            + parity_clauses(v, parity, i + 2));
        assert(clauses@ + parity_clauses(v, parity, i + 2) =~= before + parity_clauses(v, parity, i as int));
        i = i + 2;
    }
    if i == vars.len() - 1 {
        assert(valid_var(v[i as int] as int));
        let ghost before = clauses@;
        add2(&mut clauses, lit_neg(vars[i]), lit_pos(parity));
        assert(clauses@ =~= before + parity_clauses(v, parity, i as int));
        assert(clauses@ =~= parity_clauses(v, parity, 0));
    } else {
        assert(clauses@ =~= clauses@ + parity_clauses(v, parity, i as int));
    }
    (clauses, parity)
}

/// The clause of `sorted_exact_parity` at position `i < len - 1`.
pub open spec fn exact_parity_clause(v: Seq<usize>, p: usize, i: int) -> Seq<i32> {
    if i % 2 == 0 {
        seq![neg(v[i]), pos(v[i + 1]), pos(p)]
    } else {
        seq![neg(v[i]), pos(v[i + 1]), neg(p)]
    }
}

/// The clauses of `sorted_exact_parity`.
pub open spec fn spec_exact_parity(v: Seq<usize>, p: usize) -> Seq<Seq<i32>> {
    let last = v.len() - 1;
    Seq::new((v.len() - 1) as nat, |i: int| exact_parity_clause(v, p, i)).push(
        if last % 2 == 0 { seq![neg(v[last]), pos(p)] } else { seq![neg(v[last]), neg(p)] },
    )
}

pub fn sorted_exact_parity(vars: &Vec<usize>, var_name_generator: &mut VarNameGenerator) -> (res: (
    Clauses,
    usize,
))
    requires
        vars.len() >= 1,
        all_valid(vars@),
        1 <= old(var_name_generator).spec_peek() <= i32::MAX,
    ensures
        res.1 == old(var_name_generator).spec_peek(),
        final(var_name_generator).spec_peek() == old(var_name_generator).spec_peek() + 1,
        res.0.wf(),
        res.0@ == spec_exact_parity(vars@, res.1),
{
    let mut clauses = Clauses::new();
    let parity = var_name_generator.next();
    let ghost v = vars@;
    let ghost body = Seq::new((v.len() - 1) as nat, |i: int| exact_parity_clause(v, parity, i));
    let mut i: usize = 0;
    while i < vars.len() - 1
        invariant
            v == vars@,
            all_valid(v),
            vars.len() >= 1,
            valid_var(parity as int),
            body == Seq::new((v.len() - 1) as nat, |i: int| exact_parity_clause(v, parity, i)),
            i <= vars.len() - 1,
            clauses.wf(),
            clauses@ == body.take(i as int),
        decreases vars.len() - i,
    {
        assert(valid_var(v[i as int] as int) && valid_var(v[i + 1] as int));
        if i % 2 == 0 {
            add3(&mut clauses, lit_neg(vars[i]), lit_pos(vars[i + 1]), lit_pos(parity));
        } else {
            add3(&mut clauses, lit_neg(vars[i]), lit_pos(vars[i + 1]), lit_neg(parity));
        }
        assert(clauses@ =~= body.take(i + 1));
        i = i + 1;
    }
    assert(body.take(i as int) =~= body);
    assert(valid_var(v[i as int] as int));
    if i % 2 == 0 {
        add2(&mut clauses, lit_neg(vars[i]), lit_pos(parity));
    } else {
        add2(&mut clauses, lit_neg(vars[i]), lit_neg(parity));
    }
    (clauses, parity)
}

// ---------------------------------------------------------------------------------
// half_merge and half_sort: odd-even merging networks
// ---------------------------------------------------------------------------------

/// The entries at even positions.
pub open spec fn evens(v: Seq<usize>) -> Seq<usize> {
    Seq::new(((v.len() + 1) / 2) as nat, |i: int| v[2 * i])
}

/// The entries at odd positions.
pub open spec fn odds(v: Seq<usize>) -> Seq<usize> {
    Seq::new((v.len() / 2) as nat, |i: int| v[2 * i + 1])
}

/// The interleaving of the merged evens `ev` and odds `od`, from output `merged` on.
pub open spec fn combine_loop(
    ev: Seq<usize>,
    od: Seq<usize>,
    max_true: int,
    merged: Seq<usize>,
    i: int,
    next: int,
    cls: Seq<Seq<i32>>,
) -> NetOut
    decreases max_true + 1 - merged.len(),
{
    if merged.len() > max_true {
        NetOut { clauses: cls, outs: merged, next }
    } else if i + 1 < ev.len() && i < od.len() {
        let c = next as usize;
        if merged.len() % 2 == 0 {
            combine_loop(
                ev,
                od,
                max_true,
                merged.push(c),
                i + 1,
                next + 1,
                cls.push(seq![neg(ev[i + 1]), neg(od[i]), pos(c)]),
            )
        } else {
            combine_loop(
                ev,
                od,
                max_true,
                merged.push(c),
                i,
                next + 1,
                cls + seq![seq![neg(ev[i + 1]), pos(c)], seq![neg(od[i]), pos(c)]],
            )
        }
    } else if i + 1 < ev.len() {
        combine_loop(ev, od, max_true, merged.push(ev[i + 1]), i + 1, next, cls)
    } else if i < od.len() {
        combine_loop(ev, od, max_true, merged.push(od[i]), i + 1, next, cls)
    } else {
        NetOut { clauses: cls, outs: merged, next }
    }
}

/// The combination step of `half_merge`, with the final cut at `max_true`.
pub open spec fn combine(ev: Seq<usize>, od: Seq<usize>, max_true: int, next: int) -> NetOut {
    let r = combine_loop(ev, od, max_true, seq![ev[0]], 0, next, Seq::empty());
    if r.outs.len() == max_true + 1 {
        NetOut { clauses: r.clauses.push(unit(neg(r.outs.last()))), outs: r.outs.drop_last(), next: r.next }
    } else {
        r
    }
}

/// The result of `half_merge`.
pub open spec fn spec_half_merge(v1: Seq<usize>, v2: Seq<usize>, max_true: int, start: int) -> NetOut
    decreases v1.len() + v2.len(),
{
    if v1.len() == 1 && v2.len() == 1 {
        let o = fresh_range(start, 2);
        let cls = seq![
            seq![neg(v1[0]), neg(v2[0]), pos(o[1])],
            seq![neg(v1[0]), pos(o[0])],
            seq![neg(v2[0]), pos(o[0])],
        ];
        if max_true == 1 {
            NetOut { clauses: cls.push(unit(neg(o[1]))), outs: seq![o[0]], next: start + 2 }
        } else {
            NetOut { clauses: cls, outs: o, next: start + 2 }
        }
    } else if v1.len() == 0 {
        if v2.len() > max_true {
            NetOut { clauses: seq![unit(neg(v2[max_true]))], outs: v2.take(max_true + 1), next: start }
        } else {
            NetOut { clauses: Seq::empty(), outs: v2, next: start }
        }
    } else if v2.len() == 0 {
        if v1.len() > max_true {
            NetOut { clauses: seq![unit(neg(v1[max_true]))], outs: v1.take(max_true + 1), next: start }
        } else {
            NetOut { clauses: Seq::empty(), outs: v1, next: start }
        }
    } else {
        let e = spec_half_merge(evens(v1), evens(v2), max_true, start);
        let o = spec_half_merge(odds(v1), odds(v2), max_true, e.next);
        let c = combine(e.outs, o.outs, max_true, o.next);
        NetOut { clauses: e.clauses + o.clauses + c.clauses, outs: c.outs, next: c.next }
    }
}

/// Every output of `combine_loop` is an input or a fresh variable; it never goes back.
proof fn lemma_combine_loop(
    ev: Seq<usize>,
    od: Seq<usize>,
    max_true: int,
    merged: Seq<usize>,
    i: int,
    next: int,
    cls: Seq<Seq<i32>>,
)
    requires
        0 <= i,
        merged.len() >= 1,
    ensures
        combine_loop(ev, od, max_true, merged, i, next, cls).next >= next,
        combine_loop(ev, od, max_true, merged, i, next, cls).outs.len() >= 1,
        combine_loop(ev, od, max_true, merged, i, next, cls).outs.len() <= spec_max(max_true + 1, merged.len() as int),
        (all_valid(ev) && all_valid(od) && all_valid(merged) && next >= 1 && combine_loop(
            ev,
            od,
            max_true,
            merged,
            i,
            next,
            cls,
        ).next <= i32::MAX + 1) ==> all_valid(combine_loop(ev, od, max_true, merged, i, next, cls).outs),
    decreases max_true + 1 - merged.len(),
{
    if merged.len() > max_true {
    } else if i + 1 < ev.len() && i < od.len() {
        let c = next as usize;
        if merged.len() % 2 == 0 {
            lemma_combine_loop(ev, od, max_true, merged.push(c), i + 1, next + 1, cls.push(seq![neg(ev[i + 1]), neg(od[i]), pos(c)]));
        } else {
            lemma_combine_loop(
                ev,
                od,
                max_true,
                merged.push(c),
                i,
                next + 1,
                cls + seq![seq![neg(ev[i + 1]), pos(c)], seq![neg(od[i]), pos(c)]],
            );
        }
        lemma_push_valid(merged, c);
    } else if i + 1 < ev.len() {
        lemma_combine_loop(ev, od, max_true, merged.push(ev[i + 1]), i + 1, next, cls);
        if all_valid(ev) {
            lemma_push_valid(merged, ev[i + 1]);
        }
    } else if i < od.len() {
        lemma_combine_loop(ev, od, max_true, merged.push(od[i]), i + 1, next, cls);
        if all_valid(od) {
            lemma_push_valid(merged, od[i]);
        }
    }
}

pub open spec fn spec_max(a: int, b: int) -> int {
    if a >= b {
        a
    } else {
        b
    }
}

proof fn lemma_push_valid(v: Seq<usize>, x: usize)
    ensures
        (all_valid(v) && valid_var(x as int)) ==> all_valid(v.push(x)),
{
    if all_valid(v) && valid_var(x as int) {
        assert forall|j: int| 0 <= j < v.push(x).len() implies valid_var(#[trigger] v.push(x)[j] as int) by {
            if j < v.len() {
                assert(v.push(x)[j] == v[j]);
            }
        }
    }
}

proof fn lemma_evens_odds(v: Seq<usize>)
    ensures
        all_valid(v) ==> all_valid(evens(v)) && all_valid(odds(v)),
        v.len() >= 1 ==> evens(v).len() >= 1,
        evens(v).len() <= v.len(),
        odds(v).len() <= v.len(),
        v.len() >= 2 ==> evens(v).len() < v.len() && odds(v).len() < v.len(),
        v.len() == 1 ==> odds(v).len() == 0,
{
    if all_valid(v) {
        assert forall|j: int| 0 <= j < evens(v).len() implies valid_var(#[trigger] evens(v)[j] as int) by {
            assert(evens(v)[j] == v[2 * j]);
        }
        assert forall|j: int| 0 <= j < odds(v).len() implies valid_var(#[trigger] odds(v)[j] as int) by {
            assert(odds(v)[j] == v[2 * j + 1]);
        }
    }
}

proof fn lemma_take_valid(v: Seq<usize>, k: int)
    requires
        0 <= k <= v.len(),
    ensures
        all_valid(v) ==> all_valid(v.take(k)),
{
    if all_valid(v) {
        assert forall|j: int| 0 <= j < v.take(k).len() implies valid_var(#[trigger] v.take(k)[j] as int) by {
            assert(v.take(k)[j] == v[j]);
        }
    }
}

/// The inputs on which `half_merge` runs to the end: with `max_true == 0` the merged
/// evens of two inputs longer than that would be empty, and the merge reads their first.
pub open spec fn merge_ok(a: int, b: int, max_true: int) -> bool {
    max_true > 0 || a == 0 || b == 0 || (a <= 2 && b <= 2)
}

proof fn lemma_merge_ok_parts(v1: Seq<usize>, v2: Seq<usize>, max_true: int)
    requires
        max_true >= 0,
        merge_ok(v1.len() as int, v2.len() as int, max_true),
        v1.len() >= 1,
        v2.len() >= 1,
        !(v1.len() == 1 && v2.len() == 1),
    ensures
        merge_ok(evens(v1).len() as int, evens(v2).len() as int, max_true),
        merge_ok(odds(v1).len() as int, odds(v2).len() as int, max_true),
        max_true == 0 ==> evens(v1).len() == 1 && evens(v2).len() == 1,
{
}

/// `half_merge` never goes back in the generator, gives an output when it has an input
/// and may keep one, and outputs only valid variables.
pub proof fn lemma_half_merge(v1: Seq<usize>, v2: Seq<usize>, max_true: int, start: int)
    requires
        max_true >= 0,
        merge_ok(v1.len() as int, v2.len() as int, max_true),
    ensures
        spec_half_merge(v1, v2, max_true, start).next >= start,
        (max_true > 0 && v1.len() + v2.len() >= 1) ==> spec_half_merge(v1, v2, max_true, start).outs.len() >= 1,
        max_true == 0 ==> spec_half_merge(v1, v2, max_true, start).outs.len() <= 2,
        (all_valid(v1) && all_valid(v2) && start >= 1 && spec_half_merge(v1, v2, max_true, start).next <= i32::MAX
            + 1) ==> all_valid(spec_half_merge(v1, v2, max_true, start).outs),
    decreases v1.len() + v2.len(),
{
    if v1.len() == 1 && v2.len() == 1 {
    } else if v1.len() == 0 {
        if v2.len() > max_true {
            lemma_take_valid(v2, max_true + 1);
        }
    } else if v2.len() == 0 {
        if v1.len() > max_true {
            lemma_take_valid(v1, max_true + 1);
        }
    } else {
        lemma_evens_odds(v1);
        lemma_evens_odds(v2);
        lemma_merge_ok_parts(v1, v2, max_true);
        lemma_half_merge(evens(v1), evens(v2), max_true, start);
        let e = spec_half_merge(evens(v1), evens(v2), max_true, start);
        if max_true == 0 {
            assert(e.outs.len() == 2);
        }
        lemma_half_merge(odds(v1), odds(v2), max_true, e.next);
        let o = spec_half_merge(odds(v1), odds(v2), max_true, e.next);
        lemma_combine_loop(e.outs, o.outs, max_true, seq![e.outs[0]], 0, o.next, Seq::empty());
        let r = combine_loop(e.outs, o.outs, max_true, seq![e.outs[0]], 0, o.next, Seq::empty());
        if all_valid(v1) && all_valid(v2) && start >= 1 && spec_half_merge(v1, v2, max_true, start).next
            <= i32::MAX + 1 {
            assert(all_valid(seq![e.outs[0]])) by {
                assert(seq![e.outs[0]][0] == e.outs[0]);
            }
            assert(all_valid(r.outs));
            if r.outs.len() == max_true + 1 {
                assert(r.outs.drop_last() == r.outs.take(r.outs.len() - 1));
                lemma_take_valid(r.outs, r.outs.len() - 1);
            }
        }
        if max_true == 0 {
            assert(r.outs.len() == 1);
        }
        if r.outs.len() == max_true + 1 && max_true > 0 {
            assert(r.outs.len() >= 2);
        }
    }
}

/// From a state of `combine_loop`: each pair of an even and an odd input takes at most
/// two fresh variables, and every output comes from an input not yet used, or from a fresh
/// variable that stands for such a pair.
proof fn lemma_combine_size(
    ev: Seq<usize>,
    od: Seq<usize>,
    max_true: int,
    merged: Seq<usize>,
    i: int,
    next: int,
    cls: Seq<Seq<i32>>,
)
    requires
        0 <= i,
        merged.len() >= 1,
    ensures
        ({
            let r = combine_loop(ev, od, max_true, merged, i, next, cls);
            let even = merged.len() % 2 == 0;
            let both = i + 1 < ev.len() && i < od.len();
            &&& r.next - next <= spec_max(0, 2 * (od.len() - i) - (if even { 1int } else { 0int }))
            &&& r.outs.len() - merged.len() <= spec_max(0, ev.len() - 1 - i) + spec_max(0, od.len() - i) - (
            if even && both {
                1int
            } else {
                0int
            })
        }),
    decreases max_true + 1 - merged.len(),
{
    if merged.len() > max_true {
    } else if i + 1 < ev.len() && i < od.len() {
        let c = next as usize;
        if merged.len() % 2 == 0 {
            lemma_combine_size(ev, od, max_true, merged.push(c), i + 1, next + 1, cls.push(seq![neg(ev[i + 1]), neg(od[i]), pos(c)]));
        } else {
            lemma_combine_size(
                ev,
                od,
                max_true,
                merged.push(c),
                i,
                next + 1,
                cls + seq![seq![neg(ev[i + 1]), pos(c)], seq![neg(od[i]), pos(c)]],
            );
        }
    } else if i + 1 < ev.len() {
        lemma_combine_size(ev, od, max_true, merged.push(ev[i + 1]), i + 1, next, cls);
    } else if i < od.len() {
        lemma_combine_size(ev, od, max_true, merged.push(od[i]), i + 1, next, cls);
    }
}

/// `half_merge` on `n` inputs takes at most `n * n` fresh variables and gives at most `n`
/// outputs.
#[verifier::spinoff_prover]
#[verifier::rlimit(40)]
pub proof fn lemma_half_merge_size(v1: Seq<usize>, v2: Seq<usize>, max_true: int, start: int)
    requires
        max_true >= 0,
        merge_ok(v1.len() as int, v2.len() as int, max_true),
    ensures
        spec_half_merge(v1, v2, max_true, start).next - start <= (v1.len() + v2.len()) * (v1.len() + v2.len()),
        spec_half_merge(v1, v2, max_true, start).outs.len() <= v1.len() + v2.len(),
    decreases v1.len() + v2.len(),
{
    if v1.len() == 1 && v2.len() == 1 {
    } else if v1.len() == 0 {
    } else if v2.len() == 0 {
    } else {
        lemma_evens_odds(v1);
        lemma_evens_odds(v2);
        lemma_merge_ok_parts(v1, v2, max_true);
        lemma_half_merge(evens(v1), evens(v2), max_true, start);
        lemma_half_merge_size(evens(v1), evens(v2), max_true, start);
        let e = spec_half_merge(evens(v1), evens(v2), max_true, start);
        if max_true == 0 {
            assert(e.outs.len() == 2);
        }
        lemma_half_merge_size(odds(v1), odds(v2), max_true, e.next);
        let o = spec_half_merge(odds(v1), odds(v2), max_true, e.next);
        lemma_combine_size(e.outs, o.outs, max_true, seq![e.outs[0]], 0, o.next, Seq::empty());
        let big = (evens(v1).len() + evens(v2).len()) as int;
        let small = (odds(v1).len() + odds(v2).len()) as int;
        assert(big + small == v1.len() + v2.len());
        assert(big >= 1);
        assert(big * big + small * small + 2 * small <= (big + small) * (big + small)) by (nonlinear_arith)
            requires
                big >= 1,
                small >= 0,
        ;
        let r = combine_loop(e.outs, o.outs, max_true, seq![e.outs[0]], 0, o.next, Seq::empty());
        assert(e.next - start <= big * big);
        assert(o.next - e.next <= small * small);
        assert(o.outs.len() <= small);
        assert(r.next - o.next <= 2 * small);
        assert(spec_half_merge(v1, v2, max_true, start).next == r.next);
    }
}

/// `half_sort` on `n` inputs takes at most `2 * n * n` fresh variables and gives at most
/// `n` outputs.
pub proof fn lemma_half_sort_size(v: Seq<usize>, max_true: int, start: int)
    requires
        max_true >= 0,
    ensures
        spec_half_sort(v, max_true, start).next - start <= 2 * v.len() * v.len(),
        v.len() >= 1 ==> spec_half_sort(v, max_true, start).next - start <= 2 * v.len() * v.len() - 1,
        spec_half_sort(v, max_true, start).outs.len() <= v.len(),
    decreases v.len(),
{
    if v.len() <= 1 {
    } else if v.len() == 2 {
        lemma_half_merge_size(seq![v[0]], seq![v[1]], max_true, start);
    } else {
        let n = v.len() as int;
        let half = (v.len() / 2) as int;
        lemma_half_sort(v.take(half), max_true, start);
        lemma_half_sort_size(v.take(half), max_true, start);
        let l = spec_half_sort(v.take(half), max_true, start);
        lemma_half_sort(v.skip(half), max_true, l.next);
        lemma_half_sort_size(v.skip(half), max_true, l.next);
        let u = spec_half_sort(v.skip(half), max_true, l.next);
        lemma_half_merge(l.outs, u.outs, max_true, u.next);
        lemma_half_merge_size(l.outs, u.outs, max_true, u.next);
        let k = n - half;
        let lo = l.outs.len() as int;
        let uo = u.outs.len() as int;
        assert(0 <= k - half <= 1);
        assert((lo + uo) * (lo + uo) <= n * n) by (nonlinear_arith)
            requires
                0 <= lo <= half,
                0 <= uo <= k,
                n == half + k,
        ;
        assert(2 * half * half - 1 + 2 * k * k - 1 + n * n <= 2 * n * n - 1) by (nonlinear_arith)
            requires
                half >= 1,
                0 <= k - half <= 1,
                n == half + k,
        ;
    }
}

/// How many positions below `i` have the given parity.
pub open spec fn parity_count(i: int, odd: bool) -> int {
    if odd {
        i / 2
    } else {
        (i + 1) / 2
    }
}

/// The entries of `v` at positions with the given parity.
pub fn split_parity(v: &Vec<usize>, odd: bool) -> (r: Vec<usize>)
    ensures
        r@ == if odd { odds(v@) } else { evens(v@) },
{
    let mut r: Vec<usize> = Vec::new();
    let mut i: usize = 0;
    let ghost target = if odd { odds(v@) } else { evens(v@) };
    while i < v.len()
        invariant
            i <= v.len(),
            target == if odd { odds(v@) } else { evens(v@) },
            r@ =~= target.take(parity_count(i as int, odd)),
        decreases v.len() - i,
    {
        if (i % 2 == 1) == odd {
            r.push(v[i]);
            assert(target.take(parity_count(i + 1, odd)) =~= target.take(parity_count(i as int, odd)).push(v@[i as int]));
        } else {
            assert(target.take(parity_count(i + 1, odd)) =~= target.take(parity_count(i as int, odd)));
        }
        i = i + 1;
    }
    assert(target.take(parity_count(i as int, odd)) =~= target);
    r
}

pub fn half_merge(
    vars1: &Vec<usize>,
    vars2: &Vec<usize>,
    max_true: usize,
    var_name_generator: &mut VarNameGenerator,
) -> (res: (Clauses, Vec<usize>))
    requires
        all_valid(vars1@),
        all_valid(vars2@),
        0 < max_true < usize::MAX,
        1 <= old(var_name_generator).spec_peek(),
        spec_half_merge(vars1@, vars2@, max_true as int, old(var_name_generator).spec_peek() as int).next
            <= i32::MAX + 1,
    ensures
        ({
            let r = spec_half_merge(vars1@, vars2@, max_true as int, old(var_name_generator).spec_peek() as int);
            &&& res.0.wf()
            &&& res.0@ == r.clauses
            &&& res.1@ == r.outs
            &&& final(var_name_generator).spec_peek() == r.next
        }),
    decreases vars1.len() + vars2.len(),
{
    let ghost start = var_name_generator.spec_peek() as int;
    let ghost v1 = vars1@;
    let ghost v2 = vars2@;
    let mut clauses = Clauses::new();
    if vars1.len() == 1 && vars2.len() == 1 {
        let o0 = var_name_generator.next();
        let o1 = var_name_generator.next();
        let mut out_vars: Vec<usize> = vec![o0, o1];
        assert(valid_var(v1[0] as int) && valid_var(v2[0] as int));
        add3(&mut clauses, lit_neg(vars1[0]), lit_neg(vars2[0]), lit_pos(out_vars[1]));
        add2(&mut clauses, lit_neg(vars1[0]), lit_pos(out_vars[0]));
        add2(&mut clauses, lit_neg(vars2[0]), lit_pos(out_vars[0]));
        proof {
            assert(fresh_range(start, 2)[0] == o0 && fresh_range(start, 2)[1] == o1);
        }
        if max_true == 1 {
            let last = out_vars.pop().unwrap();
            add1(&mut clauses, lit_neg(last));
            assert(out_vars@ =~= seq![o0]);
        } else {
            assert(out_vars@ =~= fresh_range(start, 2));
        }
        return (clauses, out_vars);
    } else if vars1.len() == 0 {
        if vars2.len() > max_true {
            assert(valid_var(v2[max_true as int] as int));
            add1(&mut clauses, lit_neg(vars2[max_true]));
            let mut out: Vec<usize> = Vec::new();
            let mut k: usize = 0;
            while k < max_true + 1
                invariant
                    max_true < vars2.len(),
                    k <= max_true + 1,
                    out@ =~= vars2@.take(k as int),
                decreases max_true + 1 - k,
            {
                out.push(vars2[k]);
                k = k + 1;
            }
            return (clauses, out);
        } else {
            return (clauses, copy_vars(vars2));
        }
    } else if vars2.len() == 0 {
        if vars1.len() > max_true {
            assert(valid_var(v1[max_true as int] as int));
            add1(&mut clauses, lit_neg(vars1[max_true]));
            let mut out: Vec<usize> = Vec::new();
            let mut k: usize = 0;
            while k < max_true + 1
                invariant
                    max_true < vars1.len(),
                    k <= max_true + 1,
                    out@ =~= vars1@.take(k as int),
                decreases max_true + 1 - k,
            {
                out.push(vars1[k]);
                k = k + 1;
            }
            return (clauses, out);
        } else {
            return (clauses, copy_vars(vars1));
        }
    }
    let vars1_evens = split_parity(vars1, false);
    let vars1_odds = split_parity(vars1, true);
    let vars2_evens = split_parity(vars2, false);
    let vars2_odds = split_parity(vars2, true);
    proof {
        lemma_evens_odds(v1);
        lemma_evens_odds(v2);
        lemma_merge_ok_parts(v1, v2, max_true as int);
        lemma_half_merge(evens(v1), evens(v2), max_true as int, start);
        let e = spec_half_merge(evens(v1), evens(v2), max_true as int, start);
        if max_true == 0 {
            assert(e.outs.len() == 2);
        }
        lemma_half_merge(odds(v1), odds(v2), max_true as int, e.next);
        let o = spec_half_merge(odds(v1), odds(v2), max_true as int, e.next);
        lemma_combine_loop(e.outs, o.outs, max_true as int, seq![e.outs[0]], 0, o.next, Seq::empty());
    }
    let (mut even_clauses, merged_evens) = half_merge(&vars1_evens, &vars2_evens, max_true, var_name_generator);
    let (mut odd_clauses, merged_odds) = half_merge(&vars1_odds, &vars2_odds, max_true, var_name_generator);
    let ghost ev = merged_evens@;
    let ghost od = merged_odds@;
    let ghost total = spec_half_merge(v1, v2, max_true as int, start);
    clauses.add_many_clauses(&mut even_clauses);
    clauses.add_many_clauses(&mut odd_clauses);
    let ghost base = clauses@;
    let ghost next0 = var_name_generator.spec_peek() as int;
    let ghost target = combine_loop(ev, od, max_true as int, seq![ev[0]], 0, next0, Seq::empty());
    proof {
        lemma_merge_ok_parts(v1, v2, max_true as int);
        lemma_half_merge(evens(v1), evens(v2), max_true as int, start);
        lemma_half_merge(odds(v1), odds(v2), max_true as int, spec_half_merge(evens(v1), evens(v2), max_true as int, start).next);
        if max_true == 0 {
            assert(spec_half_merge(evens(v1), evens(v2), max_true as int, start).outs.len() == 2);
        }
        lemma_combine_loop(ev, od, max_true as int, seq![ev[0]], 0, next0, Seq::empty());
        assert(all_valid(seq![ev[0]])) by {
            assert(seq![ev[0]][0] == ev[0]);
        }
    }
    let mut merged_vars: Vec<usize> = vec![merged_evens[0]];
    let mut i: usize = 0;
    let mut cls = Clauses::new();
    assert(merged_vars@ =~= seq![ev[0]]);
    while merged_vars.len() <= max_true
        invariant
            ev == merged_evens@,
            od == merged_odds@,
            all_valid(ev),
            all_valid(od),
            all_valid(merged_vars@),
            merged_vars.len() >= 1,
            max_true < usize::MAX,
            var_name_generator.spec_peek() >= 1,
            target.next <= i32::MAX + 1,
            combine_loop(ev, od, max_true as int, merged_vars@, i as int, var_name_generator.spec_peek() as int, cls@)
                == target,
            cls.wf(),
        ensures
            combine_loop(ev, od, max_true as int, merged_vars@, i as int, var_name_generator.spec_peek() as int, cls@)
                == (NetOut { clauses: cls@, outs: merged_vars@, next: var_name_generator.spec_peek() as int }),
        decreases max_true + 1 - merged_vars.len(),
    {
        let ghost m0 = merged_vars@;
        let ghost i0 = i as int;
        let ghost n0 = var_name_generator.spec_peek() as int;
        let ghost c0 = cls@;
        if i < merged_evens.len() && i + 1 < merged_evens.len() && i < merged_odds.len() {
            proof {
                let c = n0 as usize;
                if m0.len() % 2 == 0 {
                    lemma_combine_loop(ev, od, max_true as int, m0.push(c), i0 + 1, n0 + 1, c0.push(seq![neg(ev[i0 + 1]), neg(od[i0]), pos(c)]));
                } else {
                    lemma_combine_loop(ev, od, max_true as int, m0.push(c), i0, n0 + 1, c0 + seq![seq![neg(ev[i0 + 1]), pos(c)], seq![neg(od[i0]), pos(c)]]);
                }
            }
            let c = var_name_generator.next();
            assert(valid_var(c as int));
            assert(valid_var(ev[i + 1] as int) && valid_var(od[i as int] as int));
            if merged_vars.len() % 2 == 0 {
                // if we are at an odd index
                add3(&mut cls, lit_neg(merged_evens[i + 1]), lit_neg(merged_odds[i]), lit_pos(c));
                i = i + 1;
            } else {
                // if we are at an even index
                add2(&mut cls, lit_neg(merged_evens[i + 1]), lit_pos(c));
                add2(&mut cls, lit_neg(merged_odds[i]), lit_pos(c));
                assert(cls@ =~= c0 + seq![seq![neg(ev[i0 + 1]), pos(c)], seq![neg(od[i0]), pos(c)]]);
            }
            merged_vars.push(c);
            proof {
                lemma_push_valid(m0, c);
            }
        } else if i < merged_evens.len() && i + 1 < merged_evens.len() {
            assert(valid_var(ev[i + 1] as int));
            merged_vars.push(merged_evens[i + 1]);
            proof {
                lemma_push_valid(m0, ev[i0 + 1]);
            }
            i = i + 1;
        } else if i < merged_odds.len() {
            assert(valid_var(od[i as int] as int));
            merged_vars.push(merged_odds[i]);
            proof {
                lemma_push_valid(m0, od[i0]);
            }
            i = i + 1;
        } else {
            break;
        }
    }
    if merged_vars.len() == max_true + 1 {
        let last = merged_vars.pop().unwrap();
        assert(valid_var(last as int)) by {
            assert(last == target.outs[target.outs.len() - 1]);
        }
        add1(&mut cls, lit_neg(last));
    }
    clauses.add_many_clauses(&mut cls);
    proof {
        assert(clauses@ =~= total.clauses);
    }
    (clauses, merged_vars)
}

/// The result of `half_sort`.
pub open spec fn spec_half_sort(v: Seq<usize>, max_true: int, start: int) -> NetOut
    decreases v.len(),
{
    if v.len() <= 1 {
        NetOut { clauses: Seq::empty(), outs: v, next: start }
    } else if v.len() == 2 {
        spec_half_merge(seq![v[0]], seq![v[1]], max_true, start)
    } else {
        let half = (v.len() / 2) as int;
        let l = spec_half_sort(v.take(half), max_true, start);
        let u = spec_half_sort(v.skip(half), max_true, l.next);
        let m = spec_half_merge(l.outs, u.outs, max_true, u.next);
        NetOut { clauses: l.clauses + u.clauses + m.clauses, outs: m.outs, next: m.next }
    }
}

/// `half_sort` never goes back in the generator, outputs only valid variables, and with
/// `max_true == 0` keeps at most two outputs.
pub proof fn lemma_half_sort(v: Seq<usize>, max_true: int, start: int)
    requires
        max_true >= 0,
    ensures
        spec_half_sort(v, max_true, start).next >= start,
        (max_true > 0 && v.len() >= 1) ==> spec_half_sort(v, max_true, start).outs.len() >= 1,
        max_true == 0 ==> spec_half_sort(v, max_true, start).outs.len() <= 2,
        (all_valid(v) && start >= 1 && spec_half_sort(v, max_true, start).next <= i32::MAX + 1) ==> all_valid(
            spec_half_sort(v, max_true, start).outs,
        ),
    decreases v.len(),
{
    if v.len() <= 1 {
    } else if v.len() == 2 {
        lemma_half_merge(seq![v[0]], seq![v[1]], max_true, start);
        if all_valid(v) {
            assert(all_valid(seq![v[0]])) by {
                assert(seq![v[0]][0] == v[0]);
            }
            assert(all_valid(seq![v[1]])) by {
                assert(seq![v[1]][0] == v[1]);
            }
        }
    } else {
        let half = (v.len() / 2) as int;
        lemma_half_sort(v.take(half), max_true, start);
        let l = spec_half_sort(v.take(half), max_true, start);
        lemma_half_sort(v.skip(half), max_true, l.next);
        let u = spec_half_sort(v.skip(half), max_true, l.next);
        lemma_half_merge(l.outs, u.outs, max_true, u.next);
        if all_valid(v) {
            lemma_take_valid(v, half);
            assert(all_valid(v.skip(half))) by {
                assert forall|j: int| 0 <= j < v.skip(half).len() implies valid_var(#[trigger] v.skip(half)[j] as int) by {
                    assert(v.skip(half)[j] == v[half + j]);
                }
            }
        }
    }
}

pub fn half_sort(vars: &Vec<usize>, max_true: usize, var_name_generator: &mut VarNameGenerator) -> (res: (
    Clauses,
    Vec<usize>,
))
    requires
        all_valid(vars@),
        max_true < usize::MAX,
        vars.len() >= 2 ==> max_true > 0,
        1 <= old(var_name_generator).spec_peek(),
        spec_half_sort(vars@, max_true as int, old(var_name_generator).spec_peek() as int).next <= i32::MAX + 1,
    ensures
        ({
            let r = spec_half_sort(vars@, max_true as int, old(var_name_generator).spec_peek() as int);
            &&& res.0.wf()
            &&& res.0@ == r.clauses
            &&& res.1@ == r.outs
            &&& final(var_name_generator).spec_peek() == r.next
        }),
    decreases vars.len(),
{
    let mut clauses = Clauses::new();
    let ghost start = var_name_generator.spec_peek() as int;
    let ghost v = vars@;
    if vars.len() <= 1 {
        return (clauses, copy_vars(vars));
    } else if vars.len() == 2 {
        let a = vec![vars[0]];
        let b = vec![vars[1]];
        assert(a@ =~= seq![v[0]]);
        assert(b@ =~= seq![v[1]]);
        assert(all_valid(a@)) by {
            assert(a@[0] == v[0]);
        }
        assert(all_valid(b@)) by {
            assert(b@[0] == v[1]);
        }
        return half_merge(&a, &b, max_true, var_name_generator);
    }
    let half_size = vars.len() / 2;
    let mut lower_half: Vec<usize> = Vec::new();
    let mut upper_half: Vec<usize> = Vec::new();
    let mut i: usize = 0;
    while i < vars.len()
        invariant
            half_size == vars.len() / 2,
            i <= vars.len(),
            lower_half@ =~= v.take(spec_min(i as int, half_size as int)),
            i <= half_size ==> upper_half@ =~= Seq::<usize>::empty(),
            i > half_size ==> upper_half@ =~= v.subrange(half_size as int, i as int),
            v == vars@,
        decreases vars.len() - i,
    {
        if i < half_size {
            lower_half.push(vars[i]);
        } else {
            upper_half.push(vars[i]);
        }
        i = i + 1;
    }
    assert(lower_half@ =~= v.take(half_size as int));
    assert(upper_half@ =~= v.skip(half_size as int));
    proof {
        lemma_half_sort(v.take(half_size as int), max_true as int, start);
        let l = spec_half_sort(v.take(half_size as int), max_true as int, start);
        lemma_half_sort(v.skip(half_size as int), max_true as int, l.next);
        let u = spec_half_sort(v.skip(half_size as int), max_true as int, l.next);
        lemma_half_merge(l.outs, u.outs, max_true as int, u.next);
        lemma_take_valid(v, half_size as int);
        assert(all_valid(v.skip(half_size as int))) by {
            assert forall|j: int| 0 <= j < v.skip(half_size as int).len() implies valid_var(#[trigger] v.skip(half_size as int)[j] as int) by {
                assert(v.skip(half_size as int)[j] == v[half_size + j]);
            }
        }
    }
    let (mut clauses_lower, sorted_lower) = half_sort(&lower_half, max_true, var_name_generator);
    let (mut clauses_upper, sorted_upper) = half_sort(&upper_half, max_true, var_name_generator);

    clauses.add_many_clauses(&mut clauses_lower);
    clauses.add_many_clauses(&mut clauses_upper);

    let (mut clauses_merge, sorted_vars) = half_merge(&sorted_lower, &sorted_upper, max_true, var_name_generator);
    clauses.add_many_clauses(&mut clauses_merge);
    (clauses, sorted_vars)
}

} // verus!
