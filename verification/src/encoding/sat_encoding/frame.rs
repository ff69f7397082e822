//! Which variables a clause list mentions, and why an assignment may change freely above them.
use vstd::prelude::*;
use crate::encoding::encoder::{all_sat, clause_sat, lit_true, pos, neg, valid_var, lemma_pos_neg, lemma_all_sat_append};
use crate::encoding::sat_encoding::binary_arithmetic::{
    all_option_clauses, option_clauses, option_clause, option_bits, is_relevant_bit, ne_lits, signed, bit, bits_upto,
    spec_bounded_sum, adder_clauses, adder_step, half_sum, half_carry, full_sum, full_carry, unit,
    spec_at_most_k, amk_main, amk_clause, amk_tail, unit_negs, spec_to_binary, value, bits_of, val,
    lemma_val_injective, lemma_val_bits_upto, spec_bitlength,
};

verus! {

/// Literal `l` names a variable below `b`.
pub open spec fn lit_below(l: i32, b: int) -> bool {
    l != 0 && -b < l < b
}

/// Every literal of every clause of `cs` names a variable below `b`.
pub open spec fn vars_below(cs: Seq<Seq<i32>>, b: int) -> bool {
    forall|i: int, k: int| 0 <= i < cs.len() && 0 <= k < cs[i].len() ==> lit_below(#[trigger] cs[i][k], b)
}

/// Every variable of `vs` lies in `1..b`.
pub open spec fn seq_below(vs: Seq<usize>, b: int) -> bool {
    forall|i: int| 0 <= i < vs.len() ==> 1 <= #[trigger] vs[i] < b
}

/// `a` and `c` agree on the variables below `b`.
pub open spec fn agree_below(a: spec_fn(int) -> bool, c: spec_fn(int) -> bool, b: int) -> bool {
    forall|v: int| 1 <= v < b ==> #[trigger] a(v) == c(v)
}

/// Clauses over the variables below `b` hold under `a` exactly when they hold under an
/// assignment that agrees with `a` there.
pub proof fn lemma_frame(a: spec_fn(int) -> bool, c: spec_fn(int) -> bool, cs: Seq<Seq<i32>>, b: int)
    requires
        vars_below(cs, b),
        agree_below(a, c, b),
    ensures
        all_sat(a, cs) == all_sat(c, cs),
{
    assert forall|i: int| 0 <= i < cs.len() implies clause_sat(a, #[trigger] cs[i]) == clause_sat(c, cs[i]) by {
        assert forall|k: int| 0 <= k < cs[i].len() implies lit_true(a, #[trigger] cs[i][k]) == lit_true(c, cs[i][k]) by {
            let l = cs[i][k];
            assert(lit_below(l, b));
            if l > 0 {
                assert(a(l as int) == c(l as int));
            } else {
                assert(a(-(l as int)) == c(-(l as int)));
            }
        }
        if clause_sat(a, cs[i]) {
            let k = choose|k: int| 0 <= k < cs[i].len() && lit_true(a, #[trigger] cs[i][k]);
            assert(lit_true(c, cs[i][k]));
        }
        if clause_sat(c, cs[i]) {
            let k = choose|k: int| 0 <= k < cs[i].len() && lit_true(c, #[trigger] cs[i][k]);
            assert(lit_true(a, cs[i][k]));
        }
    }
    if all_sat(a, cs) {
        assert forall|i: int| 0 <= i < cs.len() implies clause_sat(c, #[trigger] cs[i]) by {
            assert(clause_sat(a, cs[i]));
        }
    }
    if all_sat(c, cs) {
        assert forall|i: int| 0 <= i < cs.len() implies clause_sat(a, #[trigger] cs[i]) by {
            assert(clause_sat(c, cs[i]));
        }
    }
}

pub proof fn lemma_below_append(x: Seq<Seq<i32>>, y: Seq<Seq<i32>>, b: int)
    requires
        vars_below(x, b),
        vars_below(y, b),
    ensures
        vars_below(x + y, b),
{
    assert forall|i: int, k: int| 0 <= i < (x + y).len() && 0 <= k < (x + y)[i].len() implies lit_below(#[trigger] (x + y)[i][k], b) by {
        if i < x.len() {
            assert((x + y)[i] == x[i]);
            assert(lit_below(x[i][k], b));
        } else {
            assert((x + y)[i] == y[i - x.len()]);
            assert(lit_below(y[i - x.len()][k], b));
        }
    }
}

pub proof fn lemma_below_mono(x: Seq<Seq<i32>>, b: int, c: int)
    requires
        vars_below(x, b),
        b <= c,
    ensures
        vars_below(x, c),
{
    assert forall|i: int, k: int| 0 <= i < x.len() && 0 <= k < x[i].len() implies lit_below(#[trigger] x[i][k], c) by {
        assert(lit_below(x[i][k], b));
    }
}

proof fn lemma_lits_below(v: usize, b: int)
    requires
        1 <= v < b,
        b <= i32::MAX + 1,
    ensures
        lit_below(pos(v), b),
        lit_below(neg(v), b),
        lit_below(signed(v, true), b),
        lit_below(signed(v, false), b),
{
}

/// The clauses of option `cur` name only variables of `mv` and of `tail`.
pub proof fn lemma_option_below(mv: Seq<usize>, js: Seq<usize>, cur: int, tail: Seq<i32>, hi: int, b: int)
    requires
        seq_below(mv, b),
        forall|t: int| 0 <= t < tail.len() ==> lit_below(#[trigger] tail[t], b),
        hi <= mv.len(),
        b <= i32::MAX + 1,
    ensures
        vars_below(option_clauses(mv, js, cur, tail, hi), b),
    decreases hi,
{
    if hi > 0 {
        lemma_option_below(mv, js, cur, tail, hi - 1, b);
        let d = hi - 1;
        let c = option_clause(mv, js, cur, d, tail);
        let bs = option_bits(js, mv.len(), cur);
        assert forall|k: int| 0 <= k < c.len() implies lit_below(#[trigger] c[k], b) by {
            if k < d {
                assert(c[k] == signed(mv[k], !bs[k]));
                lemma_lits_below(mv[k], b);
            } else if k == d {
                assert(c[k] == signed(mv[d], bs[d]));
                lemma_lits_below(mv[d], b);
            } else {
                assert(c[k] == tail[k - d - 1]);
            }
        }
        let last = if is_relevant_bit(js, mv.len(), cur, d) { seq![c] } else { Seq::<Seq<i32>>::empty() };
        assert(vars_below(last, b)) by {
            if is_relevant_bit(js, mv.len(), cur, d) {
                assert forall|i: int, k: int| 0 <= i < last.len() && 0 <= k < last[i].len() implies lit_below(#[trigger] last[i][k], b) by {
                    assert(last[i] == c);
                }
            }
        }
        lemma_below_append(option_clauses(mv, js, cur, tail, d), last, b);
    }
}

/// The clauses of the options below `hi` name only variables of `mv` and of `tail`.
pub proof fn lemma_all_options_below(mv: Seq<usize>, js: Seq<usize>, tail: Seq<i32>, hi: int, b: int)
    requires
        seq_below(mv, b),
        forall|t: int| 0 <= t < tail.len() ==> lit_below(#[trigger] tail[t], b),
        b <= i32::MAX + 1,
    ensures
        vars_below(all_option_clauses(mv, js, tail, hi), b),
    decreases hi,
{
    if hi > 0 {
        lemma_all_options_below(mv, js, tail, hi - 1, b);
        lemma_option_below(mv, js, hi - 1, tail, mv.len() as int, b);
        lemma_below_append(all_option_clauses(mv, js, tail, hi - 1), option_clauses(mv, js, hi - 1, tail, mv.len() as int), b);
    }
}

/// The adder clauses name only the variables of the operands, sums and carries.
pub proof fn lemma_adder_below(sv: Seq<usize>, nv: Seq<usize>, mv: Seq<usize>, cv: Seq<usize>, hi: int, b: int)
    requires
        seq_below(sv, b),
        seq_below(nv, b),
        seq_below(mv, b),
        seq_below(cv, b),
        1 <= mv.len() <= nv.len(),
        cv.len() == nv.len(),
        1 <= hi <= sv.len(),
        b <= i32::MAX + 1,
    ensures
        vars_below(adder_clauses(sv, nv, mv, cv, hi), b),
    decreases hi,
{
    lemma_lits_below(sv[0], b);
    lemma_lits_below(nv[0], b);
    lemma_lits_below(mv[0], b);
    lemma_lits_below(cv[0], b);
    if hi <= 1 {
        let x = half_sum(sv[0], nv[0], mv[0]) + half_carry(cv[0], nv[0], mv[0]);
        assert(vars_below(x, b));
    } else {
        lemma_adder_below(sv, nv, mv, cv, hi - 1, b);
        let i = hi - 1;
        let st = adder_step(sv, nv, mv, cv, i);
        if i < mv.len() {
            lemma_lits_below(sv[i], b);
            lemma_lits_below(nv[i], b);
            lemma_lits_below(mv[i], b);
            lemma_lits_below(cv[i], b);
            lemma_lits_below(cv[i - 1], b);
            assert(vars_below(st, b));
        } else if i < nv.len() {
            lemma_lits_below(sv[i], b);
            lemma_lits_below(nv[i], b);
            lemma_lits_below(cv[i], b);
            lemma_lits_below(cv[i - 1], b);
            assert(vars_below(st, b));
        } else {
            assert(st =~= Seq::<Seq<i32>>::empty());
        }
        lemma_below_append(adder_clauses(sv, nv, mv, cv, i), st, b);
    }
}

/// The clauses of a bounded sum name only its operands, sums and carries.
pub proof fn lemma_bounded_sum_below(nv: Seq<usize>, mv: Seq<usize>, sv: Seq<usize>, cv: Seq<usize>, b: int)
    requires
        seq_below(sv, b),
        seq_below(nv, b),
        seq_below(mv, b),
        seq_below(cv, b),
        1 <= mv.len() <= nv.len(),
        cv.len() == nv.len(),
        1 <= sv.len(),
        b <= i32::MAX + 1,
    ensures
        vars_below(spec_bounded_sum(nv, mv, sv, cv), b),
{
    let body = adder_clauses(sv, nv, mv, cv, sv.len() as int);
    lemma_adder_below(sv, nv, mv, cv, sv.len() as int, b);
    if cv.len() == sv.len() {
        lemma_lits_below(cv[sv.len() - 1], b);
        assert(vars_below(seq![unit(neg(cv[sv.len() - 1]))], b));
        lemma_below_append(body, seq![unit(neg(cv[sv.len() - 1]))], b);
        assert(body.push(unit(neg(cv[sv.len() - 1]))) =~= body + seq![unit(neg(cv[sv.len() - 1]))]);
    }
}

proof fn lemma_amk_tail_below(nv: Seq<usize>, kb: Seq<bool>, lo: int, hi: int, b: int)
    requires
        seq_below(nv, b),
        0 <= lo,
        hi <= nv.len(),
        b <= i32::MAX + 1,
    ensures
        forall|t: int| 0 <= t < amk_tail(nv, kb, lo, hi).len() ==> lit_below(#[trigger] amk_tail(nv, kb, lo, hi)[t], b),
    decreases hi - lo,
{
    if hi > lo {
        lemma_amk_tail_below(nv, kb, lo, hi - 1, b);
        lemma_lits_below(nv[hi - 1], b);
        let prev = amk_tail(nv, kb, lo, hi - 1);
        let last = if kb[hi - 1] { seq![neg(nv[hi - 1])] } else { Seq::<i32>::empty() };
        assert forall|t: int| 0 <= t < (prev + last).len() implies lit_below(#[trigger] (prev + last)[t], b) by {
            if t < prev.len() {
                assert((prev + last)[t] == prev[t]);
            } else {
                assert((prev + last)[t] == last[t - prev.len()]);
            }
        }
    }
}

proof fn lemma_amk_main_below(nv: Seq<usize>, kb: Seq<bool>, hi: int, b: int)
    requires
        seq_below(nv, b),
        hi <= kb.len() <= nv.len(),
        b <= i32::MAX + 1,
    ensures
        vars_below(amk_main(nv, kb, hi), b),
    decreases hi,
{
    if hi > 0 {
        lemma_amk_main_below(nv, kb, hi - 1, b);
        let i = hi - 1;
        let c = amk_clause(nv, kb, i);
        lemma_amk_tail_below(nv, kb, i + 1, kb.len() as int, b);
        lemma_lits_below(nv[i], b);
        let tl = amk_tail(nv, kb, i + 1, kb.len() as int);
        assert forall|k: int| 0 <= k < c.len() implies lit_below(#[trigger] c[k], b) by {
            if k > 0 {
                assert(c[k] == tl[k - 1]);
            }
        }
        let last = if !kb[i] { seq![c] } else { Seq::<Seq<i32>>::empty() };
        assert(vars_below(last, b)) by {
            if !kb[i] {
                assert forall|j: int, k: int| 0 <= j < last.len() && 0 <= k < last[j].len() implies lit_below(#[trigger] last[j][k], b) by {
                    assert(last[j] == c);
                }
            }
        }
        lemma_below_append(amk_main(nv, kb, i), last, b);
    }
}

proof fn lemma_unit_negs_below(nv: Seq<usize>, lo: int, hi: int, b: int)
    requires
        seq_below(nv, b),
        0 <= lo,
        hi <= nv.len(),
        b <= i32::MAX + 1,
    ensures
        vars_below(unit_negs(nv, lo, hi), b),
    decreases hi - lo,
{
    if hi > lo {
        lemma_unit_negs_below(nv, lo, hi - 1, b);
        lemma_lits_below(nv[hi - 1], b);
        let prev = unit_negs(nv, lo, hi - 1);
        assert(vars_below(seq![unit(neg(nv[hi - 1]))], b));
        lemma_below_append(prev, seq![unit(neg(nv[hi - 1]))], b);
        assert(prev.push(unit(neg(nv[hi - 1]))) =~= prev + seq![unit(neg(nv[hi - 1]))]);
    }
}

/// The clauses of `at_most_k_encoding` name only the number's variables.
pub proof fn lemma_at_most_k_below(nv: Seq<usize>, k: nat, b: int)
    requires
        seq_below(nv, b),
        b <= i32::MAX + 1,
    ensures
        vars_below(spec_at_most_k(nv, k), b),
{
    let kb = spec_to_binary(k);
    if nv.len() >= kb.len() {
        lemma_amk_main_below(nv, kb, kb.len() as int, b);
        lemma_unit_negs_below(nv, kb.len() as int, nv.len() as int, b);
        lemma_below_append(amk_main(nv, kb, kb.len() as int), unit_negs(nv, kb.len() as int, nv.len() as int), b);
    }
}

proof fn lemma_option_holds(a: spec_fn(int) -> bool, mv: Seq<usize>, k: usize, tail: Seq<i32>, hi: int)
    requires
        forall|i: int| 0 <= i < mv.len() ==> valid_var(#[trigger] mv[i] as int),
        hi <= mv.len(),
        (exists|t: int| 0 <= t < tail.len() && lit_true(a, #[trigger] tail[t]))
            || bits_of(a, mv) == bits_upto(k as nat, mv.len()),
    ensures
        all_sat(a, option_clauses(mv, seq![k], 0, tail, hi)),
    decreases hi,
{
    if hi > 0 {
        lemma_option_holds(a, mv, k, tail, hi - 1);
        let js = seq![k];
        let d = hi - 1;
        let c = option_clause(mv, js, 0, d, tail);
        let bs = option_bits(js, mv.len(), 0);
        assert(bs =~= bits_upto(k as nat, mv.len()));
        assert(clause_sat(a, c)) by {
            if exists|t: int| 0 <= t < tail.len() && lit_true(a, #[trigger] tail[t]) {
                let t = choose|t: int| 0 <= t < tail.len() && lit_true(a, #[trigger] tail[t]);
                assert(c[d + 1 + t] == tail[t]);
            } else {
                assert(c[d] == signed(mv[d], bs[d]));
                lemma_pos_neg(a, mv[d]);
                assert(bits_of(a, mv)[d] == a(mv[d] as int));
                assert(lit_true(a, c[d]));
            }
        }
        let last = if is_relevant_bit(js, mv.len(), 0, d) { seq![c] } else { Seq::<Seq<i32>>::empty() };
        assert(all_sat(a, last)) by {
            if is_relevant_bit(js, mv.len(), 0, d) {
                assert(last[0] == c);
            }
        }
        lemma_all_sat_append(a, option_clauses(mv, js, 0, tail, d), last);
    }
}

/// With the single option `k`, the clauses of `n_implies_m_in_j_encoding` hold wherever
/// the variable `v` is false or `m` has the value `k`.
pub proof fn lemma_implies_single_holds(a: spec_fn(int) -> bool, v: usize, mv: Seq<usize>, k: usize)
    requires
        valid_var(v as int),
        forall|i: int| 0 <= i < mv.len() ==> valid_var(#[trigger] mv[i] as int),
        spec_bitlength(k as nat) <= mv.len(),
        !a(v as int) || value(a, mv) == k,
    ensures
        all_sat(a, all_option_clauses(mv, seq![k], ne_lits(seq![v], 1), 1)),
{
    let tail = ne_lits(seq![v], 1);
    let js = seq![k];
    assert(all_option_clauses(mv, js, tail, 0) == Seq::<Seq<i32>>::empty());
    assert(all_option_clauses(mv, js, tail, 1) =~= option_clauses(mv, js, 0, tail, mv.len() as int));
    assert(bit(1, 0)) by {
        vstd::arithmetic::power2::lemma2_to64();
    }
    assert(tail =~= seq![neg(v)]);
    lemma_pos_neg(a, v);
    if !a(v as int) {
        assert(lit_true(a, tail[0]));
    } else {
        lemma_val_bits_upto(k as nat, mv.len());
        lemma_val_injective(bits_of(a, mv), bits_upto(k as nat, mv.len()));
    }
    lemma_option_holds(a, mv, k, tail, mv.len() as int);
}

} // verus!
