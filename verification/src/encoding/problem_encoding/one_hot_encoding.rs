//! The one-hot representation of a schedule: one variable per job and allowed
//! processor, with clauses that put every job on exactly one of its processors.
use vstd::prelude::*;
use std::collections::HashSet;
use crate::common::common::calc_makespan;
use crate::common::common::load;
use crate::common::common::max_load;
use crate::encoding::encoder::Clauses;
use crate::encoding::encoder::VarNameGenerator;
use crate::encoding::encoder::all_sat;
use crate::encoding::encoder::clause_sat;
use crate::encoding::encoder::lemma_all_sat_append;
use crate::encoding::encoder::lit_true;
use crate::encoding::encoder::zero_free;
use crate::encoding::sat_encoding::binary_arithmetic::all_proper;
use crate::encoding::sat_encoding::binary_arithmetic::amo_rows;
use crate::encoding::sat_encoding::binary_arithmetic::at_least_one_encoding;
use crate::encoding::sat_encoding::binary_arithmetic::both_true;
use crate::encoding::sat_encoding::binary_arithmetic::lemma_pairwise_at_most_one;
use crate::encoding::sat_encoding::binary_arithmetic::model_assignment;
use crate::encoding::sat_encoding::binary_arithmetic::pairwise_encoded_at_most_one;
use crate::problem_instance::partial_solution::PartialSolution;
use crate::problem_instance::problem_instance::ProblemInstance;
use crate::problem_instance::solution::Solution;

verus! {

broadcast use vstd::std_specs::hash::group_hash_axioms;

/// Whether job `i` may go on processor `j`.
pub open spec fn allowed(pa: Seq<Vec<usize>>, i: int, j: int) -> bool {
    pa[i]@.contains(j as usize)
}

/// How many of the processors `0..j` job `i` may go on.
pub open spec fn row_count(pa: Seq<Vec<usize>>, i: int, j: int) -> nat
    decreases j,
{
    if j <= 0 {
        0
    } else {
        row_count(pa, i, j - 1) + if allowed(pa, i, j - 1) {
            1nat
        } else {
            0nat
        }
    }
}

/// How many allowed pairs the jobs `0..i` have, over `m` processors.
pub open spec fn rows_count(pa: Seq<Vec<usize>>, m: int, i: int) -> nat
    decreases i,
{
    if i <= 0 {
        0
    } else {
        rows_count(pa, m, i - 1) + row_count(pa, i - 1, m)
    }
}

/// The variable of job `i` on processor `j`: the allowed pairs are numbered from 1 in
/// order of job, then processor.
pub open spec fn position_var(pa: Seq<Vec<usize>>, m: int, i: int, j: int) -> Option<usize> {
    if allowed(pa, i, j) {
        Some((1 + rows_count(pa, m, i) + row_count(pa, i, j)) as usize)
    } else {
        None
    }
}

/// The positive literals of job `i` on the allowed processors among `0..j`, in order.
pub open spec fn row_lits(pa: Seq<Vec<usize>>, m: int, i: int, j: int) -> Seq<i32>
    decreases j,
{
    if j <= 0 {
        Seq::empty()
    } else if allowed(pa, i, j - 1) {
        row_lits(pa, m, i, j - 1).push((1 + rows_count(pa, m, i) + row_count(pa, i, j - 1)) as i32)
    } else {
        row_lits(pa, m, i, j - 1)
    }
}

/// The clauses for the jobs `0..i`: each job is on at least one allowed processor, and on
/// at most one (pairwise).
pub open spec fn one_hot_clauses(pa: Seq<Vec<usize>>, m: int, i: int) -> Seq<Seq<i32>>
    decreases i,
{
    if i <= 0 {
        Seq::empty()
    } else {
        let r = row_lits(pa, m, i - 1, m);
        one_hot_clauses(pa, m, i - 1).push(r) + amo_rows(r, r.len() as int)
    }
}

/// Job `i` is on processor `j` under `a`: the pair is allowed and its variable is true.
pub open spec fn placed(a: spec_fn(int) -> bool, pa: Seq<Vec<usize>>, m: int, i: int, j: int) -> bool {
    allowed(pa, i, j) && a((1 + rows_count(pa, m, i) + row_count(pa, i, j)) as int)
}

/// Every job `0..n` is on exactly one of the processors `0..m` under `a`.
pub open spec fn exactly_one_each(a: spec_fn(int) -> bool, pa: Seq<Vec<usize>>, m: int, n: int) -> bool {
    forall|i: int| 0 <= i < n ==> #[trigger] exactly_one(a, pa, m, i)
}

/// Job `i` is on exactly one of the processors `0..m` under `a`.
pub open spec fn exactly_one(a: spec_fn(int) -> bool, pa: Seq<Vec<usize>>, m: int, i: int) -> bool {
    &&& exists|j: int| 0 <= j < m && #[trigger] placed(a, pa, m, i, j)
    &&& forall|j1: int, j2: int| 0 <= j1 < j2 < m ==> !(#[trigger] placed(a, pa, m, i, j1) && #[trigger] placed(a, pa, m, i, j2))
}

proof fn lemma_row_count_bound(pa: Seq<Vec<usize>>, i: int, j: int)
    requires
        j >= 0,
    ensures
        row_count(pa, i, j) <= j,
    decreases j,
{
    if j > 0 {
        lemma_row_count_bound(pa, i, j - 1);
    }
}

proof fn lemma_row_count_monotone(pa: Seq<Vec<usize>>, i: int, j1: int, j2: int)
    requires
        0 <= j1 <= j2,
    ensures
        row_count(pa, i, j1) <= row_count(pa, i, j2),
        j1 < j2 && allowed(pa, i, j1) ==> row_count(pa, i, j1) < row_count(pa, i, j2),
    decreases j2 - j1,
{
    if j1 < j2 {
        lemma_row_count_monotone(pa, i, j1, j2 - 1);
    }
}

pub proof fn lemma_rows_count_bound(pa: Seq<Vec<usize>>, m: int, i: int)
    requires
        i >= 0,
        m >= 0,
    ensures
        rows_count(pa, m, i) <= i * m,
    decreases i,
{
    if i > 0 {
        lemma_rows_count_bound(pa, m, i - 1);
        lemma_row_count_bound(pa, i - 1, m);
        assert((i - 1) * m + m == i * m) by (nonlinear_arith);
    }
}

proof fn lemma_rows_count_monotone(pa: Seq<Vec<usize>>, m: int, i1: int, i2: int)
    requires
        0 <= i1 <= i2,
        m >= 0,
    ensures
        rows_count(pa, m, i1) + (if i1 < i2 { row_count(pa, i1, m) } else { 0 }) <= rows_count(pa, m, i2),
    decreases i2 - i1,
{
    if i1 < i2 {
        lemma_rows_count_monotone(pa, m, i1, i2 - 1);
        if i1 < i2 - 1 {
        }
    }
}

/// The variable of an allowed pair lies between 1 and the number of allowed pairs.
pub proof fn lemma_position_var_range(pa: Seq<Vec<usize>>, m: int, n: int, i: int, j: int)
    requires
        0 <= i < n,
        0 <= j < m,
        allowed(pa, i, j),
    ensures
        1 <= 1 + rows_count(pa, m, i) + row_count(pa, i, j) <= rows_count(pa, m, n) <= n * m,
{
    lemma_row_count_monotone(pa, i, j, m);
    lemma_rows_count_monotone(pa, m, i, n);
    lemma_rows_count_bound(pa, m, n);
}

/// Some allowed processor among `0..j` has rank `k` in row `i`.
pub open spec fn ranked(pa: Seq<Vec<usize>>, i: int, j: int, k: int) -> bool {
    exists|j2: int| 0 <= j2 < j && allowed(pa, i, j2) && row_count(pa, i, j2) == k
}

/// The literals of a row are the variables of its allowed pairs, each at its rank.
proof fn lemma_row_lits(pa: Seq<Vec<usize>>, m: int, i: int, j: int)
    requires
        0 <= j,
        1 + rows_count(pa, m, i) + row_count(pa, i, j) <= i32::MAX + 1,
    ensures
        row_lits(pa, m, i, j).len() == row_count(pa, i, j),
        forall|j2: int| 0 <= j2 < j && allowed(pa, i, j2) ==>
            row_lits(pa, m, i, j)[row_count(pa, i, j2) as int] == (1 + rows_count(pa, m, i) + row_count(pa, i, j2)) as i32,
        forall|k: int| 0 <= k < row_lits(pa, m, i, j).len() ==> #[trigger] ranked(pa, i, j, k),
        forall|k: int| 0 <= k < row_lits(pa, m, i, j).len() ==>
            1 <= #[trigger] row_lits(pa, m, i, j)[k] && row_lits(pa, m, i, j)[k] == 1 + rows_count(pa, m, i) + k,
    decreases j,
{
    if j > 0 {
        lemma_row_count_monotone(pa, i, j - 1, j);
        lemma_row_lits(pa, m, i, j - 1);
        let prev = row_lits(pa, m, i, j - 1);
        let cur = row_lits(pa, m, i, j);
        assert forall|j2: int| 0 <= j2 < j && allowed(pa, i, j2) implies
            cur[row_count(pa, i, j2) as int] == (1 + rows_count(pa, m, i) + row_count(pa, i, j2)) as i32 by {
            if j2 < j - 1 {
                lemma_row_count_monotone(pa, i, j2, j - 1);
            }
        }
        assert forall|k: int| 0 <= k < cur.len() implies #[trigger] ranked(pa, i, j, k) by {
            if k < prev.len() {
                assert(ranked(pa, i, j - 1, k));
                let j2 = choose|j2: int| 0 <= j2 < j - 1 && allowed(pa, i, j2) && row_count(pa, i, j2) == k;
                assert(0 <= j2 < j && allowed(pa, i, j2) && row_count(pa, i, j2) == k);
            } else {
                assert(allowed(pa, i, j - 1) && row_count(pa, i, j - 1) == k);
            }
        }
    }
}

/// A row's literals are proper literals.
proof fn lemma_row_lits_proper(pa: Seq<Vec<usize>>, m: int, i: int)
    requires
        0 <= m,
        1 + rows_count(pa, m, i) + row_count(pa, i, m) <= i32::MAX + 1,
    ensures
        all_proper(row_lits(pa, m, i, m)),
{
    lemma_row_lits(pa, m, i, m);
}

/// The clauses of one job hold exactly when the job is on exactly one allowed processor.
proof fn lemma_row_sat(a: spec_fn(int) -> bool, pa: Seq<Vec<usize>>, m: int, i: int)
    requires
        0 <= m,
        1 + rows_count(pa, m, i) + row_count(pa, i, m) <= i32::MAX + 1,
    ensures
        ({
            let r = row_lits(pa, m, i, m);
            all_sat(a, seq![r] + amo_rows(r, r.len() as int)) <==> exactly_one(a, pa, m, i)
        }),
{
    let r = row_lits(pa, m, i, m);
    lemma_row_lits(pa, m, i, m);
    lemma_pairwise_at_most_one(a, r);
    lemma_all_sat_append(a, seq![r], amo_rows(r, r.len() as int));
    assert(all_sat(a, seq![r]) == clause_sat(a, r)) by {
        assert(seq![r][0] == r);
    }
    // at least one
    if clause_sat(a, r) {
        let k = choose|k: int| 0 <= k < r.len() && lit_true(a, #[trigger] r[k]);
        assert(ranked(pa, i, m, k));
        let j = choose|j2: int| 0 <= j2 < m && allowed(pa, i, j2) && row_count(pa, i, j2) == k;
        assert(placed(a, pa, m, i, j));
    }
    if exists|j: int| 0 <= j < m && #[trigger] placed(a, pa, m, i, j) {
        let j = choose|j: int| 0 <= j < m && #[trigger] placed(a, pa, m, i, j);
        let k = row_count(pa, i, j) as int;
        lemma_row_count_monotone(pa, i, j, m);
        assert(lit_true(a, r[k]));
    }
    // at most one
    if forall|k1: int, k2: int| 0 <= k1 < k2 < r.len() ==> !#[trigger] both_true(a, r, k1, k2) {
        assert forall|j1: int, j2: int| 0 <= j1 < j2 < m implies !(#[trigger] placed(a, pa, m, i, j1) && #[trigger] placed(a, pa, m, i, j2)) by {
            if placed(a, pa, m, i, j1) && placed(a, pa, m, i, j2) {
                lemma_row_count_monotone(pa, i, j1, j2);
                lemma_row_count_monotone(pa, i, j2, m);
                let k1 = row_count(pa, i, j1) as int;
                let k2 = row_count(pa, i, j2) as int;
                assert(both_true(a, r, k1, k2));
            }
        }
    }
    if forall|j1: int, j2: int| 0 <= j1 < j2 < m ==> !(#[trigger] placed(a, pa, m, i, j1) && #[trigger] placed(a, pa, m, i, j2)) {
        assert forall|k1: int, k2: int| 0 <= k1 < k2 < r.len() implies !#[trigger] both_true(a, r, k1, k2) by {
            assert(ranked(pa, i, m, k1));
            assert(ranked(pa, i, m, k2));
            let j1 = choose|j2: int| 0 <= j2 < m && allowed(pa, i, j2) && row_count(pa, i, j2) == k1;
            let j2 = choose|j3: int| 0 <= j3 < m && allowed(pa, i, j3) && row_count(pa, i, j3) == k2;
            if j2 <= j1 {
                lemma_row_count_monotone(pa, i, j2, j1);
            }
            if both_true(a, r, k1, k2) {
                assert(placed(a, pa, m, i, j1) && placed(a, pa, m, i, j2));
            }
        }
    }
}

/// The one-hot clauses of the jobs `0..n` hold exactly when every job is on exactly one
/// of its allowed processors.
pub proof fn lemma_one_hot(a: spec_fn(int) -> bool, pa: Seq<Vec<usize>>, m: int, n: int)
    requires
        0 <= m,
        0 <= n,
        1 + n * m <= i32::MAX + 1,
    ensures
        all_sat(a, one_hot_clauses(pa, m, n)) <==> exactly_one_each(a, pa, m, n),
    decreases n,
{
    if n > 0 {
        assert((n - 1) * m <= n * m) by (nonlinear_arith)
            requires
                n > 0,
                m >= 0,
        ;
        lemma_one_hot(a, pa, m, n - 1);
        lemma_rows_count_bound(pa, m, n);
        lemma_rows_count_monotone(pa, m, n - 1, n);
        lemma_row_sat(a, pa, m, n - 1);
        let r = row_lits(pa, m, n - 1, m);
        let prev = one_hot_clauses(pa, m, n - 1);
        assert(one_hot_clauses(pa, m, n) =~= prev + (seq![r] + amo_rows(r, r.len() as int)));
        lemma_all_sat_append(a, prev, seq![r] + amo_rows(r, r.len() as int));
        if exactly_one_each(a, pa, m, n) {
            assert(exactly_one_each(a, pa, m, n - 1));
        }
        if exactly_one_each(a, pa, m, n - 1) && all_sat(a, seq![r] + amo_rows(r, r.len() as int)) {
            assert forall|i: int| 0 <= i < n implies #[trigger] exactly_one(a, pa, m, i) by {
                if i < n - 1 {
                }
            }
        }
    }
}

/// The one-hot variables of a schedule and their clauses.
#[derive(Clone, Debug)]
pub struct OneHotProblemEncoding {
    pub var_name_generator: VarNameGenerator,
    pub position_vars: Vec<Vec<Option<usize>>>,
    pub clauses: Clauses,
}

/// A problem encoding that can be cloned.
pub trait OneHotClone: OneHot + Clone {}

/// Access to the variable that puts a job on a processor.
pub trait OneHot {
    /// The job and processor lie within the encoding.
    spec fn has_position(&self, job_num: usize, proc_num: usize) -> bool;

    fn get_position_var(&self, job_num: usize, proc_num: usize) -> Option<usize>
        requires
            self.has_position(job_num, proc_num),
    ;
}

/// Whether `x` occurs in `v`.
pub fn contains_usize(v: &Vec<usize>, x: usize) -> (r: bool)
    ensures
        r == v@.contains(x),
{
    let mut i: usize = 0;
    while i < v.len()
        invariant
            i <= v.len(),
            forall|k: int| 0 <= k < i ==> v[k] != x,
        decreases v.len() - i,
    {
        if v[i] == x {
            assert(v@[i as int] == x);
            return true;
        }
        i = i + 1;
    }
    false
}

/// The variables that a model sets true: its non-negative entries.
pub open spec fn true_vars(model: Seq<i32>) -> Set<usize> {
    Set::new(|v: usize| exists|k: int| 0 <= k < model.len() && model[k] >= 0 && model[k] as usize == v)
}

/// The processors of job `i` whose variable is in `t`, in order, over processors `0..j`.
pub open spec fn chosen_in_row(row: Seq<Option<usize>>, t: Set<usize>, j: int) -> Seq<usize>
    decreases j,
{
    if j <= 0 {
        Seq::empty()
    } else {
        let prev = chosen_in_row(row, t, j - 1);
        match row[j - 1] {
            Some(v) => if t.contains(v) {
                prev.push((j - 1) as usize)
            } else {
                prev
            },
            None => prev,
        }
    }
}

/// The processors read off a model, job after job.
pub open spec fn decoded(pv: Seq<Vec<Option<usize>>>, t: Set<usize>, i: int) -> Seq<usize>
    decreases i,
{
    if i <= 0 {
        Seq::empty()
    } else {
        decoded(pv, t, i - 1) + chosen_in_row(pv[i - 1]@, t, pv[i - 1]@.len() as int)
    }
}

/// The processor that `a` places job `i` on, where it places it on exactly one.
pub open spec fn placed_on(a: spec_fn(int) -> bool, pa: Seq<Vec<usize>>, m: int, i: int) -> int {
    choose|j: int| 0 <= j < m && #[trigger] placed(a, pa, m, i, j)
}

/// Row `row` of job `i` numbers the allowed processors, and `t` holds exactly those of its
/// variables that `a` makes true.
pub open spec fn row_read(a: spec_fn(int) -> bool, pa: Seq<Vec<usize>>, m: int, i: int, row: Seq<Option<usize>>, t: Set<usize>) -> bool {
    &&& row.len() == m <= usize::MAX
    &&& forall|k: int| 0 <= k < m ==> #[trigger] row[k] == position_var(pa, m, i, k)
    &&& forall|k: int| 0 <= k < m && (#[trigger] row[k]) is Some ==> (t.contains(row[k]->0) <==> a(row[k]->0 as int))
    &&& forall|k: int| 0 <= k < m && #[trigger] allowed(pa, i, k) ==> 1 + rows_count(pa, m, i) + row_count(pa, i, k) <= i32::MAX
}

proof fn lemma_chosen_exactly_one(a: spec_fn(int) -> bool, pa: Seq<Vec<usize>>, m: int, i: int, row: Seq<Option<usize>>, t: Set<usize>, j: int)
    requires
        0 <= j <= m,
        row_read(a, pa, m, i, row, t),
        exactly_one(a, pa, m, i),
    ensures
        chosen_in_row(row, t, j) == if placed_on(a, pa, m, i) < j {
            seq![placed_on(a, pa, m, i) as usize]
        } else {
            Seq::<usize>::empty()
        },
    decreases j,
{
    let q = placed_on(a, pa, m, i);
    assert(0 <= q < m && placed(a, pa, m, i, q));
    if j > 0 {
        lemma_chosen_exactly_one(a, pa, m, i, row, t, j - 1);
        let k = j - 1;
        assert(row[k] == position_var(pa, m, i, k));
        if allowed(pa, i, k) {
            assert(1 + rows_count(pa, m, i) + row_count(pa, i, k) <= i32::MAX);
            assert(row[k]->0 as int == 1 + rows_count(pa, m, i) + row_count(pa, i, k));
        }
        if placed(a, pa, m, i, k) {
            if q != k {
                if q < k {
                    assert(!(placed(a, pa, m, i, q) && placed(a, pa, m, i, k)));
                } else {
                    assert(!(placed(a, pa, m, i, k) && placed(a, pa, m, i, q)));
                }
            }
            assert(q == k);
            assert(chosen_in_row(row, t, j) =~= seq![q as usize]);
        } else {
            assert(q != k);
        }
    }
}

/// Where `a` places every job below `k` on exactly one processor and `t` holds the true
/// position variables, the model read back lists, for each of those jobs, that processor.
pub proof fn lemma_decoded_one_hot(a: spec_fn(int) -> bool, pa: Seq<Vec<usize>>, m: int, pv: Seq<Vec<Option<usize>>>, t: Set<usize>, k: int)
    requires
        0 <= k <= pv.len(),
        forall|i: int| 0 <= i < k ==> #[trigger] exactly_one(a, pa, m, i),
        forall|i: int| 0 <= i < k ==> row_read(a, pa, m, i, #[trigger] pv[i]@, t),
    ensures
        decoded(pv, t, k).len() == k,
        forall|i: int| 0 <= i < k ==> #[trigger] decoded(pv, t, k)[i] == placed_on(a, pa, m, i),
        forall|i: int| 0 <= i < k ==> 0 <= placed_on(a, pa, m, i) < m && placed(a, pa, m, i, #[trigger] placed_on(a, pa, m, i)),
    decreases k,
{
    if k > 0 {
        lemma_decoded_one_hot(a, pa, m, pv, t, k - 1);
        let i = k - 1;
        assert(exactly_one(a, pa, m, i));
        assert(row_read(a, pa, m, i, pv[i]@, t));
        lemma_chosen_exactly_one(a, pa, m, i, pv[i]@, t, m);
        let q = placed_on(a, pa, m, i);
        assert(0 <= q < m && placed(a, pa, m, i, q));
        let prev = decoded(pv, t, i);
        assert(decoded(pv, t, k) == prev + seq![q as usize]);
        assert((q as usize) as int == q);
        assert forall|x: int| 0 <= x < k implies #[trigger] decoded(pv, t, k)[x] == placed_on(a, pa, m, x) by {
            if x < i {
                assert(decoded(pv, t, k)[x] == prev[x]);
            }
        }
        assert forall|x: int| 0 <= x < k implies 0 <= placed_on(a, pa, m, x) < m && placed(a, pa, m, x, #[trigger] placed_on(a, pa, m, x)) by {
            if x == i {
            }
        }
    }
}

/// A variable name is among the true variables of a model exactly when the model lists it.
pub proof fn lemma_model_true_vars(model: Seq<i32>, v: usize)
    requires
        1 <= v <= i32::MAX,
    ensures
        true_vars(model).contains(v) <==> model_assignment(model)(v as int),
{
    if true_vars(model).contains(v) {
        let k = choose|k: int| 0 <= k < model.len() && model[k] >= 0 && model[k] as usize == v;
        assert(model[k] == v as i32);
    }
    if model_assignment(model)(v as int) {
        let k = choose|k: int| 0 <= k < model.len() && model[k] == v as i32;
        assert(model[k] >= 0 && model[k] as usize == v);
    }
}

/// Two different allowed pairs have different variables.
pub proof fn lemma_position_var_injective(pa: Seq<Vec<usize>>, m: int, i1: int, j1: int, i2: int, j2: int)
    requires
        0 <= i1,
        0 <= i2,
        0 <= j1 < m,
        0 <= j2 < m,
        allowed(pa, i1, j1),
        allowed(pa, i2, j2),
        i1 != i2 || j1 != j2,
    ensures
        1 + rows_count(pa, m, i1) + row_count(pa, i1, j1) != 1 + rows_count(pa, m, i2) + row_count(pa, i2, j2),
{
    if i1 == i2 {
        if j1 < j2 {
            lemma_row_count_monotone(pa, i1, j1, j2);
        } else {
            lemma_row_count_monotone(pa, i1, j2, j1);
        }
    } else if i1 < i2 {
        lemma_row_count_monotone(pa, i1, j1, m);
        lemma_rows_count_monotone(pa, m, i1, i2);
    } else {
        lemma_row_count_monotone(pa, i2, j2, m);
        lemma_rows_count_monotone(pa, m, i2, i1);
    }
}

/// The assignment that makes true exactly the variables of the pairs of schedule `sched`.
pub open spec fn placement(pa: Seq<Vec<usize>>, m: int, sched: Seq<usize>) -> spec_fn(int) -> bool {
    |v: int| exists|i: int| 0 <= i < sched.len() && v == 1 + rows_count(pa, m, i) + row_count(pa, i, #[trigger] sched[i] as int)
}

/// The variables that `placement` makes true.
pub open spec fn placement_vars(pa: Seq<Vec<usize>>, m: int, sched: Seq<usize>) -> Set<usize> {
    Set::new(|v: usize| placement(pa, m, sched)(v as int))
}

/// A schedule that puts each job on a processor it may go on satisfies the one-hot clauses
/// when written as an assignment, and reading that assignment back gives the schedule.
pub proof fn one_hot_round_trip(pa: Seq<Vec<usize>>, m: int, n: int, pv: Seq<Vec<Option<usize>>>, sched: Seq<usize>)
    requires
        0 <= m <= usize::MAX,
        0 <= n <= pv.len(),
        1 + n * m <= i32::MAX,
        sched.len() == n,
        forall|i: int| 0 <= i < n ==> #[trigger] sched[i] < m && allowed(pa, i, sched[i] as int),
        forall|i: int| 0 <= i < n ==> (#[trigger] pv[i]).len() == m,
        forall|i: int, j: int| 0 <= i < n && 0 <= j < m ==> #[trigger] pv[i]@[j] == position_var(pa, m, i, j),
    ensures
        all_sat(placement(pa, m, sched), one_hot_clauses(pa, m, n)),
        decoded(pv, placement_vars(pa, m, sched), n) == sched,
{
    let a = placement(pa, m, sched);
    let t = placement_vars(pa, m, sched);
    assert forall|i: int, j: int| 0 <= i < n && 0 <= j < m && #[trigger] placed(a, pa, m, i, j) implies j == sched[i] by {
        let i2 = choose|i2: int| 0 <= i2 < sched.len() && 1 + rows_count(pa, m, i) + row_count(pa, i, j) == 1 + rows_count(pa, m, i2) + row_count(pa, i2, #[trigger] sched[i2] as int);
        assert(allowed(pa, i2, sched[i2] as int));
        if i != i2 || j != sched[i2] {
            lemma_position_var_injective(pa, m, i, j, i2, sched[i2] as int);
        }
    }
    assert forall|i: int| 0 <= i < n implies #[trigger] exactly_one(a, pa, m, i) by {
        let j = sched[i] as int;
        assert(a((1 + rows_count(pa, m, i) + row_count(pa, i, sched[i] as int)) as int));
        assert(placed(a, pa, m, i, j));
    }
    assert(exactly_one_each(a, pa, m, n));
    lemma_one_hot(a, pa, m, n);
    assert forall|i: int| 0 <= i < n implies row_read(a, pa, m, i, #[trigger] pv[i]@, t) by {
        assert forall|k: int| 0 <= k < m && #[trigger] allowed(pa, i, k) implies 1 + rows_count(pa, m, i) + row_count(pa, i, k) <= i32::MAX by {
            lemma_position_var_range(pa, m, n, i, k);
        }
        assert forall|k: int| 0 <= k < m && (#[trigger] pv[i]@[k]) is Some implies (t.contains(pv[i]@[k]->0) <==> a(pv[i]@[k]->0 as int)) by {
            assert(pv[i]@[k] == position_var(pa, m, i, k));
            lemma_position_var_range(pa, m, n, i, k);
        }
        assert forall|k: int| 0 <= k < m implies #[trigger] pv[i]@[k] == position_var(pa, m, i, k) by {
        }
    }
    lemma_decoded_one_hot(a, pa, m, pv, t, n);
    let d = decoded(pv, t, n);
    assert forall|i: int| 0 <= i < n implies #[trigger] d[i] == sched[i] by {
        assert(d[i] == placed_on(a, pa, m, i));
        assert(placed(a, pa, m, i, placed_on(a, pa, m, i)));
    }
    assert(d =~= sched);
}

proof fn lemma_chosen_in_row_bound(row: Seq<Option<usize>>, t: Set<usize>, j: int)
    requires
        0 <= j <= row.len(),
    ensures
        forall|k: int| 0 <= k < chosen_in_row(row, t, j).len() ==> #[trigger] chosen_in_row(row, t, j)[k] < j,
        chosen_in_row(row, t, j).len() <= j,
    decreases j,
{
    if j > 0 {
        lemma_chosen_in_row_bound(row, t, j - 1);
    }
}

proof fn lemma_decoded_bound(pv: Seq<Vec<Option<usize>>>, t: Set<usize>, i: int, m: int)
    requires
        0 <= i <= pv.len(),
        forall|k: int| 0 <= k < pv.len() ==> (#[trigger] pv[k]).len() == m,
    ensures
        forall|k: int| 0 <= k < decoded(pv, t, i).len() ==> #[trigger] decoded(pv, t, i)[k] < m,
    decreases i,
{
    if i > 0 {
        lemma_decoded_bound(pv, t, i - 1, m);
        lemma_chosen_in_row_bound(pv[i - 1]@, t, m);
        let a = decoded(pv, t, i - 1);
        let b = chosen_in_row(pv[i - 1]@, t, pv[i - 1]@.len() as int);
        assert forall|k: int| 0 <= k < (a + b).len() implies #[trigger] (a + b)[k] < m by {
            if k >= a.len() {
                assert((a + b)[k] == b[k - a.len()]);
            }
        }
    }
}

impl OneHotProblemEncoding {
    /// The encoding has one row of `m` entries per job of `instance`.
    pub open spec fn fits(&self, instance: &ProblemInstance) -> bool {
        &&& self.position_vars.len() == instance.num_jobs
        &&& forall|i: int| 0 <= i < self.position_vars.len() ==> (#[trigger] self.position_vars[i]).len() == instance.num_processors
    }

    pub fn new() -> (e: OneHotProblemEncoding)
        ensures
            e.var_name_generator.spec_peek() == 1,
            e.position_vars.len() == 0,
            e.clauses.wf(),
            e.clauses@ == Seq::<Seq<i32>>::empty(),
    {
        OneHotProblemEncoding { var_name_generator: VarNameGenerator::new(), position_vars: Vec::new(), clauses: Clauses::new() }
    }

    /// Numbers the allowed pairs of jobs and processors from 1, and states that each job is
    /// on exactly one of its processors.
    pub fn encode(&mut self, partial_solution: &PartialSolution)
        requires
            partial_solution.possible_allocations.len() >= partial_solution.instance.num_jobs,
            1 + partial_solution.instance.num_jobs * partial_solution.instance.num_processors <= i32::MAX,
        ensures
            ({
                let pa = partial_solution.possible_allocations@;
                let m = partial_solution.instance.num_processors as int;
                let n = partial_solution.instance.num_jobs as int;
                &&& final(self).position_vars.len() == n
                &&& forall|i: int, j: int| 0 <= i < n && 0 <= j < m ==> (#[trigger] final(self).position_vars[i]@[j]) == position_var(pa, m, i, j)
                &&& forall|i: int| 0 <= i < n ==> (#[trigger] final(self).position_vars[i]).len() == m
                &&& final(self).clauses.wf()
                &&& final(self).clauses@ == one_hot_clauses(pa, m, n)
                &&& final(self).var_name_generator.spec_peek() == 1 + rows_count(pa, m, n)
            }),
    {
        let ghost pa = partial_solution.possible_allocations@;
        let m = partial_solution.instance.num_processors;
        let n = partial_solution.instance.num_jobs;
        proof {
            lemma_rows_count_bound(pa, m as int, n as int);
        }
        self.var_name_generator = VarNameGenerator::new();
        let mut clauses: Clauses = Clauses::new();
        let mut position_variables: Vec<Vec<Option<usize>>> = Vec::new();
        let mut i: usize = 0;
        while i < n
            invariant
                pa == partial_solution.possible_allocations@,
                m == partial_solution.instance.num_processors,
                n == partial_solution.instance.num_jobs,
                pa.len() >= n,
                1 + n * m <= i32::MAX,
                rows_count(pa, m as int, n as int) <= n * m,
                i <= n,
                position_variables.len() == i,
                forall|i2: int, j: int| 0 <= i2 < i && 0 <= j < m ==> (#[trigger] position_variables[i2]@[j]) == position_var(pa, m as int, i2, j),
                forall|i2: int| 0 <= i2 < i ==> (#[trigger] position_variables[i2]).len() == m,
                clauses.wf(),
                clauses@ == one_hot_clauses(pa, m as int, i as int),
                self.var_name_generator.spec_peek() == 1 + rows_count(pa, m as int, i as int),
            decreases n - i,
        {
            proof {
                lemma_rows_count_monotone(pa, m as int, i as int, n as int);
            }
            let mut row: Vec<Option<usize>> = Vec::new();
            let mut lits: Vec<i32> = Vec::new();
            let mut j: usize = 0;
            while j < m
                invariant
                    pa == partial_solution.possible_allocations@,
                    m == partial_solution.instance.num_processors,
                    pa.len() >= n,
                    i < n,
                    1 + n * m <= i32::MAX,
                    rows_count(pa, m as int, i as int) + row_count(pa, i as int, m as int) <= n * m,
                    j <= m,
                    row.len() == j,
                    forall|j2: int| 0 <= j2 < j ==> #[trigger] row@[j2] == position_var(pa, m as int, i as int, j2),
                    lits@ == row_lits(pa, m as int, i as int, j as int),
                    self.var_name_generator.spec_peek() == 1 + rows_count(pa, m as int, i as int) + row_count(pa, i as int, j as int),
                decreases m - j,
            {
                proof {
                    lemma_row_count_monotone(pa, i as int, j + 1, m as int);
                }
                if contains_usize(&partial_solution.possible_allocations[i], j) {
                    let v = self.var_name_generator.next();
                    row.push(Some(v));
                    lits.push(v as i32);
                } else {
                    row.push(None);
                }
                j = j + 1;
            }
            proof {
                lemma_row_lits_proper(pa, m as int, i as int);
            }
            let mut amo = pairwise_encoded_at_most_one(&lits);
            let ghost r = lits@;
            proof {
                lemma_row_lits(pa, m as int, i as int, m as int);
                assert(zero_free(r));
            }
            clauses.add_clause(at_least_one_encoding(lits));
            clauses.add_many_clauses(&mut amo);
            position_variables.push(row);
            i = i + 1;
            proof {
                assert(one_hot_clauses(pa, m as int, i as int) == one_hot_clauses(pa, m as int, i - 1).push(r) + amo_rows(r, r.len() as int));
            }
        }
        self.position_vars = position_variables;
        self.clauses = clauses;
    }

    /// The schedule that a model describes: each job goes to the processors whose
    /// variables the model sets true.
    pub fn decode(&self, instance: &ProblemInstance, var_assignment: &Vec<i32>) -> (s: Solution)
        requires
            self.fits(instance),
            instance.wf(),
            decoded(self.position_vars@, true_vars(var_assignment@), self.position_vars.len() as int).len() == self.position_vars.len(),
            forall|p: int| 0 <= p < instance.num_processors ==> #[trigger] load(instance.job_sizes@,
                decoded(self.position_vars@, true_vars(var_assignment@), self.position_vars.len() as int), p, instance.num_jobs as int) <= usize::MAX,
        ensures
            s.assignment@ == decoded(self.position_vars@, true_vars(var_assignment@), self.position_vars.len() as int),
            s.makespan == max_load(instance.job_sizes@, s.assignment@, instance.num_processors as int),
    {
        let ghost t = true_vars(var_assignment@);
        let mut assignment_set: HashSet<usize> = HashSet::new();
        let mut k: usize = 0;
        while k < var_assignment.len()
            invariant
                k <= var_assignment.len(),
                assignment_set@ == Set::new(|v: usize| exists|k2: int| 0 <= k2 < k && var_assignment@[k2] >= 0 && var_assignment@[k2] as usize == v),
            decreases var_assignment.len() - k,
        {
            let a = var_assignment[k];
            if a >= 0 {
                assignment_set.insert(a as usize);
            }
            proof {
                assert(assignment_set@ =~= Set::new(|v: usize| exists|k2: int| 0 <= k2 < k + 1 && var_assignment@[k2] >= 0 && var_assignment@[k2] as usize == v)) by {
                    assert forall|v: usize| assignment_set@.contains(v) implies exists|k2: int| 0 <= k2 < k + 1 && var_assignment@[k2] >= 0 && var_assignment@[k2] as usize == v by {
                        if a >= 0 && v == a as usize {
                            assert(var_assignment@[k as int] == a);
                        }
                    }
                }
            }
            k = k + 1;
        }
        assert(assignment_set@ =~= t);
        let ghost pv = self.position_vars@;
        let mut assignment: Vec<usize> = Vec::new();
        let mut job: usize = 0;
        while job < self.position_vars.len()
            invariant
                pv == self.position_vars@,
                assignment_set@ == t,
                job <= pv.len(),
                assignment@ == decoded(pv, t, job as int),
            decreases pv.len() - job,
        {
            let ghost before = assignment@;
            let mut process: usize = 0;
            while process < self.position_vars[job].len()
                invariant
                    pv == self.position_vars@,
                    assignment_set@ == t,
                    job < pv.len(),
                    process <= pv[job as int].len(),
                    assignment@ == before + chosen_in_row(pv[job as int]@, t, process as int),
                decreases pv[job as int].len() - process,
            {
                match self.position_vars[job][process] {
                    Some(v) => {
                        if assignment_set.contains(&v) {
                            assignment.push(process);
                        }
                    },
                    None => {},
                }
                process = process + 1;
                proof {
                    assert(assignment@ =~= before + chosen_in_row(pv[job as int]@, t, process as int));
                }
            }
            job = job + 1;
        }
        proof {
            lemma_decoded_bound(pv, t, pv.len() as int, instance.num_processors as int);
        }
        let makespan = calc_makespan(instance, &assignment);
        Solution { makespan, assignment }
    }

    /// The number of the next fresh variable: one more than the variables in use.
    pub fn get_num_vars(&self) -> (n: usize)
        ensures
            n == self.var_name_generator.spec_peek(),
    {
        self.var_name_generator.peek()
    }
}

impl OneHot for OneHotProblemEncoding {
    open spec fn has_position(&self, job_num: usize, proc_num: usize) -> bool {
        job_num < self.position_vars.len() && proc_num < self.position_vars[job_num as int].len()
    }

    fn get_position_var(&self, job_num: usize, proc_num: usize) -> (r: Option<usize>)
        ensures
            r == self.position_vars[job_num as int]@[proc_num as int],
    {
        self.position_vars[job_num][proc_num]
    }
}

} // verus!
