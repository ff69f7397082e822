//! Clauses in conjunctive normal form, their meaning under an assignment, and the
//! generator of fresh variable names that every encoding draws from.
use vstd::prelude::*;
use crate::common::timeout::Timeout;
use crate::encoding::problem_encoding::one_hot_encoding::OneHot;
use crate::problem_instance::partial_solution::PartialSolution;
use crate::problem_instance::problem_instance::ProblemInstance;
use crate::problem_instance::solution::Solution;

verus! {

/// A problem encoding that also gives access to its one-hot position variables.
pub trait OneHotEncoder: Encoder + OneHot {}

/// Turns "is there a schedule of makespan at most `makespan`?" into clauses.
pub trait Encoder {
    /// The inputs on which `basic_encode` can run.
    spec fn encode_requires(&self, partial_solution: &PartialSolution, makespan: usize) -> bool;

    /// The encoding is complete and its clauses can be handed out.
    spec fn encoded(&self) -> bool;

    /// The models that `decode` can read.
    spec fn decode_requires(&self, instance: &ProblemInstance, solution: &Vec<i32>) -> bool;

    /// Encodes the question; `false` when the time ran out or the clauses would exceed
    /// `max_num_clauses`.
    fn basic_encode(
        &mut self,
        partial_solution: &PartialSolution,
        makespan: usize,
        timeout: &Timeout,
        max_num_clauses: usize,
    ) -> (r: bool)
        requires
            old(self).encode_requires(partial_solution, makespan),
        ensures
            r ==> final(self).encoded(),
    ;

    /// Hands out the clauses of the last encoding.
    fn output(&mut self) -> (c: Clauses)
        requires
            old(self).encoded(),
        ensures
            c.wf(),
    ;

    /// The schedule that a model of the clauses describes.
    fn decode(&self, instance: &ProblemInstance, solution: &Vec<i32>) -> Solution
        requires
            self.decode_requires(instance, solution),
    ;

    /// The number of the next fresh variable.
    fn get_num_vars(&self) -> usize;
}

/// The largest variable name that a literal can carry (literals are `i32`).
pub open spec fn valid_var(v: int) -> bool {
    1 <= v <= i32::MAX
}

/// Every variable of `vars` is a valid variable name.
pub open spec fn all_valid(vars: Seq<usize>) -> bool {
    forall|i: int| 0 <= i < vars.len() ==> valid_var(#[trigger] vars[i] as int)
}

/// The positive literal of variable `v`.
pub open spec fn pos(v: usize) -> i32 {
    v as i32
}

/// The negative literal of variable `v`.
pub open spec fn neg(v: usize) -> i32 {
    (-(v as int)) as i32
}

/// Whether literal `l` is true under assignment `a` (a maps variable names to truth values).
pub open spec fn lit_true(a: spec_fn(int) -> bool, l: i32) -> bool {
    if l > 0 {
        a(l as int)
    } else {
        !a(-(l as int))
    }
}

/// A clause holds when one of its literals is true.
pub open spec fn clause_sat(a: spec_fn(int) -> bool, c: Seq<i32>) -> bool {
    exists|i: int| 0 <= i < c.len() && lit_true(a, #[trigger] c[i])
}

/// A list of clauses holds when each clause holds.
pub open spec fn all_sat(a: spec_fn(int) -> bool, cs: Seq<Seq<i32>>) -> bool {
    forall|j: int| 0 <= j < cs.len() ==> clause_sat(a, #[trigger] cs[j])
}

/// No literal of the clause is the separator `0`.
pub open spec fn zero_free(c: Seq<i32>) -> bool {
    forall|i: int| 0 <= i < c.len() ==> #[trigger] c[i] != 0
}

/// A flat sequence is complete when it is empty or its last clause is closed by `0`.
pub open spec fn complete(s: Seq<i32>) -> bool {
    s.len() == 0 || s.last() == 0
}

/// Splits a flat sequence at its `0` separators; `cur` is the clause read so far.
/// An unterminated tail is dropped.
pub open spec fn split_acc(s: Seq<i32>, cur: Seq<i32>) -> Seq<Seq<i32>>
    decreases s.len(),
{
    if s.len() == 0 {
        Seq::empty()
    } else if s[0] == 0 {
        seq![cur] + split_acc(s.drop_first(), Seq::empty())
    } else {
        split_acc(s.drop_first(), cur.push(s[0]))
    }
}

/// The clauses that a flat, `0`-separated sequence holds.
pub open spec fn split(s: Seq<i32>) -> Seq<Seq<i32>> {
    split_acc(s, Seq::empty())
}

/// The flat, `0`-separated form of a list of clauses.
pub open spec fn flatten(cs: Seq<Seq<i32>>) -> Seq<i32>
    decreases cs.len(),
{
    if cs.len() == 0 {
        Seq::empty()
    } else {
        flatten(cs.drop_last()) + cs.last() + seq![0i32]
    }
}

pub proof fn lemma_split_acc_zero_free(c: Seq<i32>, rest: Seq<i32>, cur: Seq<i32>)
    requires
        zero_free(c),
    ensures
        split_acc(c + rest, cur) == split_acc(rest, cur + c),
    decreases c.len(),
{
    if c.len() == 0 {
        assert(c + rest =~= rest);
        assert(cur + c =~= cur);
    } else {
        assert((c + rest).drop_first() =~= c.drop_first() + rest);
        assert((c + rest)[0] == c[0]);
        lemma_split_acc_zero_free(c.drop_first(), rest, cur.push(c[0]));
        assert(cur.push(c[0]) + c.drop_first() =~= cur + c);
    }
}

pub proof fn lemma_split_append(a: Seq<i32>, b: Seq<i32>, cur: Seq<i32>)
    requires
        (a.len() == 0 && cur.len() == 0) || (a.len() > 0 && a.last() == 0),
    ensures
        split_acc(a + b, cur) == split_acc(a, cur) + split_acc(b, Seq::empty()),
    decreases a.len(),
{
    if a.len() == 0 {
        assert(a + b =~= b);
        assert(cur =~= Seq::<i32>::empty());
        assert(split_acc(a, cur) =~= Seq::<Seq<i32>>::empty());
        assert(split_acc(b, Seq::empty()) =~= Seq::<Seq<i32>>::empty() + split_acc(b, Seq::empty()));
    } else {
        let a1 = a.drop_first();
        assert((a + b).drop_first() =~= a1 + b);
        assert((a + b)[0] == a[0]);
        if a[0] == 0 {
            if a1.len() > 0 {
                assert(a1.last() == a.last());
            }
            assert(split_acc(a + b, cur) == seq![cur] + split_acc(a1 + b, Seq::empty()));
            assert(split_acc(a, cur) == seq![cur] + split_acc(a1, Seq::empty()));
            lemma_split_append(a1, b, Seq::empty());
            assert(seq![cur] + (split_acc(a1, Seq::empty()) + split_acc(b, Seq::empty()))
                =~= (seq![cur] + split_acc(a1, Seq::empty())) + split_acc(b, Seq::empty()));
        } else {
            assert(a1.len() > 0 && a1.last() == 0) by {
                assert(a1.last() == a.last());
            }
            assert(split_acc(a + b, cur) == split_acc(a1 + b, cur.push(a[0])));
            assert(split_acc(a, cur) == split_acc(a1, cur.push(a[0])));
            lemma_split_append(a1, b, cur.push(a[0]));
        }
    }
}

pub proof fn lemma_split_single(c: Seq<i32>)
    requires
        zero_free(c),
    ensures
        split(c + seq![0i32]) == seq![c],
{
    lemma_split_acc_zero_free(c, seq![0i32], Seq::empty());
    assert(Seq::<i32>::empty() + c =~= c);
    let z = seq![0i32];
    assert(z.drop_first() =~= Seq::<i32>::empty());
    assert(split_acc(z, c) =~= seq![c] + split_acc(Seq::<i32>::empty(), Seq::empty()));
    assert(split_acc(z, c) =~= seq![c]);
}

pub proof fn lemma_split_len(s: Seq<i32>, cur: Seq<i32>)
    ensures
        split_acc(s, cur).len() <= s.len(),
    decreases s.len(),
{
    if s.len() > 0 {
        if s[0] == 0 {
            lemma_split_len(s.drop_first(), Seq::empty());
        } else {
            lemma_split_len(s.drop_first(), cur.push(s[0]));
        }
    }
}

/// The clauses read from a flat sequence never hold the separator.
pub proof fn lemma_split_zero_free(s: Seq<i32>, cur: Seq<i32>)
    requires
        zero_free(cur),
    ensures
        forall|j: int| 0 <= j < split_acc(s, cur).len() ==> zero_free(#[trigger] split_acc(s, cur)[j]),
    decreases s.len(),
{
    if s.len() > 0 {
        if s[0] == 0 {
            lemma_split_zero_free(s.drop_first(), Seq::empty());
            let r = split_acc(s.drop_first(), Seq::empty());
            assert(zero_free(Seq::<i32>::empty()));
            assert(split_acc(s, cur) == seq![cur] + r);
            assert forall|j: int| 0 <= j < split_acc(s, cur).len() implies zero_free(#[trigger] split_acc(s, cur)[j]) by {
                if j == 0 {
                    assert(split_acc(s, cur)[j] == cur);
                } else {
                    assert(split_acc(s, cur)[j] == r[j - 1]);
                }
            }
        } else {
            assert(zero_free(cur.push(s[0]))) by {
                assert forall|i: int| 0 <= i < cur.push(s[0]).len() implies #[trigger] cur.push(s[0])[i] != 0 by {
                    if i < cur.len() {
                        assert(cur.push(s[0])[i] == cur[i]);
                    }
                }
            }
            lemma_split_zero_free(s.drop_first(), cur.push(s[0]));
            assert(split_acc(s, cur) == split_acc(s.drop_first(), cur.push(s[0])));
        }
    }
}

/// The flat form of a list of zero-free clauses splits back into the same list.
pub proof fn lemma_split_flatten(cs: Seq<Seq<i32>>)
    requires
        forall|j: int| 0 <= j < cs.len() ==> zero_free(#[trigger] cs[j]),
    ensures
        split(flatten(cs)) == cs,
        complete(flatten(cs)),
    decreases cs.len(),
{
    if cs.len() > 0 {
        let init = cs.drop_last();
        assert forall|j: int| 0 <= j < init.len() implies zero_free(#[trigger] init[j]) by {
            assert(init[j] == cs[j]);
        }
        lemma_split_flatten(init);
        let c = cs.last();
        assert(zero_free(c)) by {
            assert(c == cs[cs.len() - 1]);
        }
        let f = flatten(init);
        assert(flatten(cs) == f + (c + seq![0i32])) by {
            assert(f + c + seq![0i32] =~= f + (c + seq![0i32]));
        }
        lemma_split_append(f, c + seq![0i32], Seq::empty());
        lemma_split_single(c);
        assert(cs =~= init + seq![c]);
    }
}

/// A literal that can be negated without overflow and names a variable.
pub open spec fn proper_lit(l: i32) -> bool {
    l != 0 && l != i32::MIN
}

pub proof fn lemma_neg_lit(a: spec_fn(int) -> bool, l: i32)
    requires
        proper_lit(l),
    ensures
        lit_true(a, (-l) as i32) == !lit_true(a, l),
{
}

pub proof fn lemma_pos_neg(a: spec_fn(int) -> bool, v: usize)
    requires
        valid_var(v as int),
    ensures
        lit_true(a, pos(v)) == a(v as int),
        lit_true(a, neg(v)) == !a(v as int),
        proper_lit(pos(v)),
        proper_lit(neg(v)),
        neg(v) == -pos(v),
{
}

/// `cs` begins with the clauses `pre`.
pub open spec fn starts_with(cs: Seq<Seq<i32>>, pre: Seq<Seq<i32>>) -> bool {
    &&& pre.len() <= cs.len()
    &&& forall|i: int| 0 <= i < pre.len() ==> #[trigger] cs[i] == pre[i]
}

/// An assignment that satisfies a list of clauses satisfies every list it begins with.
pub proof fn lemma_starts_with_sat(a: spec_fn(int) -> bool, cs: Seq<Seq<i32>>, pre: Seq<Seq<i32>>)
    requires
        starts_with(cs, pre),
        all_sat(a, cs),
    ensures
        all_sat(a, pre),
{
    assert forall|j: int| 0 <= j < pre.len() implies clause_sat(a, #[trigger] pre[j]) by {
        assert(cs[j] == pre[j]);
    }
}

pub proof fn lemma_all_sat_append(a: spec_fn(int) -> bool, x: Seq<Seq<i32>>, y: Seq<Seq<i32>>)
    ensures
        all_sat(a, x + y) == (all_sat(a, x) && all_sat(a, y)),
{
    if all_sat(a, x) && all_sat(a, y) {
        assert forall|j: int| 0 <= j < (x + y).len() implies clause_sat(a, #[trigger] (x + y)[j]) by {
            if j < x.len() {
                assert((x + y)[j] == x[j]);
            } else {
                assert((x + y)[j] == y[j - x.len()]);
            }
        }
    }
    if all_sat(a, x + y) {
        assert forall|j: int| 0 <= j < x.len() implies clause_sat(a, #[trigger] x[j]) by {
            assert((x + y)[j] == x[j]);
        }
        assert forall|j: int| 0 <= j < y.len() implies clause_sat(a, #[trigger] y[j]) by {
            assert((x + y)[x.len() + j] == y[j]);
        }
    }
}

pub proof fn lemma_all_sat_push(a: spec_fn(int) -> bool, x: Seq<Seq<i32>>, c: Seq<i32>)
    ensures
        all_sat(a, x.push(c)) == (all_sat(a, x) && clause_sat(a, c)),
{
    lemma_all_sat_append(a, x, seq![c]);
    assert(x.push(c) =~= x + seq![c]);
    assert(all_sat(a, seq![c]) == clause_sat(a, c)) by {
        assert(seq![c][0] == c);
    }
}

pub proof fn lemma_clause_sat_append(a: spec_fn(int) -> bool, x: Seq<i32>, y: Seq<i32>)
    ensures
        clause_sat(a, x + y) == (clause_sat(a, x) || clause_sat(a, y)),
{
    if clause_sat(a, x) {
        let i = choose|i: int| 0 <= i < x.len() && lit_true(a, #[trigger] x[i]);
        assert((x + y)[i] == x[i]);
    }
    if clause_sat(a, y) {
        let i = choose|i: int| 0 <= i < y.len() && lit_true(a, #[trigger] y[i]);
        assert((x + y)[x.len() + i] == y[i]);
    }
    if clause_sat(a, x + y) {
        let i = choose|i: int| 0 <= i < (x + y).len() && lit_true(a, #[trigger] (x + y)[i]);
        if i < x.len() {
            assert((x + y)[i] == x[i]);
        } else {
            assert((x + y)[i] == y[i - x.len()]);
        }
    }
}

pub proof fn lemma_clause_sat_push(a: spec_fn(int) -> bool, x: Seq<i32>, l: i32)
    ensures
        clause_sat(a, x.push(l)) == (clause_sat(a, x) || lit_true(a, l)),
{
    lemma_clause_sat_append(a, x, seq![l]);
    assert(x.push(l) =~= x + seq![l]);
    assert(clause_sat(a, seq![l]) == lit_true(a, l)) by {
        assert(seq![l][0] == l);
    }
}

/// A clause: the disjunction of its literals.
#[derive(Clone, Debug)]
pub struct Clause {
    pub vars: Vec<i32>,
}

/// Hands out fresh variable names, counting up from 1.
#[derive(Clone, Debug)]
pub struct VarNameGenerator {
    current: usize,
}

impl VarNameGenerator {
    /// The name that the next call of `next` returns.
    pub closed spec fn spec_peek(&self) -> usize {
        self.current
    }

    pub fn new() -> (g: VarNameGenerator)
        ensures
            g.spec_peek() == 1,
    {
        VarNameGenerator { current: 1 }
    }

    pub fn next(&mut self) -> (v: usize)
        requires
            old(self).spec_peek() < usize::MAX,
        ensures
            v == old(self).spec_peek(),
            final(self).spec_peek() == old(self).spec_peek() + 1,
    {
        let v = self.current;
        self.current = self.current + 1;
        v
    }

    pub fn peek(&self) -> (v: usize)
        ensures
            v == self.spec_peek(),
    {
        self.current
    }

    pub fn jump_to(&mut self, to: usize)
        ensures
            final(self).spec_peek() == to,
    {
        self.current = to;
    }
}

/// A conjunction of clauses, kept flat: each clause is followed by a `0`.
#[derive(PartialEq, Eq, Clone, Debug)]
pub struct Clauses {
    num_clauses: usize,
    clauses: Vec<i32>,
}

impl View for Clauses {
    type V = Seq<Seq<i32>>;

    /// The clauses held, in order.
    open spec fn view(&self) -> Seq<Seq<i32>> {
        split(self.flat())
    }
}

impl Clauses {
    /// The flat `0`-separated form.
    pub closed spec fn flat(&self) -> Seq<i32> {
        self.clauses@
    }

    /// The counter of clauses, as kept.
    pub closed spec fn count(&self) -> nat {
        self.num_clauses as nat
    }

    /// Well formed: the flat form ends with a complete clause and the counter is exact.
    pub open spec fn wf(&self) -> bool {
        &&& complete(self.flat())
        &&& self.count() == self@.len()
    }

    pub fn new() -> (c: Clauses)
        ensures
            c.wf(),
            c@ == Seq::<Seq<i32>>::empty(),
            c.flat() == Seq::<i32>::empty(),
    {
        Clauses { num_clauses: 0, clauses: Vec::new() }
    }

    pub fn add_clause(&mut self, clause: Clause)
        requires
            old(self).wf(),
            zero_free(clause.vars@),
        ensures
            final(self).wf(),
            final(self)@ == old(self)@.push(clause.vars@),
            final(self).flat() == old(self).flat() + clause.vars@ + seq![0i32],
    {
        let mut clause = clause;
        let ghost old_flat = self.clauses@;
        let ghost c = clause.vars@;
        self.clauses.append(&mut clause.vars);
        self.clauses.push(0);
        proof {
            lemma_split_len(old_flat, Seq::empty());
            assert(self.clauses@ =~= old_flat + (c + seq![0i32]));
            assert(old_flat.len() == 0 || old_flat.last() == 0);
            lemma_split_append(old_flat, c + seq![0i32], Seq::empty());
            lemma_split_single(c);
            assert(self.clauses@ =~= old_flat + c + seq![0i32]);
        }
        let flat_len = self.clauses.len();
        self.num_clauses = self.num_clauses + 1;
        proof {
            lemma_split_len(self.clauses@, Seq::empty());
        }
    }

    pub fn add_many_clauses(&mut self, clauses: &mut Clauses)
        requires
            old(self).wf(),
            old(clauses).wf(),
        ensures
            final(self).wf(),
            final(self)@ == old(self)@ + old(clauses)@,
            final(self).flat() == old(self).flat() + old(clauses).flat(),
            final(clauses).flat() == Seq::<i32>::empty(),
            final(clauses).count() == old(clauses).count(),
    {
        let ghost a = self.clauses@;
        let ghost b = clauses.clauses@;
        proof {
            lemma_split_len(a, Seq::empty());
            lemma_split_len(b, Seq::empty());
        }
        self.clauses.append(&mut clauses.clauses);
        proof {
            lemma_split_append(a, b, Seq::empty());
            if b.len() > 0 {
                assert(self.clauses@.last() == b.last());
            } else {
                assert(self.clauses@ =~= a);
            }
        }
        let flat_len = self.clauses.len();
        self.num_clauses = self.num_clauses + clauses.num_clauses;
    }

    /// The length of the flat form.
    pub fn len(&self) -> (n: usize)
        ensures
            n == self.flat().len(),
    {
        self.clauses.len()
    }

    /// The flat form, for writing out.
    pub fn as_flat(&self) -> (s: &Vec<i32>)
        ensures
            s@ == self.flat(),
    {
        &self.clauses
    }

    /// An iterator over the flat form.
    pub fn iter(&self) -> (it: std::slice::Iter<'_, i32>)
        ensures
            vstd::std_specs::iter::IteratorSpec::remaining(&it).unref() == self.flat(),
    {
        proof {
            broadcast use vstd::std_specs::slice::axiom_spec_slice_iter;
        }
        self.clauses.as_slice().iter()
    }

    /// The counter of clauses.
    pub open spec fn get_num_clauses_spec(&self) -> nat {
        self.count()
    }

    pub fn get_num_clauses(&self) -> (n: usize)
        ensures
            n == self.count(),
            self.wf() ==> n == self@.len(),
    {
        self.num_clauses
    }

    pub fn unflatten(&self) -> (out: Vec<Clause>)
        ensures
            out.len() == split(self.flat()).len(),
            forall|i: int| 0 <= i < out.len() ==> (#[trigger] out[i]).vars@ == split(self.flat())[i],
    {
        let mut out: Vec<Clause> = Vec::new();
        let mut current_clause: Vec<i32> = Vec::new();
        let mut idx: usize = 0;
        let ghost s = self.clauses@;
        assert(s.skip(0) =~= s);
        assert(Seq::new(0nat, |i: int| out[i].vars@) =~= Seq::<Seq<i32>>::empty());
        while idx < self.clauses.len()
            invariant
                s == self.clauses@,
                0 <= idx <= s.len(),
                split(s) == Seq::new(out.len() as nat, |i: int| out[i].vars@) + split_acc(
                    s.skip(idx as int),
                    current_clause@,
                ),
            decreases s.len() - idx,
        {
            let ghost rest = s.skip(idx as int);
            assert(rest.drop_first() =~= s.skip(idx + 1));
            let ghost old_out = Seq::new(out.len() as nat, |i: int| out[i].vars@);
            let x = self.clauses[idx];
            if x == 0 {
                let finished = Clause { vars: current_clause };
                out.push(finished);
                current_clause = Vec::new();
                proof {
                    let new_out = Seq::new(out.len() as nat, |i: int| out[i].vars@);
                    assert(new_out =~= old_out + seq![finished.vars@]);
                    assert(old_out + (seq![finished.vars@] + split_acc(s.skip(idx + 1), Seq::empty()))
                        =~= new_out + split_acc(s.skip(idx + 1), Seq::empty()));
                }
            } else {
                current_clause.push(x);
            }
            idx = idx + 1;
        }
        proof {
            assert(s.skip(idx as int) =~= Seq::<i32>::empty());
            assert(split(s) =~= Seq::new(out.len() as nat, |i: int| out[i].vars@));
        }
        out
    }
}

} // verus!
