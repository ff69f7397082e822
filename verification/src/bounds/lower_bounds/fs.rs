//! The bound of Fekete and Schepers: job sizes are mapped by dual feasible functions to
//! values that no processor can exceed one of in total, so where the mapped sizes add up
//! to more than the number of processors, the makespan is too small.
use vstd::prelude::*;
use fraction::Fraction;
use fraction::GenericFraction;
use fraction::Ratio;
use fraction::Sign;
use crate::bounds::bound::Bound;
use crate::bounds::bound::lemma_makespan_bounds_load;
use crate::bounds::lower_bounds::middle::lemma_pigeonhole;
use crate::bounds::lower_bounds::middle::lemma_two_jobs;
use crate::common::common::prefix_total;
use crate::common::timeout::Timeout;
use vstd::arithmetic::div_mod::lemma_basic_div;
use vstd::arithmetic::div_mod::lemma_div_is_ordered_by_denominator;
use vstd::arithmetic::div_mod::lemma_mod_multiples_basic;
use vstd::arithmetic::div_mod::lemma_div_by_self;
use crate::problem_instance::problem_instance::ProblemInstance;
use crate::problem_instance::solution::Solution;

verus! {

/// A non-negative fraction as `fraction` keeps it: a numerator and a denominator.
struct Frac {
    num: u64,
    den: u64,
}

/// The fraction `v / 1`, as `Fraction::from` makes it from an integer.
#[verifier::external_body]
fn frac_from(v: usize) -> (r: Option<Frac>)
    requires
        v <= u64::MAX,
    ensures
        r == Some(Frac { num: v as u64, den: 1 }),
{
    match Fraction::from(v) {
        GenericFraction::Rational(_, q) => Some(Frac { num: *q.numer(), den: *q.denom() }),
        GenericFraction::Infinity(_) => None,
        GenericFraction::NaN => None,
    }
}

/// `a / b` with `Fraction`'s `Div`: a zero numerator is handed back as it is; otherwise
/// the quotient's value is `a / b`.
#[verifier::external_body]
fn frac_div(a: &Frac, b: &Frac) -> (r: Option<Frac>)
    requires
        a.den == 1,
        b.den == 1,
        b.num >= 1,
    ensures
        a.num == 0 ==> r == Some(Frac { num: 0, den: 1 }),
        r is Some,
        r->0.den >= 1,
        r->0.num * b.num == a.num * r->0.den,
{
    let x = GenericFraction::Rational(Sign::Plus, Ratio::new_raw(a.num, a.den));
    let y = GenericFraction::Rational(Sign::Plus, Ratio::new_raw(b.num, b.den));
    match x / y {
        GenericFraction::Rational(_, q) => Some(Frac { num: *q.numer(), den: *q.denom() }),
        GenericFraction::Infinity(_) => None,
        GenericFraction::NaN => None,
    }
}

/// `ns[a] + ... + ns[b - 1]`.
pub open spec fn range_sum(ns: Seq<int>, a: int, b: int) -> int
    decreases b - a,
{
    if b <= a {
        0
    } else {
        range_sum(ns, a, b - 1) + ns[b - 1]
    }
}

/// The sum of whole fractions with `Fraction`'s `Sum`, which adds from zero.
#[verifier::external_body]
fn frac_sum(vs: &Vec<Frac>) -> (r: Option<Frac>)
    requires
        forall|i: int| 0 <= i < vs.len() ==> (#[trigger] vs@[i]).den == 1,
        range_sum(Seq::new(vs.len() as nat, |i: int| vs@[i].num as int), 0, vs.len() as int) <= u64::MAX,
    ensures
        r == Some(Frac { num: range_sum(Seq::new(vs.len() as nat, |i: int| vs@[i].num as int), 0, vs.len() as int) as u64, den: 1 }),
{
    let fs: Vec<Fraction> = vs.iter().map(|f| GenericFraction::Rational(Sign::Plus, Ratio::new_raw(f.num, f.den))).collect();
    let total: Fraction = fs.iter().sum();
    match total {
        GenericFraction::Rational(_, q) => Some(Frac { num: *q.numer(), den: *q.denom() }),
        GenericFraction::Infinity(_) => None,
        GenericFraction::NaN => None,
    }
}

/// `a -= b` with `Fraction`'s `SubAssign`, for whole fractions with `a >= b`.
#[verifier::external_body]
fn frac_sub(a: &Frac, b: &Frac) -> (r: Option<Frac>)
    requires
        a.den == 1,
        b.den == 1,
        a.num >= b.num,
    ensures
        r == Some(Frac { num: (a.num - b.num) as u64, den: 1 }),
{
    let mut x = GenericFraction::Rational(Sign::Plus, Ratio::new_raw(a.num, a.den));
    x -= GenericFraction::Rational(Sign::Plus, Ratio::new_raw(b.num, b.den));
    match x {
        GenericFraction::Rational(_, q) => Some(Frac { num: *q.numer(), den: *q.denom() }),
        GenericFraction::Infinity(_) => None,
        GenericFraction::NaN => None,
    }
}

/// `a += 1` with `Fraction`'s `AddAssign`, for a whole fraction.
#[verifier::external_body]
fn frac_add_one(a: &Frac) -> (r: Option<Frac>)
    requires
        a.den == 1,
        a.num < u64::MAX,
    ensures
        r == Some(Frac { num: (a.num + 1) as u64, den: 1 }),
{
    let mut x: Fraction = GenericFraction::Rational(Sign::Plus, Ratio::new_raw(a.num, a.den));
    x += 1;
    match x {
        GenericFraction::Rational(_, q) => Some(Frac { num: *q.numer(), den: *q.denom() }),
        GenericFraction::Infinity(_) => None,
        GenericFraction::NaN => None,
    }
}

/// `a > b` with `Fraction`'s `PartialOrd`, for whole fractions.
#[verifier::external_body]
fn frac_gt(a: &Frac, b: &Frac) -> (r: bool)
    requires
        a.den == 1,
        b.den == 1,
    ensures
        r == (a.num > b.num),
{
    let x: Fraction = GenericFraction::Rational(Sign::Plus, Ratio::new_raw(a.num, a.den));
    let y: Fraction = GenericFraction::Rational(Sign::Plus, Ratio::new_raw(b.num, b.den));
    x > y
}

/// `a <= b` with `Fraction`'s `PartialOrd`, for whole fractions.
#[verifier::external_body]
fn frac_le(a: &Frac, b: &Frac) -> (r: bool)
    requires
        a.den == 1,
        b.den == 1,
    ensures
        r == (a.num <= b.num),
{
    let x: Fraction = GenericFraction::Rational(Sign::Plus, Ratio::new_raw(a.num, a.den));
    let y: Fraction = GenericFraction::Rational(Sign::Plus, Ratio::new_raw(b.num, b.den));
    x <= y
}

/// The value that the `k`-th function gives a job of size `x`: where `(k + 1) * x` is not
/// a multiple of the makespan, its remainder divided by the makespan in integers (which
/// is 0) and then by `k`; else `x` divided by the makespan in integers.
pub open spec fn scaled(k: int, x: int, mk: int) -> int {
    if ((k + 1) * x) % mk != 0 {
        0
    } else {
        x / mk
    }
}

/// The values of all jobs under the `k`-th function.
pub open spec fn scaled_sizes(k: int, sizes: Seq<usize>, mk: int) -> Seq<int> {
    Seq::new(sizes.len(), |j: int| scaled(k, sizes[j] as int, mk))
}

/// Taking the first element off a range takes its value off the sum.
proof fn lemma_range_sum_front(ns: Seq<int>, a: int, b: int)
    requires
        a < b,
    ensures
        range_sum(ns, a, b) == ns[a] + range_sum(ns, a + 1, b),
    decreases b - a,
{
    if a + 1 < b {
        lemma_range_sum_front(ns, a, b - 1);
        assert(range_sum(ns, a + 1, b) == range_sum(ns, a + 1, b - 1) + ns[b - 1]);
    } else {
        assert(range_sum(ns, a, a) == 0);
        assert(range_sum(ns, a + 1, b) == 0);
    }
}

/// The scaled sizes add up to at most the sizes.
proof fn lemma_scaled_total(k: int, sizes: Seq<usize>, mk: int, b: int)
    requires
        mk >= 1,
        0 <= b <= sizes.len(),
    ensures
        0 <= range_sum(scaled_sizes(k, sizes, mk), 0, b) <= prefix_total(sizes, b),
    decreases b,
{
    if b > 0 {
        lemma_scaled_total(k, sizes, mk, b - 1);
        let x = sizes[b - 1] as int;
        lemma_div_is_ordered_by_denominator(x, 1, mk);
    }
}

/// The sums over a range of non-negative values are non-negative.
proof fn lemma_range_sum_nonneg(ns: Seq<int>, a: int, b: int)
    requires
        forall|j: int| a <= j < b ==> ns[j] >= 0,
    ensures
        range_sum(ns, a, b) >= 0,
    decreases b - a,
{
    if a < b {
        lemma_range_sum_nonneg(ns, a, b - 1);
    }
}

/// The big jobs from `u` on (those above `mk - eps`) leave the sum, each counted as one,
/// until `u` reaches `l`.
pub open spec fn raise_upper(ns: Seq<int>, sizes: Seq<usize>, mk: int, eps: int, u: int, l: int, last: int) -> (int, int)
    decreases l - u,
{
    if u >= l {
        (u, last)
    } else if sizes[u] > mk - eps {
        if l == u + 1 {
            (u + 1, last - ns[u] + 1)
        } else {
            raise_upper(ns, sizes, mk, eps, u + 1, l, last - ns[u] + 1)
        }
    } else {
        (u, last)
    }
}

/// The small jobs from `l` down (those below `eps`) leave the sum, until `l` reaches `u`.
pub open spec fn lower_lower(ns: Seq<int>, sizes: Seq<usize>, eps: int, u: int, l: int, last: int) -> (int, int)
    decreases l - u,
{
    if l <= u {
        (l, last)
    } else if sizes[l] < eps {
        if l - 1 == u {
            (l - 1, last - ns[l])
        } else {
            lower_lower(ns, sizes, eps, u, l - 1, last - ns[l])
        }
    } else {
        (l, last)
    }
}

/// `raise_upper` moves the front forward, by at least one where the front is big.
pub proof fn lemma_raise_upper(ns: Seq<int>, sizes: Seq<usize>, mk: int, eps: int, u: int, l: int, last: int)
    requires
        u <= l,
    ensures
        u <= raise_upper(ns, sizes, mk, eps, u, l, last).0 <= l,
        u < l && sizes[u] > mk - eps ==> raise_upper(ns, sizes, mk, eps, u, l, last).0 > u,
    decreases l - u,
{
    if u < l && sizes[u] > mk - eps && l != u + 1 {
        lemma_raise_upper(ns, sizes, mk, eps, u + 1, l, last - ns[u] + 1);
    }
}

/// `lower_lower` moves the back toward the front, by at least one where the back is small.
pub proof fn lemma_lower_lower(ns: Seq<int>, sizes: Seq<usize>, eps: int, u: int, l: int, last: int)
    requires
        u <= l,
    ensures
        u <= lower_lower(ns, sizes, eps, u, l, last).0 <= l,
        u < l && sizes[l] < eps ==> lower_lower(ns, sizes, eps, u, l, last).0 < l,
    decreases l - u,
{
    if u < l && sizes[l] < eps && l - 1 != u {
        lemma_lower_lower(ns, sizes, eps, u, l - 1, last - ns[l]);
    }
}

/// The sweep of the bound: while `eps` is at most half the makespan and the pointers have
/// not met, `eps` becomes one more than the smaller of the room beside the job at `u` and
/// the job at `l`; the big jobs count one each, the small ones nothing, and the largest
/// sum seen after a step that moved both ends is kept.
pub open spec fn sweep(ns: Seq<int>, sizes: Seq<usize>, mk: int, u: int, l: int, last: int, best: int, eps: int) -> int
    decreases l - u,
{
    if !(eps <= mk / 2) || l <= u {
        best
    } else {
        let room = mk - sizes[u];
        let eps2 = (if room <= sizes[l] { room } else { sizes[l] as int }) + 1;
        let (u2, last2) = raise_upper(ns, sizes, mk, eps2, u, l, last);
        proof {
            lemma_raise_upper(ns, sizes, mk, eps2, u, l, last);
        }
        if l == u2 {
            best
        } else {
            let (l3, last3) = lower_lower(ns, sizes, eps2, u2, l, last2);
            proof {
                lemma_lower_lower(ns, sizes, eps2, u2, l, last2);
            }
            let best2 = if last3 > best { last3 } else { best };
            if l3 == u2 {
                best2
            } else {
                sweep(ns, sizes, mk, u2, l3, last3, best2, eps2)
            }
        }
    }
}

/// The `k`-th test passes: the largest sum of the sweep is at most the number of
/// processors.
pub open spec fn passes(k: int, sizes: Seq<usize>, mk: int, m: int) -> bool {
    let ns = scaled_sizes(k, sizes, mk);
    let total = range_sum(ns, 0, sizes.len() as int);
    sweep(ns, sizes, mk, 0, sizes.len() - 1, total, total, 0) <= m
}

/// The sizes the bound works on: at least one job, in non-increasing order, none above
/// `mk`, each small enough that 101 times it fits a `usize`, and all of them together with
/// their number within a `u64`.
pub open spec fn scalable(sizes: Seq<usize>, mk: int) -> bool {
    &&& sizes.len() >= 1
    &&& mk >= 1
    &&& forall|i: int, j: int| 0 <= i <= j < sizes.len() ==> sizes[i] >= sizes[j]
    &&& sizes[0] <= mk
    &&& forall|j: int| 0 <= j < sizes.len() ==> #[trigger] sizes[j] <= usize::MAX / 101
    &&& prefix_total(sizes, sizes.len() as int) + sizes.len() < u64::MAX
}

/// Over non-negative values, a range sums to at most the whole.
proof fn lemma_range_sum_within(ns: Seq<int>, a: int, b: int, n: int)
    requires
        0 <= a <= b <= n,
        forall|j: int| 0 <= j < n ==> ns[j] >= 0,
    ensures
        range_sum(ns, a, b) <= range_sum(ns, 0, n),
    decreases n - b + a,
{
    if b < n {
        lemma_range_sum_within(ns, a, b + 1, n);
    } else if a > 0 {
        lemma_range_sum_front(ns, a - 1, b);
        lemma_range_sum_within(ns, a - 1, b, n);
    }
}

/// Unwraps a fraction that a wrapper promises.
fn some_frac(f: Option<Frac>) -> (r: Frac)
    requires
        f is Some,
    ensures
        r == f->0,
{
    match f {
        Some(x) => x,
        None => Frac { num: 0, den: 1 },
    }
}

/// The `k`-th test of the bound at makespan `makespan`.
fn lp(k: usize, problem: &ProblemInstance, makespan: usize) -> (r: bool)
    requires
        problem.wf(),
        2 <= k <= 100,
        scalable(problem.job_sizes@, makespan as int),
    ensures
        r == passes(k as int, problem.job_sizes@, makespan as int, problem.num_processors as int),
{
    let ghost sizes = problem.job_sizes@;
    let ghost ns = scaled_sizes(k as int, sizes, makespan as int);
    let job_sizes = &problem.job_sizes;
    let n = job_sizes.len();
    let mk = makespan;
    // these are normalized to the range [0,k]
    let mut normalized: Vec<Frac> = Vec::new();
    let mut j: usize = 0;
    while j < n
        invariant
            sizes == job_sizes@,
            n == job_sizes.len(),
            ns == scaled_sizes(k as int, sizes, mk as int),
            2 <= k <= 100,
            scalable(sizes, mk as int),
            j <= n,
            normalized.len() == j,
            forall|i: int| 0 <= i < j ==> (#[trigger] normalized@[i]).den == 1 && normalized@[i].num == ns[i],
        decreases n - j,
    {
        let x = job_sizes[j];
        assert(x <= usize::MAX / 101);
        assert((k + 1) * x <= usize::MAX) by (nonlinear_arith)
            requires
                k + 1 <= 101,
                x <= usize::MAX / 101,
        ;
        let prod = (k + 1) * x;
        let f = if prod % mk != 0 {
            let r = (prod % mk) / mk;
            proof {
                lemma_basic_div((prod % mk) as int, mk as int);
            }
            let a = some_frac(frac_from(r));
            let b = some_frac(frac_from(k));
            some_frac(frac_div(&a, &b))
        } else {
            some_frac(frac_from(x / mk))
        };
        normalized.push(f);
        j = j + 1;
    }
    proof {
        assert(Seq::new(normalized.len() as nat, |i: int| normalized@[i].num as int) =~= ns);
        lemma_scaled_total(k as int, sizes, mk as int, n as int);
        assert forall|i: int| 0 <= i < n implies ns[i] >= 0 by {
            assert(ns[i] == scaled(k as int, sizes[i] as int, mk as int));
        }
    }
    let total = some_frac(frac_sum(&normalized));
    let ghost target = sweep(ns, sizes, mk as int, 0, n - 1, total.num as int, total.num as int, 0);
    let mut upper: usize = 0;
    let mut lower: usize = n - 1;
    let mut last = Frac { num: total.num, den: total.den };
    let mut best = Frac { num: total.num, den: total.den };
    let mut eps: usize = 0;
    proof {
        assert(range_sum(ns, 0, n as int) == total.num);
    }
    loop
        invariant_except_break
            sweep(ns, sizes, mk as int, upper as int, lower as int, last.num as int, best.num as int, eps as int) == target,
        invariant
            sizes == job_sizes@,
            n == job_sizes.len(),
            ns == scaled_sizes(k as int, sizes, mk as int),
            scalable(sizes, mk as int),
            normalized.len() == n,
            forall|i: int| 0 <= i < n ==> (#[trigger] normalized@[i]).den == 1 && normalized@[i].num == ns[i],
            forall|i: int| 0 <= i < n ==> ns[i] >= 0,
            range_sum(ns, 0, n as int) <= prefix_total(sizes, n as int),
            upper <= lower < n,
            last.den == 1,
            best.den == 1,
            last.num == range_sum(ns, upper as int, lower + 1) + upper,
        ensures
            best.num == target,
        decreases lower - upper,
    {
        if !(eps <= mk / 2) || lower == upper {
            break;
        }
        let room = mk - job_sizes[upper];
        let eps2 = (if room <= job_sizes[lower] { room } else { job_sizes[lower] }) + 1;
        assert(job_sizes@[lower as int] <= job_sizes@[upper as int]);
        assert(eps2 <= mk);
        let ghost u0 = upper;
        let ghost last0 = last.num as int;
        let ghost best0 = best.num as int;
        let ghost l0 = lower;
        loop
            invariant_except_break
                upper < lower,
                raise_upper(ns, sizes, mk as int, eps2 as int, upper as int, lower as int, last.num as int)
                    == raise_upper(ns, sizes, mk as int, eps2 as int, u0 as int, lower as int, last0),
            invariant
                sizes == job_sizes@,
                n == job_sizes.len(),
                normalized.len() == n,
                forall|i: int| 0 <= i < n ==> (#[trigger] normalized@[i]).den == 1 && normalized@[i].num == ns[i],
                forall|i: int| 0 <= i < n ==> ns[i] >= 0,
                range_sum(ns, 0, n as int) <= prefix_total(sizes, n as int),
                scalable(sizes, mk as int),
                eps2 <= mk,
                lower == l0,
                u0 <= upper <= lower < n,
                last.den == 1,
                last.num == range_sum(ns, upper as int, lower + 1) + upper,
            ensures
                (upper as int, last.num as int) == raise_upper(ns, sizes, mk as int, eps2 as int, u0 as int, lower as int, last0),
            decreases lower - upper,
        {
            if !(job_sizes[upper] > mk - eps2) {
                break;
            }
            proof {
                lemma_range_sum_front(ns, upper as int, lower + 1);
                lemma_range_sum_nonneg(ns, upper + 1, lower + 1);
                lemma_range_sum_within(ns, upper as int, lower + 1, n as int);
            }
            let dropped = some_frac(frac_sub(&last, &normalized[upper]));
            last = some_frac(frac_add_one(&dropped));
            upper = upper + 1;
            if lower == upper {
                break;
            }
        }
        proof {
            lemma_raise_upper(ns, sizes, mk as int, eps2 as int, u0 as int, l0 as int, last0);
        }
        eps = eps2;
        if lower == upper {
            break;
        }
        let ghost u2 = upper;
        let ghost last2 = last.num as int;
        loop
            invariant_except_break
                upper < lower,
                lower_lower(ns, sizes, eps as int, upper as int, lower as int, last.num as int)
                    == lower_lower(ns, sizes, eps as int, u2 as int, l0 as int, last2),
            invariant
                sizes == job_sizes@,
                n == job_sizes.len(),
                normalized.len() == n,
                forall|i: int| 0 <= i < n ==> (#[trigger] normalized@[i]).den == 1 && normalized@[i].num == ns[i],
                forall|i: int| 0 <= i < n ==> ns[i] >= 0,
                upper == u2,
                upper <= lower < n,
                lower <= l0,
                last.den == 1,
                last.num == range_sum(ns, upper as int, lower + 1) + upper,
            ensures
                (lower as int, last.num as int) == lower_lower(ns, sizes, eps as int, u2 as int, l0 as int, last2),
            decreases lower - upper,
        {
            if !(job_sizes[lower] < eps) {
                break;
            }
            proof {
                lemma_range_sum_nonneg(ns, upper as int, lower as int);
            }
            last = some_frac(frac_sub(&last, &normalized[lower]));
            lower = lower - 1;
            if lower == upper {
                break;
            }
        }
        proof {
            lemma_lower_lower(ns, sizes, eps as int, u2 as int, l0 as int, last2);
        }
        if frac_gt(&last, &best) {
            best = Frac { num: last.num, den: last.den };
        }
        if lower == upper {
            break;
        }
    }
    let limit = some_frac(frac_from(problem.num_processors));
    frac_le(&best, &limit)
}

/// Every test `k = 2..=100` passes at makespan `mk`.
pub open spec fn fs_feasible(sizes: Seq<usize>, mk: int, m: int) -> bool {
    forall|k: int| 2 <= k <= 100 ==> #[trigger] passes(k, sizes, mk, m)
}

/// Whether every test passes at `makespan`.
fn is_feasable(problem: &ProblemInstance, makespan: usize) -> (r: bool)
    requires
        problem.wf(),
        scalable(problem.job_sizes@, makespan as int),
    ensures
        r == fs_feasible(problem.job_sizes@, makespan as int, problem.num_processors as int),
{
    let mut k: usize = 2;
    while k <= 100
        invariant
            problem.wf(),
            scalable(problem.job_sizes@, makespan as int),
            2 <= k <= 101,
            forall|k2: int| 2 <= k2 < k ==> #[trigger] passes(k2, problem.job_sizes@, makespan as int, problem.num_processors as int),
        decreases 101 - k,
    {
        if !lp(k, problem, makespan) {
            return false;
        }
        k = k + 1;
    }
    true
}

pub struct FeketeSchepers {}

impl Bound for FeketeSchepers {
    open spec fn bound_requires(&self, problem: &ProblemInstance, lower_bound: usize, upper_bound: Option<Solution>) -> bool {
        problem.wf() && scalable(problem.job_sizes@, lower_bound as int)
    }

    /// From the lower bound up, the first makespan at which every test passes; it stops
    /// early at the makespan of the schedule, when the time is up, or at `usize::MAX`. The
    /// schedule is handed back.
    fn bound(
        &self,
        problem: &ProblemInstance,
        lower_bound: usize,
        upper_bound: Option<Solution>,
        timeout: &Timeout,
    ) -> (r: (usize, Option<Solution>))
        ensures
            r.1 == upper_bound,
            lower_bound <= r.0,
            forall|q: int| lower_bound <= q < r.0 ==> !fs_feasible(problem.job_sizes@, q, problem.num_processors as int),
            upper_bound is Some && lower_bound <= upper_bound->0.makespan ==> r.0 <= upper_bound->0.makespan,
    {
        let mut lb = lower_bound;
        loop
            invariant
                problem.wf(),
                lower_bound <= lb,
                scalable(problem.job_sizes@, lb as int),
                forall|q: int| lower_bound <= q < lb ==> !fs_feasible(problem.job_sizes@, q, problem.num_processors as int),
                upper_bound is Some && lower_bound <= upper_bound->0.makespan ==> lb <= upper_bound->0.makespan,
            decreases usize::MAX - lb,
        {
            let at_schedule = match &upper_bound {
                Some(u) => lb == u.makespan,
                None => false,
            };
            if at_schedule || timeout.time_finished() {
                return (lb, upper_bound);
            }
            if is_feasable(problem, lb) {
                return (lb, upper_bound);
            }
            if lb == usize::MAX {
                return (lb, upper_bound);
            }
            lb = lb + 1;
        }
    }
}

/// Under a schedule within `q`, the first `c` jobs, each of size at least `t` with
/// `2 * t > q`, sit on distinct processors, so there are at most as many as processors.
proof fn lemma_few_large(problem: ProblemInstance, s: Solution, q: int, c: int, t: int)
    requires
        problem.wf(),
        s.valid_for(&problem),
        s.makespan <= q,
        0 <= c <= problem.num_jobs,
        2 * t > q,
        forall|j: int| 0 <= j < c ==> problem.job_sizes@[j] >= t,
    ensures
        c <= problem.num_processors,
{
    let m = problem.num_processors as int;
    if c > m {
        let (i, k) = lemma_pigeonhole(s.assignment@, m);
        lemma_two_jobs(problem.job_sizes@, s.assignment@, i, k, s.assignment.len() as int);
        lemma_makespan_bounds_load(s, problem, s.assignment[i] as int);
    }
}

/// Below the makespan a size is scaled to 0, at the makespan to 1.
proof fn lemma_scaled_value(k: int, x: int, q: int)
    requires
        k >= 0,
        q >= 1,
        0 <= x <= q,
    ensures
        scaled(k, x, q) == if x == q { 1int } else { 0int },
{
    if x == q {
        lemma_mod_multiples_basic(k + 1, q);
        assert((k + 1) * q == q * (k + 1)) by (nonlinear_arith);
        lemma_div_by_self(q);
    } else {
        lemma_basic_div(x, q);
    }
}

/// The big jobs leave the front: after `raise_upper`, the jobs passed over are bigger than
/// `q - eps`, the sum is their number and the scaled sizes from the new front on, and the
/// front, if the pointers have not met, is not big.
proof fn lemma_raise_upper_sum(ns: Seq<int>, sizes: Seq<usize>, q: int, eps: int, u: int, l: int, last: int)
    requires
        0 <= u <= l,
        last == u + range_sum(ns, u, l + 1),
    ensures
        ({
            let (u2, last2) = raise_upper(ns, sizes, q, eps, u, l, last);
            &&& u <= u2 <= l
            &&& last2 == u2 + range_sum(ns, u2, l + 1)
            &&& forall|j: int| u <= j < u2 ==> sizes[j] > q - eps
            &&& u2 < l ==> sizes[u2] <= q - eps
        }),
    decreases l - u,
{
    if u < l && sizes[u] > q - eps {
        lemma_range_sum_front(ns, u, l + 1);
        if l != u + 1 {
            lemma_raise_upper_sum(ns, sizes, q, eps, u + 1, l, last - ns[u] + 1);
        }
    }
}

/// The small jobs leave the back: after `lower_lower`, the sum is the front's count and the
/// scaled sizes up to the new back, and the back, if the pointers have not met, is not
/// small.
proof fn lemma_lower_lower_sum(ns: Seq<int>, sizes: Seq<usize>, eps: int, u: int, l: int, last: int)
    requires
        0 <= u <= l,
        last == u + range_sum(ns, u, l + 1),
    ensures
        ({
            let (l3, last3) = lower_lower(ns, sizes, eps, u, l, last);
            &&& u <= l3 <= l
            &&& last3 == u + range_sum(ns, u, l3 + 1)
            &&& l3 > u ==> sizes[l3] >= eps
        }),
    decreases l - u,
{
    if u < l && sizes[l] < eps {
        if l - 1 != u {
            lemma_lower_lower_sum(ns, sizes, eps, u, l - 1, last - ns[l]);
        }
    }
}

/// Scaled sizes of jobs below the makespan add up to 0.
proof fn lemma_range_sum_zero(ns: Seq<int>, a: int, b: int)
    requires
        forall|j: int| a <= j < b ==> ns[j] == 0,
    ensures
        range_sum(ns, a, b) == 0,
    decreases b - a,
{
    if a < b {
        lemma_range_sum_zero(ns, a, b - 1);
    }
}

/// Every sum that the sweep keeps, from a state whose sum is the front's count and the
/// scaled sizes from the front on, stays within the number of processors when a schedule
/// fits within `q`.
proof fn lemma_sweep_within(
    problem: ProblemInstance,
    s: Solution,
    k: int,
    q: int,
    u: int,
    l: int,
    last: int,
    best: int,
    eps: int,
)
    requires
        problem.wf(),
        s.valid_for(&problem),
        s.makespan <= q,
        k >= 0,
        scalable(problem.job_sizes@, q),
        0 <= u <= l < problem.num_jobs,
        0 <= eps,
        last == u + range_sum(scaled_sizes(k, problem.job_sizes@, q), u, l + 1),
        forall|j: int| 0 <= j < u ==> problem.job_sizes@[j] > q - eps,
        problem.job_sizes@[u] <= q - eps,
        problem.job_sizes@[l] >= eps,
        best <= problem.num_processors,
    ensures
        sweep(scaled_sizes(k, problem.job_sizes@, q), problem.job_sizes@, q, u, l, last, best, eps) <= problem.num_processors,
    decreases l - u,
{
    let sizes = problem.job_sizes@;
    let ns = scaled_sizes(k, sizes, q);
    let m = problem.num_processors as int;
    if eps <= q / 2 && u < l {
        let room = q - sizes[u];
        let eps2 = (if room <= sizes[l] { room } else { sizes[l] as int }) + 1;
        lemma_raise_upper_sum(ns, sizes, q, eps2, u, l, last);
        let (u2, last2) = raise_upper(ns, sizes, q, eps2, u, l, last);
        if l != u2 {
            lemma_lower_lower_sum(ns, sizes, eps2, u2, l, last2);
            let (l3, last3) = lower_lower(ns, sizes, eps2, u2, l, last2);
            // the jobs from the front to the back are below the makespan
            assert forall|j: int| u2 <= j < l3 + 1 implies ns[j] == 0 by {
                assert(sizes[j] <= sizes[u2]);
                lemma_scaled_value(k, sizes[j] as int, q);
            }
            lemma_range_sum_zero(ns, u2, l3 + 1);
            // the jobs before the front are too big for two to share a processor
            assert(sizes[l] <= sizes[u2]);
            assert forall|j: int| 0 <= j < u2 implies sizes[j] >= q - eps2 + 1 by {
            }
            lemma_few_large(problem, s, q, u2, q - eps2 + 1);
            let best2 = if last3 > best { last3 } else { best };
            if l3 != u2 {
                lemma_sweep_within(problem, s, k, q, u2, l3, last3, best2, eps2);
            }
        }
    }
}

/// The scaled sizes, 1 for the jobs at the makespan and 0 for the others, add up to the
/// number of leading jobs at the makespan.
proof fn lemma_total_is_leading(k: int, sizes: Seq<usize>, q: int, b: int)
    requires
        k >= 0,
        scalable(sizes, q),
        0 <= b <= sizes.len(),
    ensures
        forall|j: int| 0 <= j < range_sum(scaled_sizes(k, sizes, q), 0, b) ==> sizes[j] == q,
        0 <= range_sum(scaled_sizes(k, sizes, q), 0, b) <= b,
    decreases b,
{
    if b > 0 {
        lemma_total_is_leading(k, sizes, q, b - 1);
        let ns = scaled_sizes(k, sizes, q);
        lemma_scaled_value(k, sizes[b - 1] as int, q);
        if sizes[b - 1] == q {
            assert forall|j: int| 0 <= j < b implies sizes[j] == q by {
                assert(sizes[j] >= sizes[b - 1]);
                assert(sizes[j] <= sizes[0]);
            }
        }
    }
}

/// Every test of the bound passes at a makespan within which some schedule fits: the
/// jobs at the makespan each need a processor of their own, and so do the big jobs of
/// every step of the sweep.
pub proof fn fekete_schepers_passes(problem: ProblemInstance, s: Solution, q: int)
    requires
        problem.wf(),
        s.valid_for(&problem),
        s.makespan <= q,
        scalable(problem.job_sizes@, q),
    ensures
        fs_feasible(problem.job_sizes@, q, problem.num_processors as int),
{
    let sizes = problem.job_sizes@;
    let n = problem.num_jobs as int;
    assert forall|k: int| 2 <= k <= 100 implies #[trigger] passes(k, sizes, q, problem.num_processors as int) by {
        let ns = scaled_sizes(k, sizes, q);
        let total = range_sum(ns, 0, n);
        lemma_total_is_leading(k, sizes, q, n);
        lemma_few_large(problem, s, q, total, q);
        assert(range_sum(ns, 0, n) == range_sum(ns, 0, (n - 1) + 1));
        lemma_sweep_within(problem, s, k, q, 0, n - 1, total, total, 0);
    }
}

/// The bound is a lower bound: no schedule has a makespan from the given lower bound up
/// that is below the makespan the bound reaches.
pub proof fn fekete_schepers_is_lower_bound(problem: ProblemInstance, lower_bound: usize, bound: usize, s: Solution)
    requires
        problem.wf(),
        s.valid_for(&problem),
        lower_bound <= s.makespan,
        scalable(problem.job_sizes@, lower_bound as int),
        forall|q: int| lower_bound <= q < bound ==> !fs_feasible(problem.job_sizes@, q, problem.num_processors as int),
    ensures
        bound <= s.makespan,
{
    if s.makespan < bound {
        fekete_schepers_passes(problem, s, s.makespan as int);
    }
}

} // verus!
