//! Lifting: a lower bound of the instance made of the `k * ceil(l / m)`-ish smallest of the
//! `l` largest jobs on `k` processors is a lower bound of the whole instance. This module
//! builds those smaller instances.
use vstd::prelude::*;
use crate::problem_instance::problem_instance::ProblemInstance;

verus! {

pub struct Lifting {}

/// How many of the `n` largest jobs the lifted instance on `k` of the `m` processors keeps.
pub open spec fn spec_lambda(n: int, m: int, k: int) -> int {
    let q = n / m;
    k * q + if k <= n - q * m { k } else { n - q * m }
}

pub fn lambda(n: usize, m: usize, k: usize) -> (r: usize)
    requires
        m >= 1,
        k <= m,
    ensures
        r == spec_lambda(n as int, m as int, k as int),
        r <= n,
{
    let n_div_m = n / m;
    proof {
        vstd::arithmetic::div_mod::lemma_fundamental_div_mod(n as int, m as int);
        let q = n_div_m as int;
        assert(k * q <= m * q) by (nonlinear_arith)
            requires
                k <= m,
                q >= 0,
        ;
        assert(n_div_m * m == m * n_div_m) by (nonlinear_arith);
    }
    let rest = n - n_div_m * m;
    let small = if k <= rest { k } else { rest };
    k * n_div_m + small
}

/// The counts `l` in `1..=n` that the lifted instances on `k` processors use: those with
/// `l - k` (modulo the word size) a multiple of `m`.
pub open spec fn required(n: nat, m: usize, k: usize) -> Seq<usize> {
    Seq::new(n, |i: int| (i + 1) as usize).filter(|l: usize| l.wrapping_sub(k) % m == 0)
}

pub fn get_required_l_s(n: usize, m: usize, k: usize) -> (r: Vec<usize>)
    requires
        m >= 1,
        n < usize::MAX,
    ensures
        r@ == required(n as nat, m, k),
        forall|i: int| 0 <= i < r.len() ==> 1 <= #[trigger] r[i] <= n,
{
    let ghost pred = |l: usize| l.wrapping_sub(k) % m == 0;
    let mut r: Vec<usize> = Vec::new();
    let mut l: usize = 1;
    while l <= n
        invariant
            1 <= l,
            l <= n + 1,
            n < usize::MAX,
            m >= 1,
            pred == (|l: usize| l.wrapping_sub(k) % m == 0),
            r@ == Seq::new((l - 1) as nat, |i: int| (i + 1) as usize).filter(pred),
            forall|i: int| 0 <= i < r.len() ==> 1 <= #[trigger] r[i] < l,
        decreases n + 1 - l,
    {
        proof {
            reveal(Seq::filter);
            let s = Seq::new(l as nat, |i: int| (i + 1) as usize);
            assert(s.drop_last() =~= Seq::new((l - 1) as nat, |i: int| (i + 1) as usize));
            assert(s.last() == l);
            assert(s.filter(pred) == if pred(s.last()) { s.drop_last().filter(pred).push(s.last()) } else { s.drop_last().filter(pred) });
        }
        if l.wrapping_sub(k) % m == 0 {
            r.push(l);
        }
        l = l + 1;
    }
    r
}

/// Copies `v[lo..hi]`.
pub fn copy_range(v: &Vec<usize>, lo: usize, hi: usize) -> (r: Vec<usize>)
    requires
        lo <= hi <= v.len(),
    ensures
        r@ == v@.subrange(lo as int, hi as int),
{
    let mut r: Vec<usize> = Vec::new();
    let mut i: usize = lo;
    while i < hi
        invariant
            lo <= i <= hi,
            hi <= v.len(),
            r@ == v@.subrange(lo as int, i as int),
        decreases hi - i,
    {
        r.push(v[i]);
        i = i + 1;
        proof {
            assert(r@ =~= v@.subrange(lo as int, i as int));
        }
    }
    r
}

/// The pairs `(k, l)` of the lifted instances on `1..=k_upto` processors, in order.
pub open spec fn lifting_params(n: nat, m: usize, k_upto: int) -> Seq<(usize, usize)>
    decreases k_upto,
{
    if k_upto <= 0 {
        Seq::empty()
    } else {
        lifting_params(n, m, k_upto - 1) + required(n, m, k_upto as usize).map_values(|l: usize| (k_upto as usize, l))
    }
}

/// The lifted instance for `(k, l)`: `k` processors and the `lambda(l, m, k)` smallest of
/// the `l` first jobs.
pub open spec fn is_lifted(inst: ProblemInstance, sizes: Seq<usize>, m: usize, kl: (usize, usize)) -> bool {
    let (k, l) = kl;
    let num = spec_lambda(l as int, m as int, k as int);
    &&& inst.num_processors == k
    &&& inst.num_jobs == num
    &&& inst.job_sizes@ == sizes.subrange(l - num, l as int)
}

/// The lifted instances, up to `cap` of them (`None`: all).
pub open spec fn lifted_up_to(out: Seq<ProblemInstance>, sizes: Seq<usize>, m: usize, params: Seq<(usize, usize)>) -> bool {
    &&& out.len() <= params.len()
    &&& forall|i: int| 0 <= i < out.len() ==> is_lifted(#[trigger] out[i], sizes, m, params[i])
}

/// The lifted instances on `1..=m` processors, stopping once more than `cap` are made.
pub fn lifted_instances(instance: &ProblemInstance, cap: usize) -> (r: Vec<ProblemInstance>)
    requires
        instance.wf(),
        instance.num_processors >= 1,
        instance.num_processors < usize::MAX,
        instance.num_jobs < usize::MAX,
        cap < usize::MAX,
    ensures
        ({
            let params = lifting_params(instance.num_jobs as nat, instance.num_processors, instance.num_processors as int);
            &&& lifted_up_to(r@, instance.job_sizes@, instance.num_processors, params)
            &&& r.len() == if params.len() <= cap { params.len() as int } else { cap + 1 }
        }),
{
    let n = instance.num_jobs;
    let m = instance.num_processors;
    let ghost sizes = instance.job_sizes@;
    let mut instances_to_bound: Vec<ProblemInstance> = Vec::new();
    let mut k: usize = 1;
    while k <= m
        invariant
            n == instance.num_jobs,
            m == instance.num_processors,
            sizes == instance.job_sizes@,
            sizes.len() == n,
            1 <= m < usize::MAX,
            n < usize::MAX,
            cap < usize::MAX,
            1 <= k <= m + 1,
            instances_to_bound.len() <= cap,
            instances_to_bound.len() == lifting_params(n as nat, m, k - 1).len(),
            lifted_up_to(instances_to_bound@, sizes, m, lifting_params(n as nat, m, k - 1)),
        decreases m + 1 - k,
    {
        let required_l = get_required_l_s(n, m, k);
        let ghost before = lifting_params(n as nat, m, k - 1);
        let ghost pairs = required(n as nat, m, k).map_values(|l: usize| (k, l));
        proof {
            assert(lifting_params(n as nat, m, k as int) =~= before + pairs);
        }
        let mut t: usize = 0;
        while t < required_l.len()
            invariant
                n == instance.num_jobs,
                m == instance.num_processors,
                sizes == instance.job_sizes@,
                sizes.len() == n,
                1 <= k <= m,
                cap < usize::MAX,
                required_l@ == required(n as nat, m, k),
                forall|i: int| 0 <= i < required_l.len() ==> 1 <= #[trigger] required_l[i] <= n,
                pairs == required(n as nat, m, k).map_values(|l: usize| (k, l)),
                lifting_params(n as nat, m, k as int) == before + pairs,
                t <= required_l.len(),
                instances_to_bound.len() <= cap,
                instances_to_bound.len() == before.len() + t,
                lifted_up_to(instances_to_bound@, sizes, m, before + pairs),
            decreases required_l.len() - t,
        {
            let l = required_l[t];
            let num_required_jobs = lambda(l, m, k);
            let reduced_jobs = copy_range(&instance.job_sizes, l - num_required_jobs, l);
            let inst = ProblemInstance::new(k, num_required_jobs, reduced_jobs);
            proof {
                assert((before + pairs)[before.len() + t] == (k, l));
                assert(pairs.len() == required_l.len());
            }
            instances_to_bound.push(inst);
            if instances_to_bound.len() > cap {
                proof {
                    assert(lifted_up_to(instances_to_bound@, sizes, m, before + pairs));
                    lemma_params_prefix(n as nat, m, k as int, m as int);
                    assert(lifting_params(n as nat, m, k as int) =~= before + pairs);
                    assert(instances_to_bound.len() <= lifting_params(n as nat, m, k as int).len());
                    assert forall|i: int| 0 <= i < instances_to_bound.len() implies is_lifted(#[trigger] instances_to_bound@[i], sizes, m, lifting_params(n as nat, m, m as int)[i]) by {
                        assert((before + pairs)[i] == lifting_params(n as nat, m, m as int)[i]);
                    }
                }
                return instances_to_bound;
            }
            t = t + 1;
        }
        k = k + 1;
    }
    instances_to_bound
}

/// Parameters for fewer processors are a prefix of those for more.
proof fn lemma_params_prefix(n: nat, m: usize, k1: int, k2: int)
    requires
        0 <= k1 <= k2,
    ensures
        lifting_params(n, m, k1).len() <= lifting_params(n, m, k2).len(),
        forall|i: int| 0 <= i < lifting_params(n, m, k1).len() ==> lifting_params(n, m, k1)[i] == #[trigger] lifting_params(n, m, k2)[i],
    decreases k2 - k1,
{
    if k1 < k2 {
        lemma_params_prefix(n, m, k1, k2 - 1);
    }
}

/// All the lifted instances on `1..=m` processors.
pub fn get_instances(instance: &ProblemInstance) -> (r: Vec<ProblemInstance>)
    requires
        instance.wf(),
        instance.num_processors >= 1,
        instance.num_processors < usize::MAX,
        instance.num_jobs < usize::MAX,
    ensures
        ({
            let params = lifting_params(instance.num_jobs as nat, instance.num_processors, instance.num_processors as int);
            &&& lifted_up_to(r@, instance.job_sizes@, instance.num_processors, params)
            &&& params.len() < usize::MAX - 1 ==> r.len() == params.len()
        }),
{
    lifted_instances(instance, usize::MAX - 2)
}

} // verus!
