//! Random thinning of a partial schedule before it is encoded: jobs are drawn at random and
//! lose one of their later processors, as long as that leaves enough room.
use vstd::prelude::*;
use rand::rngs::StdRng;
use crate::bounds::upper_bounds::mss::rng_range;
use crate::common::common::prefix_total;
use crate::problem_instance::partial_solution::PartialSolution;
use crate::problem_instance::partial_solution::copy_usizes;
use crate::problem_instance::problem_instance::ProblemInstance;

verus! {

/// The sizes of the first `k` jobs that may go on processor `p`.
pub open spec fn allowed_total(pa: Seq<Vec<usize>>, sizes: Seq<usize>, p: int, k: int) -> int
    decreases k,
{
    if k <= 0 {
        0
    } else {
        allowed_total(pa, sizes, p, k - 1) + if pa[k - 1]@.contains(p as usize) {
            sizes[k - 1] as int
        } else {
            0
        }
    }
}

/// The lengths of the first `k` lists added up.
pub open spec fn total_len(pa: Seq<Vec<usize>>, k: int) -> int
    decreases k,
{
    if k <= 0 {
        0
    } else {
        total_len(pa, k - 1) + pa[k - 1]@.len()
    }
}

/// The lists that thinning can work on: processors below `m`, none twice, at most `m`.
pub open spec fn thinnable(ps: &PartialSolution) -> bool {
    let pa = ps.possible_allocations@;
    let m = ps.instance.num_processors as int;
    &&& ps.wf()
    &&& ps.instance.num_jobs >= 1
    &&& prefix_total(ps.instance.job_sizes@, ps.instance.num_jobs as int) <= usize::MAX
    &&& forall|j: int| 0 <= j < pa.len() ==> (#[trigger] pa[j])@.no_duplicates() && pa[j]@.len() <= m
    &&& forall|j: int, t: int| 0 <= j < pa.len() && 0 <= t < pa[j]@.len() ==> (#[trigger] pa[j]@[t]) < m
}

proof fn lemma_allowed_total_bound(pa: Seq<Vec<usize>>, sizes: Seq<usize>, p: int, k: int)
    ensures
        0 <= allowed_total(pa, sizes, p, k) <= prefix_total(sizes, k),
    decreases k,
{
    if k > 0 {
        lemma_allowed_total_bound(pa, sizes, p, k - 1);
    }
}

/// Changing one list changes each processor's total by that job's size where the change
/// adds or drops the processor.
proof fn lemma_allowed_total_update(pa: Seq<Vec<usize>>, sizes: Seq<usize>, p: int, k: int, job: int, row: Vec<usize>)
    requires
        0 <= job < pa.len(),
        k <= pa.len(),
    ensures
        allowed_total(pa.update(job, row), sizes, p, k) == allowed_total(pa, sizes, p, k) + if 0 <= job < k {
            (if row@.contains(p as usize) { sizes[job] as int } else { 0 }) - (if pa[job]@.contains(p as usize) {
                sizes[job] as int
            } else {
                0
            })
        } else {
            0
        },
    decreases k,
{
    if k > 0 {
        lemma_allowed_total_update(pa, sizes, p, k - 1, job, row);
    }
}

proof fn lemma_total_len_update(pa: Seq<Vec<usize>>, k: int, job: int, row: Vec<usize>)
    requires
        0 <= job < pa.len(),
        k <= pa.len(),
    ensures
        total_len(pa.update(job, row), k) == total_len(pa, k) + if 0 <= job < k {
            row@.len() - pa[job]@.len()
        } else {
            0
        },
    decreases k,
{
    if k > 0 {
        lemma_total_len_update(pa, k - 1, job, row);
    }
}

/// The totals read only the lists' contents.
proof fn lemma_allowed_total_views(a: Seq<Vec<usize>>, b: Seq<Vec<usize>>, sizes: Seq<usize>, p: int, k: int)
    requires
        k <= a.len(),
        k <= b.len(),
        forall|j: int| 0 <= j < k ==> (#[trigger] a[j])@ == b[j]@,
    ensures
        allowed_total(a, sizes, p, k) == allowed_total(b, sizes, p, k),
    decreases k,
{
    if k > 0 {
        lemma_allowed_total_views(a, b, sizes, p, k - 1);
    }
}

proof fn lemma_total_len_nonneg(pa: Seq<Vec<usize>>, k: int)
    ensures
        total_len(pa, k) >= 0,
    decreases k,
{
    if k > 0 {
        lemma_total_len_nonneg(pa, k - 1);
    }
}

/// Removing an element keeps the others distinct and drops it.
proof fn lemma_remove_distinct(s: Seq<usize>, i: int)
    requires
        s.no_duplicates(),
        0 <= i < s.len(),
    ensures
        s.remove(i).no_duplicates(),
        !s.remove(i).contains(s[i]),
        forall|x: usize| #[trigger] s.remove(i).contains(x) ==> s.contains(x),
{
    let r = s.remove(i);
    assert forall|a: int, b: int| 0 <= a < r.len() && 0 <= b < r.len() && a != b implies r[a] != r[b] by {
        let a2 = if a < i { a } else { a + 1 };
        let b2 = if b < i { b } else { b + 1 };
        assert(r[a] == s[a2]);
        assert(r[b] == s[b2]);
    }
    if r.contains(s[i]) {
        let a = choose|a: int| 0 <= a < r.len() && r[a] == s[i];
        let a2 = if a < i { a } else { a + 1 };
        assert(r[a] == s[a2]);
    }
    assert forall|x: usize| #[trigger] r.contains(x) implies s.contains(x) by {
        let a = choose|a: int| 0 <= a < r.len() && r[a] == x;
        let a2 = if a < i { a } else { a + 1 };
        assert(r[a] == s[a2]);
    }
}

/// A copy of `ps` in which random jobs lose one of their processors after the first: a
/// job is drawn; it is passed over when it has one processor left, or when the total
/// size of the jobs that may go on the processor numbered by the drawn position, less
/// the job's size, is at most `threshold` (or below the job's size); else the processor
/// at the drawn position is taken from it. It stops after the fourth job passed over.
pub fn thin_allocations(ps: &PartialSolution, threshold: usize, rng: &mut StdRng) -> (part: PartialSolution)
    requires
        thinnable(ps),
    ensures
        part.instance.num_processors == ps.instance.num_processors,
        part.instance.num_jobs == ps.instance.num_jobs,
        part.instance.job_sizes@ == ps.instance.job_sizes@,
        part.assigned_makespan@ == ps.assigned_makespan@,
        part.possible_allocations.len() == ps.possible_allocations.len(),
        forall|j: int| 0 <= j < ps.possible_allocations.len() ==> {
            let before = (#[trigger] ps.possible_allocations@[j])@;
            let after = part.possible_allocations@[j]@;
            &&& after.len() <= before.len()
            &&& before.len() >= 1 ==> after.len() >= 1 && after[0] == before[0]
            &&& forall|x: usize| after.contains(x) ==> before.contains(x)
        },
{
    let n = ps.instance.num_jobs;
    let m = ps.instance.num_processors;
    let ghost sizes = ps.instance.job_sizes@;
    let ghost orig = ps.possible_allocations@;
    let mut pa: Vec<Vec<usize>> = Vec::new();
    let mut j: usize = 0;
    while j < n
        invariant
            ps.wf(),
            n == ps.instance.num_jobs,
            orig == ps.possible_allocations@,
            j <= n,
            pa.len() == j,
            forall|j2: int| 0 <= j2 < j ==> (#[trigger] pa@[j2])@ == orig[j2]@,
        decreases n - j,
    {
        pa.push(copy_usizes(&ps.possible_allocations[j]));
        j = j + 1;
    }
    let mut max_size: Vec<usize> = Vec::new();
    let mut p: usize = 0;
    while p < m
        invariant
            p <= m,
            max_size@ == Seq::new(p as nat, |q: int| 0usize),
        decreases m - p,
    {
        max_size.push(0);
        p = p + 1;
        assert(max_size@ =~= Seq::new(p as nat, |q: int| 0usize));
    }
    let mut job: usize = 0;
    while job < n
        invariant
            thinnable(ps),
            n == ps.instance.num_jobs,
            m == ps.instance.num_processors,
            sizes == ps.instance.job_sizes@,
            orig == ps.possible_allocations@,
            pa.len() == n,
            forall|j2: int| 0 <= j2 < n ==> (#[trigger] pa@[j2])@ == orig[j2]@,
            job <= n,
            max_size.len() == m,
            forall|q: int| 0 <= q < m ==> #[trigger] max_size@[q] == allowed_total(orig, sizes, q, job as int),
        decreases n - job,
    {
        let ghost before = max_size@;
        let mut t: usize = 0;
        while t < pa[job].len()
            invariant
                thinnable(ps),
                n == ps.instance.num_jobs,
                m == ps.instance.num_processors,
                sizes == ps.instance.job_sizes@,
                orig == ps.possible_allocations@,
                pa.len() == n,
                forall|j2: int| 0 <= j2 < n ==> (#[trigger] pa@[j2])@ == orig[j2]@,
                job < n,
                t <= orig[job as int]@.len(),
                max_size.len() == m,
                forall|q: int| 0 <= q < m ==> #[trigger] max_size@[q] == allowed_total(orig, sizes, q, job as int)
                    + if orig[job as int]@.subrange(0, t as int).contains(q as usize) { sizes[job as int] as int } else { 0 },
            decreases orig[job as int]@.len() - t,
        {
            let q = pa[job][t];
            let ghost row = orig[job as int]@;
            proof {
                assert(!row.subrange(0, t as int).contains(q)) by {
                    if row.subrange(0, t as int).contains(q) {
                        let a = choose|a: int| 0 <= a < t && row.subrange(0, t as int)[a] == q;
                        assert(row[a] == row[t as int]);
                    }
                }
                lemma_allowed_total_bound(orig, sizes, q as int, job + 1);
                crate::common::common::lemma_prefix_total_monotone(sizes, job + 1, n as int);
                assert(row.contains(q));
            }
            max_size.set(q, max_size[q] + ps.instance.job_sizes[job]);
            proof {
                assert(row.subrange(0, t + 1) =~= row.subrange(0, t as int).push(q));
                assert forall|q2: int| 0 <= q2 < m implies #[trigger] max_size@[q2] == allowed_total(orig, sizes, q2, job as int)
                    + if row.subrange(0, t + 1).contains(q2 as usize) { sizes[job as int] as int } else { 0 } by {
                    lemma_push_contains(row.subrange(0, t as int), q, q2 as usize);
                }
            }
            t = t + 1;
        }
        proof {
            assert(orig[job as int]@.subrange(0, t as int) =~= orig[job as int]@);
        }
        job = job + 1;
    }
    proof {
        assert forall|q: int| 0 <= q < m implies #[trigger] max_size@[q] == allowed_total(pa@, sizes, q, n as int) by {
            lemma_allowed_total_views(pa@, orig, sizes, q, n as int);
        }
    }
    let mut num_failures: usize = 0;
    loop
        invariant
            thinnable(ps),
            n == ps.instance.num_jobs,
            m == ps.instance.num_processors,
            sizes == ps.instance.job_sizes@,
            orig == ps.possible_allocations@,
            pa.len() == n,
            forall|j2: int| 0 <= j2 < n ==> (#[trigger] pa@[j2])@.no_duplicates() && pa@[j2]@.len() <= m
                && pa@[j2]@.len() <= orig[j2]@.len()
                && (orig[j2]@.len() >= 1 ==> pa@[j2]@.len() >= 1 && pa@[j2]@[0] == orig[j2]@[0])
                && (forall|x: usize| pa@[j2]@.contains(x) ==> orig[j2]@.contains(x)),
            max_size.len() == m,
            forall|q: int| 0 <= q < m ==> #[trigger] max_size@[q] == allowed_total(pa@, sizes, q, n as int),
            num_failures <= 4,
        decreases total_len(pa@, n as int) * 5 + (4 - num_failures),
    {
        proof {
            lemma_total_len_nonneg(pa@, n as int);
        }
        if num_failures > 3 {
            break;
        }
        let job = rng_range(rng, 0, n);
        let len = pa[job].len();
        if len <= 1 {
            num_failures = num_failures + 1;
            continue;
        }
        let k = rng_range(rng, 1, len);
        let size = ps.instance.job_sizes[job];
        if max_size[k] < size || max_size[k] - size <= threshold {
            num_failures = num_failures + 1;
            continue;
        }
        let ghost old_pa = pa@;
        let ghost old_row = pa@[job as int];
        let proc_num = pa[job][k];
        proof {
            lemma_remove_distinct(old_row@, k as int);
            assert(old_row@.contains(proc_num));
            assert(orig[job as int]@.contains(proc_num));
        }
        let mut row = copy_usizes(&pa[job]);
        row.remove(k);
        let ghost new_row = row;
        pa.set(job, row);
        proof {
            assert(pa@ == old_pa.update(job as int, new_row));
            assert forall|q: int| 0 <= q < m implies #[trigger] allowed_total(pa@, sizes, q, n as int)
                == allowed_total(old_pa, sizes, q, n as int) - if q == proc_num { sizes[job as int] as int } else { 0 } by {
                lemma_allowed_total_update(old_pa, sizes, q, n as int, job as int, new_row);
                if q != proc_num as int {
                    assert(new_row@.contains(q as usize) == old_row@.contains(q as usize)) by {
                        if old_row@.contains(q as usize) {
                            let a = choose|a: int| 0 <= a < old_row@.len() && old_row@[a] == q as usize;
                            assert(a != k);
                            let a2 = if a < k { a } else { a - 1 };
                            assert(new_row@[a2] == q as usize);
                        }
                    }
                }
            }
            lemma_total_len_update(old_pa, n as int, job as int, new_row);
            assert(new_row@.len() == old_row@.len() - 1);
            assert(total_len(pa@, n as int) == total_len(old_pa, n as int) - 1);
            lemma_total_len_nonneg(pa@, n as int);
            assert(max_size@[proc_num as int] >= size) by {
                lemma_allowed_total_contains(old_pa, sizes, proc_num as int, n as int, job as int);
            }
            assert(new_row@[0] == old_row@[0]);
            assert forall|x: usize| new_row@.contains(x) implies orig[job as int]@.contains(x) by {
                assert(old_row@.contains(x));
            }
        }
        max_size.set(proc_num, max_size[proc_num] - size);
    }
    let instance = ProblemInstance {
        num_processors: m,
        num_jobs: n,
        job_sizes: copy_usizes(&ps.instance.job_sizes),
    };
    PartialSolution { instance, possible_allocations: pa, assigned_makespan: copy_usizes(&ps.assigned_makespan) }
}

/// An element is in a sequence with one more element at its end exactly when it is that
/// element or was there before.
proof fn lemma_push_contains(s: Seq<usize>, v: usize, x: usize)
    ensures
        s.push(v).contains(x) <==> (s.contains(x) || x == v),
{
    if s.push(v).contains(x) {
        let a = choose|a: int| 0 <= a < s.push(v).len() && #[trigger] s.push(v)[a] == x;
        if a < s.len() {
            assert(s[a] == x);
        }
    }
    if s.contains(x) {
        let a = choose|a: int| 0 <= a < s.len() && #[trigger] s[a] == x;
        assert(s.push(v)[a] == x);
    }
    if x == v {
        assert(s.push(v)[s.len() as int] == v);
    }
}

/// A processor's total counts the size of every job that may go on it.
proof fn lemma_allowed_total_contains(pa: Seq<Vec<usize>>, sizes: Seq<usize>, p: int, k: int, job: int)
    requires
        0 <= job < k,
        pa[job]@.contains(p as usize),
    ensures
        allowed_total(pa, sizes, p, k) >= sizes[job],
    decreases k,
{
    if k - 1 > job {
        lemma_allowed_total_contains(pa, sizes, p, k - 1, job);
    } else {
        lemma_allowed_total_bound(pa, sizes, p, k - 1);
    }
}

} // verus!
