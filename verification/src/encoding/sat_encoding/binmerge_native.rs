//! Binary merging: on each processor the open jobs are counted bit level by bit level in
//! sorting networks, the counts are merged level by level into the binary digits of the
//! load, and the load is bounded by the room left on the processor.
use vstd::prelude::*;
use crate::common::timeout::Timeout;
use crate::encoding::encoder::Clause;
use crate::encoding::encoder::Clauses;
use crate::encoding::encoder::Encoder;
use crate::encoding::encoder::OneHotEncoder;
use crate::encoding::encoder::VarNameGenerator;
use crate::encoding::encoder::all_valid;
use crate::encoding::encoder::all_sat;
use crate::encoding::encoder::starts_with;
use crate::encoding::encoder::lemma_starts_with_sat;
use crate::encoding::encoder::lemma_all_sat_append;
use crate::encoding::encoder::valid_var;
use crate::encoding::pb_bdd_native::open_on;
use crate::encoding::problem_encoding::one_hot_encoding::OneHot;
use crate::encoding::problem_encoding::one_hot_encoding::OneHotProblemEncoding;
use crate::encoding::problem_encoding::one_hot_encoding::allowed;
use crate::encoding::problem_encoding::one_hot_encoding::decoded;
use crate::encoding::problem_encoding::one_hot_encoding::lemma_position_var_range;
use crate::encoding::problem_encoding::one_hot_encoding::lemma_rows_count_bound;
use crate::encoding::problem_encoding::one_hot_encoding::one_hot_clauses;
use crate::encoding::problem_encoding::one_hot_encoding::position_var;
use crate::encoding::problem_encoding::one_hot_encoding::true_vars;
use crate::encoding::sat_encoding::binary_arithmetic::BinaryNumber;
use crate::encoding::sat_encoding::binary_arithmetic::at_most_k_encoding;
use crate::encoding::sat_encoding::binary_arithmetic::lit_neg;
use crate::encoding::sat_encoding::binary_arithmetic::number_bitlength;
use crate::encoding::sat_encoding::binary_arithmetic::spec_bitlength;
use crate::encoding::sat_encoding::binary_arithmetic::value;
use crate::encoding::sat_encoding::binary_arithmetic::lemma_at_most_k;
use crate::encoding::sat_encoding::cardinality_networks::basic_merge;
use crate::encoding::sat_encoding::cardinality_networks::basic_sort;
use crate::encoding::sat_encoding::cardinality_networks::basic_sort_fits;
use crate::encoding::sat_encoding::cardinality_networks::half_merge;
use crate::encoding::sat_encoding::cardinality_networks::lemma_basic_merge_size;
use crate::encoding::sat_encoding::cardinality_networks::lemma_basic_sort_size;
use crate::encoding::sat_encoding::cardinality_networks::half_sort;
use crate::encoding::sat_encoding::cardinality_networks::spec_basic_sort;
use crate::encoding::sat_encoding::cardinality_networks::spec_half_sort;
use crate::encoding::sat_encoding::cardinality_networks::parity_clauses;
use crate::encoding::sat_encoding::cardinality_networks::spec_exact_parity;
use crate::encoding::sat_encoding::cardinality_networks::lemma_half_merge;
use crate::encoding::sat_encoding::cardinality_networks::lemma_half_merge_size;
use crate::encoding::sat_encoding::cardinality_networks::lemma_half_sort;
use crate::encoding::sat_encoding::cardinality_networks::lemma_half_sort_size;
use crate::encoding::sat_encoding::cardinality_networks::odds;
use crate::encoding::sat_encoding::cardinality_networks::sorted_exact_parity;
use crate::encoding::sat_encoding::cardinality_networks::sorted_parity;
use crate::encoding::sat_encoding::cardinality_networks::split_parity;
use crate::problem_instance::partial_solution::PartialSolution;
use crate::problem_instance::problem_instance::ProblemInstance;
use crate::problem_instance::solution::Solution;

verus! {

/// Job `j` counts at bit level `d` on processor `p`: it is open there and its size has
/// bit `d` set.
pub open spec fn on_level(ps: &PartialSolution, j: int, p: int, d: usize) -> bool {
    open_on(ps, j, p) && ((ps.instance.job_sizes@[j] >> d) & 1usize) == 1usize
}

/// The jobs among `0..k` that count at bit level `d` on processor `p`, in order.
pub open spec fn level_jobs(ps: &PartialSolution, p: int, d: usize, k: int) -> Seq<usize>
    decreases k,
{
    if k <= 0 {
        Seq::empty()
    } else if on_level(ps, k - 1, p, d) {
        level_jobs(ps, p, d, k - 1).push((k - 1) as usize)
    } else {
        level_jobs(ps, p, d, k - 1)
    }
}

/// The largest size of a job among `0..k` that is open on processor `p`.
pub open spec fn max_open_size(ps: &PartialSolution, p: int, k: int) -> Option<usize>
    decreases k,
{
    if k <= 0 {
        None
    } else {
        let rest = max_open_size(ps, p, k - 1);
        if open_on(ps, k - 1, p) {
            let s = ps.instance.job_sizes@[k - 1];
            match rest {
                None => Some(s),
                Some(w) => Some(if s > w { s } else { w }),
            }
        } else {
            rest
        }
    }
}

/// How many of the jobs `js`, taken from the last one back, fit one after the other within
/// `room` on top of `used`.
pub open spec fn fit_from_back(sizes: Seq<usize>, js: Seq<usize>, room: int, used: int) -> nat
    decreases js.len(),
{
    if js.len() == 0 {
        0
    } else {
        let s = sizes[js.last() as int];
        if used + s <= room {
            1 + fit_from_back(sizes, js.drop_last(), room, used + s)
        } else {
            0
        }
    }
}

/// The inputs that the merging encodings take: every job has its processors listed, sizes
/// and makespan fit in half a `usize`, no processor is loaded beyond the makespan, and the
/// one-hot variables fit in a literal.
pub open spec fn merge_inputs(ps: &PartialSolution, makespan: usize) -> bool {
    let n = ps.instance.num_jobs as int;
    let m = ps.instance.num_processors as int;
    &&& ps.instance.wf()
    &&& ps.possible_allocations.len() >= n
    &&& ps.assigned_makespan.len() >= m
    &&& makespan <= usize::MAX / 2
    &&& forall|j: int| 0 <= j < n ==> #[trigger] ps.instance.job_sizes@[j] <= usize::MAX / 2
    &&& forall|p: int| 0 <= p < m ==> #[trigger] ps.assigned_makespan@[p] <= makespan
    &&& 1 + n * m <= i32::MAX
}

/// The one-hot variables `pv` are those of the allowed pairs of `ps`.
pub open spec fn positions_of(pv: Seq<Vec<Option<usize>>>, ps: &PartialSolution) -> bool {
    let pa = ps.possible_allocations@;
    let n = ps.instance.num_jobs as int;
    let m = ps.instance.num_processors as int;
    &&& pv.len() == n
    &&& forall|i: int, j: int| 0 <= i < n && 0 <= j < m ==> (#[trigger] pv[i]@[j]) == position_var(pa, m, i, j)
    &&& forall|i: int| 0 <= i < n ==> (#[trigger] pv[i]).len() == m
}

/// The largest size of a job open on `proc`, if any.
pub(crate) fn max_open_weight(ps: &PartialSolution, proc: usize) -> (r: Option<usize>)
    requires
        ps.instance.wf(),
        ps.possible_allocations.len() >= ps.instance.num_jobs,
    ensures
        r == max_open_size(ps, proc as int, ps.instance.num_jobs as int),
{
    let n = ps.instance.num_jobs;
    let mut best: Option<usize> = None;
    let mut j: usize = 0;
    while j < n
        invariant
            n == ps.instance.num_jobs,
            ps.instance.wf(),
            ps.possible_allocations.len() >= n,
            j <= n,
            best == max_open_size(ps, proc as int, j as int),
        decreases n - j,
    {
        let open = ps.possible_allocations[j].len() > 1 && contains_proc(&ps.possible_allocations[j], proc);
        if open {
            let s = ps.instance.job_sizes[j];
            best = match best {
                None => Some(s),
                Some(w) => Some(if s > w { s } else { w }),
            };
        }
        j = j + 1;
    }
    best
}

fn contains_proc(v: &Vec<usize>, x: usize) -> (r: bool)
    ensures
        r == v@.contains(x),
{
    crate::encoding::problem_encoding::one_hot_encoding::contains_usize(v, x)
}

/// The jobs that count at bit level `d` on `proc`, in order.
pub(crate) fn jobs_on_level(ps: &PartialSolution, proc: usize, d: usize) -> (r: Vec<usize>)
    requires
        ps.instance.wf(),
        ps.possible_allocations.len() >= ps.instance.num_jobs,
        d < usize::BITS,
    ensures
        r@ == level_jobs(ps, proc as int, d, ps.instance.num_jobs as int),
        r.len() <= ps.instance.num_jobs,
{
    let n = ps.instance.num_jobs;
    let mut r: Vec<usize> = Vec::new();
    let mut j: usize = 0;
    while j < n
        invariant
            n == ps.instance.num_jobs,
            ps.instance.wf(),
            ps.possible_allocations.len() >= n,
            d < usize::BITS,
            j <= n,
            r.len() <= j,
            r@ == level_jobs(ps, proc as int, d, j as int),
        decreases n - j,
    {
        let s = ps.instance.job_sizes[j];
        let open = ps.possible_allocations[j].len() > 1 && contains_proc(&ps.possible_allocations[j], proc);
        if open && (s >> d) & 1 == 1 {
            r.push(j);
        }
        j = j + 1;
    }
    r
}

/// How many of the jobs `js`, from the last back, fit one after the other within `room`.
pub(crate) fn count_fitting(sizes: &Vec<usize>, js: &Vec<usize>, room: usize) -> (r: usize)
    requires
        room <= usize::MAX / 2,
        forall|k: int| 0 <= k < js.len() ==> (#[trigger] js@[k]) < sizes.len(),
        forall|j: int| 0 <= j < sizes.len() ==> #[trigger] sizes@[j] <= usize::MAX / 2,
    ensures
        r == fit_from_back(sizes@, js@, room as int, 0),
        r <= js.len(),
{
    let mut count: usize = 0;
    let mut total: usize = 0;
    let mut i: usize = js.len();
    let mut stopped = false;
    assert(js@.take(i as int) =~= js@);
    while i > 0 && !stopped
        invariant
            room <= usize::MAX / 2,
            forall|k: int| 0 <= k < js.len() ==> (#[trigger] js@[k]) < sizes.len(),
            forall|j: int| 0 <= j < sizes.len() ==> #[trigger] sizes@[j] <= usize::MAX / 2,
            i <= js.len(),
            total <= room,
            count + i == js.len() || stopped,
            count <= js.len() - i,
            stopped ==> fit_from_back(sizes@, js@.take(i as int), room as int, total as int) == 0,
            fit_from_back(sizes@, js@, room as int, 0) == count + fit_from_back(
                sizes@,
                js@.take(i as int),
                room as int,
                total as int,
            ),
        decreases i + (if stopped { 0int } else { 1int }),
    {
        let s = sizes[js[i - 1]];
        let ghost t = js@.take(i as int);
        assert(t.last() == js@[i - 1]);
        assert(t.drop_last() =~= js@.take(i - 1));
        if total + s <= room {
            total = total + s;
            count = count + 1;
            i = i - 1;
        } else {
            stopped = true;
        }
    }
    proof {
        if !stopped {
            assert(js@.take(0) =~= Seq::<usize>::empty());
        }
    }
    count
}

/// The one-hot variables of the jobs `js` on `proc`.
pub(crate) fn vars_on(pv: &Vec<Vec<Option<usize>>>, ps: &PartialSolution, js: &Vec<usize>, proc: usize) -> (r: Vec<
    usize,
>)
    requires
        positions_of(pv@, ps),
        1 + ps.instance.num_jobs * ps.instance.num_processors <= i32::MAX,
        proc < ps.instance.num_processors,
        forall|k: int| 0 <= k < js.len() ==> (#[trigger] js@[k]) < ps.instance.num_jobs && open_on(
            ps,
            js@[k] as int,
            proc as int,
        ),
    ensures
        r.len() == js.len(),
        all_valid(r@),
        forall|k: int| 0 <= k < js.len() ==> Some(#[trigger] r@[k]) == position_var(
            ps.possible_allocations@,
            ps.instance.num_processors as int,
            js@[k] as int,
            proc as int,
        ),
{
    let ghost pa = ps.possible_allocations@;
    let ghost n = ps.instance.num_jobs as int;
    let ghost m = ps.instance.num_processors as int;
    let mut r: Vec<usize> = Vec::new();
    let mut k: usize = 0;
    while k < js.len()
        invariant
            positions_of(pv@, ps),
            pa == ps.possible_allocations@,
            n == ps.instance.num_jobs,
            m == ps.instance.num_processors,
            1 + n * m <= i32::MAX,
            proc < m,
            forall|k2: int| 0 <= k2 < js.len() ==> (#[trigger] js@[k2]) < n && open_on(ps, js@[k2] as int, proc as int),
            k <= js.len(),
            r.len() == k,
            all_valid(r@),
            forall|k2: int| 0 <= k2 < k ==> Some(#[trigger] r@[k2]) == position_var(pa, m, js@[k2] as int, proc as int),
        decreases js.len() - k,
    {
        let j = js[k];
        proof {
            assert(open_on(ps, j as int, proc as int));
            assert(pv@[j as int]@[proc as int] == position_var(pa, m, j as int, proc as int));
            lemma_position_var_range(pa, m, n, j as int, proc as int);
        }
        let v = match pv[j][proc] {
            Some(v) => v,
            None => {
                proof {
                    assert(false);
                }
                0
            },
        };
        let ghost before = r@;
        r.push(v);
        proof {
            assert forall|k2: int| 0 <= k2 < r.len() implies valid_var(#[trigger] r@[k2] as int) by {
                if k2 < k {
                    assert(r@[k2] == before[k2]);
                }
            }
        }
        k = k + 1;
    }
    r
}

/// Whether `extra` more variables after `next` still fit in a literal.
pub(crate) fn room_for(next: usize, extra: u64) -> (r: bool)
    ensures
        r == (next + extra <= i32::MAX + 1),
{
    let n = next as u64;
    n <= 0x8000_0000u64 && extra <= 0x8000_0000u64 - n
}

/// A bound on the fresh variables of a sorting network on `len` inputs, when it is small.
pub(crate) fn sort_bound(len: usize) -> (r: Option<u64>)
    ensures
        r is None <==> len > 32768,
        r matches Some(b) ==> b == 2 * len * len,
{
    if len > 32768 {
        None
    } else {
        let l = len as u64;
        proof {
            assert((2 * l) * l <= 2 * 32768 * 32768) by (nonlinear_arith)
                requires
                    l <= 32768,
            ;
        }
        Some(2 * l * l)
    }
}

/// A bound on the fresh variables of a merging network on `a + b` inputs, when it is small.
pub(crate) fn merge_bound(a: usize, b: usize) -> (r: Option<u64>)
    ensures
        r is None <==> (a > 32768 || b > 32768),
        r matches Some(x) ==> x == (a + b) * (a + b),
{
    if a > 32768 || b > 32768 {
        None
    } else {
        let l = (a + b) as u64;
        proof {
            assert(l * l <= 65536 * 65536) by (nonlinear_arith)
                requires
                    l <= 65536,
            ;
        }
        Some(l * l)
    }
}

/// Every job of a level is among the jobs looked at and counts on that level.
pub proof fn lemma_level_jobs(ps: &PartialSolution, p: int, d: usize, k: int)
    requires
        k <= usize::MAX,
    ensures
        forall|i: int| 0 <= i < level_jobs(ps, p, d, k).len() ==> (#[trigger] level_jobs(ps, p, d, k)[i]) < k
            && on_level(ps, level_jobs(ps, p, d, k)[i] as int, p, d),
        level_jobs(ps, p, d, k).len() <= if k < 0 { 0 } else { k },
    decreases k,
{
    if k > 0 {
        lemma_level_jobs(ps, p, d, k - 1);
        let prev = level_jobs(ps, p, d, k - 1);
        if on_level(ps, k - 1, p, d) {
            assert forall|i: int| 0 <= i < prev.push((k - 1) as usize).len() implies (#[trigger] prev.push(
                (k - 1) as usize,
            )[i]) < k && on_level(ps, prev.push((k - 1) as usize)[i] as int, p, d) by {
                if i < prev.len() {
                    assert(prev.push((k - 1) as usize)[i] == prev[i]);
                }
            }
        }
    }
}

/// The odd positions of a list of valid variables are valid.
pub proof fn lemma_odds_valid(v: Seq<usize>)
    requires
        all_valid(v),
    ensures
        all_valid(odds(v)),
        odds(v).len() <= v.len(),
{
    assert forall|j: int| 0 <= j < odds(v).len() implies valid_var(#[trigger] odds(v)[j] as int) by {
        assert(odds(v)[j] == v[2 * j + 1]);
    }
}

/// The inputs of one processor's network.
pub open spec fn network_inputs(
    ps: &PartialSolution,
    pv: Seq<Vec<Option<usize>>>,
    proc: usize,
    room: usize,
    max_weight: usize,
) -> bool {
    let n = ps.instance.num_jobs as int;
    let m = ps.instance.num_processors as int;
    &&& ps.instance.wf()
    &&& ps.possible_allocations.len() >= n
    &&& forall|j: int| 0 <= j < n ==> #[trigger] ps.instance.job_sizes@[j] <= usize::MAX / 2
    &&& room <= usize::MAX / 2
    &&& max_weight <= usize::MAX / 2
    &&& positions_of(pv, ps)
    &&& 1 + n * m <= i32::MAX
    &&& proc < m
}

/// The variables that `sorted_level` sorts: those of the jobs of bit level `d` on `proc`,
/// then `extra` when given.
pub open spec fn level_vars(ps: &PartialSolution, proc: usize, d: usize, extra: Option<usize>) -> Seq<usize> {
    let js = level_jobs(ps, proc as int, d, ps.instance.num_jobs as int);
    let own = Seq::new(js.len(), |k: int| position_var(ps.possible_allocations@, ps.instance.num_processors as int, js[k] as int, proc as int)->0);
    match extra {
        Some(t) => own.push(t),
        None => own,
    }
}

/// How many of the sorted variables may be true: the jobs of the level that fit in `room`
/// taken from the last, and `extra` when given.
pub open spec fn level_max(ps: &PartialSolution, proc: usize, room: usize, d: usize, extra: Option<usize>) -> int {
    let js = level_jobs(ps, proc as int, d, ps.instance.num_jobs as int);
    fit_from_back(ps.instance.job_sizes@, js, room as int, 0) + if extra is Some { 1int } else { 0int }
}

/// The sorted count of the jobs of bit level `d` on `proc` (and of `extra`, when given),
/// at most as many as fit in `room` taken from the last; by a totalizer when `totalizer`
/// is set, else by odd-even merging. `None` where its variables would not fit in a literal.
pub(crate) fn sorted_level(
    ps: &PartialSolution,
    pv: &Vec<Vec<Option<usize>>>,
    proc: usize,
    room: usize,
    d: usize,
    extra: Option<usize>,
    totalizer: bool,
    gen: &mut VarNameGenerator,
    clauses: &mut Clauses,
) -> (r: Option<Vec<usize>>)
    requires
        network_inputs(ps, pv@, proc, room, 0),
        d < usize::BITS,
        extra matches Some(t) ==> valid_var(t as int),
        !totalizer && level_vars(ps, proc, d, extra).len() >= 2 ==> level_max(ps, proc, room, d, extra) >= 1,
        1 <= old(gen).spec_peek() <= i32::MAX + 1,
        old(clauses).wf(),
    ensures
        final(clauses).wf(),
        r matches Some(v) ==> all_valid(v@) && 1 <= final(gen).spec_peek() <= i32::MAX + 1,
        ({
            let vs = level_vars(ps, proc, d, extra);
            let start = old(gen).spec_peek() as int;
            &&& r is None ==> (vs.len() > 32768 || start + 2 * vs.len() * vs.len() > i32::MAX + 1)
            &&& totalizer ==> (r is None <==> spec_basic_sort(vs, level_max(ps, proc, room, d, extra), start).next > i32::MAX + 1)
            &&& !totalizer ==> (r is None <==> (vs.len() > 32768 || start + 2 * vs.len() * vs.len() > i32::MAX + 1))
        }),
        r is None ==> final(clauses)@ == old(clauses)@ && final(gen).spec_peek() == old(gen).spec_peek(),
        level_vars(ps, proc, d, extra).len() <= ps.instance.num_jobs + if extra is Some { 1int } else { 0int },
        r matches Some(v) ==> v.len() <= level_vars(ps, proc, d, extra).len(),
        r is Some ==> {
            let vs = level_vars(ps, proc, d, extra);
            let mx = level_max(ps, proc, room, d, extra);
            let start = old(gen).spec_peek() as int;
            let sr = if totalizer { spec_basic_sort(vs, mx, start) } else { spec_half_sort(vs, mx, start) };
            &&& final(clauses)@ == old(clauses)@ + sr.clauses
            &&& r->0@ == sr.outs
            &&& final(gen).spec_peek() == sr.next
        },
{
    let n = ps.instance.num_jobs;
    let jobs = jobs_on_level(ps, proc, d);
    proof {
        let m = ps.instance.num_processors as int;
        assert(n <= n * m) by (nonlinear_arith)
            requires
                m >= 1,
                n >= 0,
        ;
        lemma_level_jobs(ps, proc as int, d, n as int);
        assert forall|k: int| 0 <= k < jobs.len() implies (#[trigger] jobs@[k]) < ps.instance.job_sizes.len() by {
        }
    }
    let mut max_num_assigned = count_fitting(&ps.instance.job_sizes, &jobs, room);
    let mut vars = vars_on(pv, ps, &jobs, proc);
    proof {
        let own = Seq::new(jobs@.len(), |k: int| position_var(ps.possible_allocations@, ps.instance.num_processors as int, jobs@[k] as int, proc as int)->0);
        assert forall|k: int| 0 <= k < jobs.len() implies vars@[k] == own[k] by {
            assert(Some(vars@[k]) == position_var(ps.possible_allocations@, ps.instance.num_processors as int, jobs@[k] as int, proc as int));
        }
        assert(vars@ =~= own);
    }
    match extra {
        Some(t) => {
            let ghost before = vars@;
            vars.push(t);
            max_num_assigned = max_num_assigned + 1;
            proof {
                assert forall|k: int| 0 <= k < vars.len() implies valid_var(#[trigger] vars@[k] as int) by {
                    if k < before.len() {
                        assert(vars@[k] == before[k]);
                    }
                }
            }
        },
        None => {},
    }
    if totalizer {
        if !basic_sort_fits(&vars, max_num_assigned, gen.peek()) {
            proof {
                lemma_basic_sort_size(vars@, max_num_assigned as int, gen.spec_peek() as int);
                let l = vars.len() as int;
                assert(l * l <= 2 * l * l) by (nonlinear_arith)
                    requires
                        l >= 0,
                ;
            }
            return None;
        }
        proof {
            lemma_basic_sort_size(vars@, max_num_assigned as int, gen.spec_peek() as int);
        }
        let (mut c, sorted) = basic_sort(&vars, max_num_assigned, gen);
        clauses.add_many_clauses(&mut c);
        Some(sorted)
    } else {
        let bound = match sort_bound(vars.len()) {
            Some(b) => b,
            None => {
                return None;
            },
        };
        if !room_for(gen.peek(), bound) {
            return None;
        }
        proof {
            lemma_half_sort_size(vars@, max_num_assigned as int, gen.spec_peek() as int);
            lemma_half_sort(vars@, max_num_assigned as int, gen.spec_peek() as int);
        }
        let (mut c, sorted) = half_sort(&vars, max_num_assigned, gen);
        clauses.add_many_clauses(&mut c);
        Some(sorted)
    }
}

/// The binary digit of a merged count: its parity (stated both ways when `exact` is set),
/// or the false variable when it is empty.
fn parity_digit(
    merged: &Vec<usize>,
    false_var: usize,
    exact: bool,
    gen: &mut VarNameGenerator,
    clauses: &mut Clauses,
) -> (r: Option<usize>)
    requires
        all_valid(merged@),
        valid_var(false_var as int),
        1 <= old(gen).spec_peek() <= i32::MAX + 1,
        old(clauses).wf(),
    ensures
        final(clauses).wf(),
        r matches Some(v) ==> valid_var(v as int) && 1 <= final(gen).spec_peek() <= i32::MAX + 1,
        merged.len() == 0 ==> r == Some(false_var) && final(clauses)@ == old(clauses)@ && final(gen).spec_peek() == old(gen).spec_peek(),
        merged.len() > 0 ==> (r is None <==> old(gen).spec_peek() == i32::MAX + 1),
        merged.len() > 0 && r is None ==> final(clauses)@ == old(clauses)@ && final(gen).spec_peek() == old(gen).spec_peek(),
        merged.len() > 0 && r is Some ==> {
            &&& r->0 == old(gen).spec_peek()
            &&& final(gen).spec_peek() == old(gen).spec_peek() + 1
            &&& final(clauses)@ == old(clauses)@ + if exact {
                spec_exact_parity(merged@, r->0)
            } else {
                parity_clauses(merged@, r->0, 0)
            }
        },
{
    if merged.len() == 0 {
        Some(false_var)
    } else {
        if !room_for(gen.peek(), 1) {
            return None;
        }
        if exact {
            let (mut c, parity) = sorted_exact_parity(merged, gen);
            clauses.add_many_clauses(&mut c);
            Some(parity)
        } else {
            let (mut c, parity) = sorted_parity(merged, gen);
            clauses.add_many_clauses(&mut c);
            Some(parity)
        }
    }
}

/// On every processor, each open job fits in the room left below `makespan`.
pub open spec fn merge_jobs_fit(ps: &PartialSolution, makespan: usize) -> bool {
    forall|p: int| 0 <= p < ps.instance.num_processors ==> #[trigger] open_jobs_fit(ps, p as usize, (makespan - ps.assigned_makespan@[p]) as usize)
}

/// Every job open on `proc` fits in `room` on its own.
pub open spec fn open_jobs_fit(ps: &PartialSolution, proc: usize, room: usize) -> bool {
    forall|j: int| 0 <= j < ps.instance.num_jobs && #[trigger] open_on(ps, j, proc as int) ==> ps.instance.job_sizes@[j] <= room
}

/// Where every open job fits, a level with a job lets at least one of them count.
pub proof fn lemma_level_fits(ps: &PartialSolution, proc: usize, room: usize, d: usize)
    requires
        open_jobs_fit(ps, proc, room),
        ps.instance.num_jobs <= usize::MAX,
    ensures
        level_vars(ps, proc, d, None).len() >= 1 ==> level_max(ps, proc, room, d, None) >= 1,
{
    let n = ps.instance.num_jobs as int;
    let js = level_jobs(ps, proc as int, d, n);
    lemma_level_jobs(ps, proc as int, d, n);
    if js.len() >= 1 {
        let j = js.last();
        assert(js[js.len() - 1] == j);
        assert(on_level(ps, j as int, proc as int, d));
        assert(open_on(ps, j as int, proc as int));
    }
}

/// An input count `len <= s` too large for a network, or whose network does not fit after
/// `next`, means the names run out for networks on `s` inputs.
proof fn lemma_net_run_out(len: int, s: int, next: int)
    requires
        0 <= len <= s,
        len > 32768 || next + 2 * len * len > i32::MAX + 1 || (len >= 1 && next + 1 > i32::MAX + 1),
    ensures
        s > 32768 || next + 2 * s * s > i32::MAX + 1,
{
    assert(len * len <= s * s) by (nonlinear_arith)
        requires
            0 <= len <= s,
    ;
    assert(len >= 1 ==> s * s >= 1) by (nonlinear_arith)
        requires
            0 <= len <= s,
    ;
    assert(2 * len * len <= 2 * s * s) by (nonlinear_arith)
        requires
            0 <= len <= s,
    ;
    assert(len >= 1 ==> 2 * s * s >= 1) by (nonlinear_arith)
        requires
            0 <= len <= s,
    ;
}

/// The network of one processor: the sorted counts per bit level of the jobs open on it,
/// their merge level by level into the binary digits of its load, and the bound of that
/// load by `room`. With `totalizer` set the counts are sorted and merged directly and the
/// digits are stated both ways, else by odd-even merging. `None` where its variables would
/// not fit in a literal.
pub(crate) fn binmerge_processor(
    ps: &PartialSolution,
    pv: &Vec<Vec<Option<usize>>>,
    proc: usize,
    room: usize,
    max_weight: usize,
    false_var: usize,
    totalizer: bool,
    gen: &mut VarNameGenerator,
    clauses: &mut Clauses,
) -> (r: Option<(Vec<Vec<usize>>, Vec<Vec<usize>>, Vec<usize>)>)
    requires
        network_inputs(ps, pv@, proc, room, max_weight),
        valid_var(false_var as int),
        !totalizer ==> open_jobs_fit(ps, proc, room),
        1 <= old(gen).spec_peek() <= i32::MAX + 1,
        old(clauses).wf(),
    ensures
        final(clauses).wf(),
        starts_with(final(clauses)@, old(clauses)@),
        r matches Some(t) ==> forall|a: spec_fn(int) -> bool|
            all_sat(a, final(clauses)@) ==> #[trigger] value(a, t.2@) <= room,
        r matches Some(t) ==> {
            &&& t.0.len() == spec_bitlength(max_weight as nat)
            &&& t.1.len() == spec_bitlength(room as nat)
            &&& t.2.len() == spec_bitlength(room as nat)
            &&& all_valid(t.2@)
            &&& 1 <= final(gen).spec_peek() <= i32::MAX + 1
        },
        r is None ==> ({
            let s = ps.instance.num_jobs * spec_bitlength(max_weight as nat);
            s > 32768 || final(gen).spec_peek() + 2 * s * s > i32::MAX + 1
        }),
{
    let bitlength = number_bitlength(max_weight);
    let ghost n = ps.instance.num_jobs as int;
    let ghost sb = n * bitlength;
    let makespan_bitlength = number_bitlength(room);
    let ghost c0 = clauses@;
    let mut levels: Vec<Vec<usize>> = Vec::new();
    let mut d: usize = 0;
    while d < bitlength
        invariant
            starts_with(clauses@, c0),
            c0 == old(clauses)@,
            network_inputs(ps, pv@, proc, room, max_weight),
            bitlength == spec_bitlength(max_weight as nat),
            1 <= bitlength < usize::BITS,
            d <= bitlength,
            levels.len() == d,
            forall|k: int| 0 <= k < levels.len() ==> all_valid(#[trigger] levels@[k]@),
            forall|k: int| 0 <= k < levels.len() ==> #[trigger] levels@[k].len() <= n,
            n == ps.instance.num_jobs,
            sb == n * bitlength,
            !totalizer ==> open_jobs_fit(ps, proc, room),
            1 <= gen.spec_peek() <= i32::MAX + 1,
            clauses.wf(),
        decreases bitlength - d,
    {
        proof {
            assert(n <= sb) by (nonlinear_arith)
                requires
                    sb == n * bitlength,
                    bitlength >= 1,
                    n >= 0,
            ;
        }
        proof {
            if !totalizer {
                lemma_level_fits(ps, proc, room, d);
            }
        }
        let sorted = match sorted_level(ps, pv, proc, room, d, None, totalizer, gen, clauses) {
            Some(s) => s,
            None => {
                proof {
                    let l = level_vars(ps, proc, d, None).len() as int;
                    lemma_net_run_out(l, sb, gen.spec_peek() as int);
                }
                return None;
            },
        };
        let ghost before = levels@;
        levels.push(sorted);
        proof {
            assert forall|k: int| 0 <= k < levels.len() implies all_valid(#[trigger] levels@[k]@) by {
                if k < before.len() {
                    assert(levels@[k] == before[k]);
                }
            }
        }
        d = d + 1;
    }
    let mut merge_bits: Vec<Vec<usize>> = Vec::new();
    merge_bits.push(crate::problem_instance::partial_solution::copy_usizes(&levels[0]));
    let mut sum_val: Vec<usize> = Vec::new();
    proof {
        assert(levels@[0].len() <= n);
        assert(n * 1 <= sb) by (nonlinear_arith)
            requires
                sb == n * bitlength,
                bitlength >= 1,
                n >= 0,
        ;
    }
    let first = match parity_digit(&merge_bits[0], false_var, totalizer, gen, clauses) {
        Some(v) => v,
        None => {
            proof {
                lemma_net_run_out(merge_bits@[0].len() as int, sb, gen.spec_peek() as int);
            }
            return None;
        },
    };
    sum_val.push(first);
    let mut d: usize = 1;
    while d < makespan_bitlength
        invariant
            starts_with(clauses@, c0),
            c0 == old(clauses)@,
            network_inputs(ps, pv@, proc, room, max_weight),
            valid_var(false_var as int),
            bitlength == spec_bitlength(max_weight as nat),
            levels.len() == bitlength,
            forall|k: int| 0 <= k < levels.len() ==> all_valid(#[trigger] levels@[k]@),
            makespan_bitlength == spec_bitlength(room as nat),
            1 <= makespan_bitlength < usize::BITS,
            1 <= d <= makespan_bitlength,
            merge_bits.len() == d,
            sum_val.len() == d,
            forall|k: int| 0 <= k < merge_bits.len() ==> all_valid(#[trigger] merge_bits@[k]@),
            all_valid(sum_val@),
            1 <= gen.spec_peek() <= i32::MAX + 1,
            clauses.wf(),
            n == ps.instance.num_jobs,
            sb == n * bitlength,
            forall|k: int| 0 <= k < levels.len() ==> #[trigger] levels@[k].len() <= n,
            forall|k: int| 0 <= k < merge_bits.len() ==> #[trigger] merge_bits@[k].len() <= n * (if k + 1 <= bitlength { k + 1 } else { bitlength as int }),
        decreases makespan_bitlength - d,
    {
        let carry = split_parity(&merge_bits[d - 1], true);
        proof {
            lemma_odds_valid(merge_bits@[d - 1]@);
        }
        let level: Vec<usize> = if d < levels.len() {
            crate::problem_instance::partial_solution::copy_usizes(&levels[d])
        } else {
            Vec::new()
        };
        let shift = makespan_bitlength - d;
        proof {
            crate::encoding::sat_encoding::binary_arithmetic::lemma_one_shl(shift);
            vstd::arithmetic::power2::lemma_pow2_strictly_increases(0, shift as nat);
            vstd::arithmetic::power2::lemma2_to64();
        }
        let max_true = (1usize << shift) - 1;
        let ghost cap = if d + 1 <= bitlength { d + 1 } else { bitlength as int };
        proof {
            let prev = merge_bits@[d - 1].len() as int;
            let pc = if d <= bitlength { d as int } else { bitlength as int };
            assert(prev <= n * pc);
            if d < bitlength {
                assert(levels@[d as int].len() <= n);
                assert(level@ == levels@[d as int]@);
                assert(level.len() <= n);
                assert(n * pc + n == n * cap) by (nonlinear_arith)
                    requires
                        pc == d,
                        cap == d + 1,
                ;
            } else {
                assert(level.len() == 0);
                assert(pc == cap);
            }
            assert(n * cap <= sb) by (nonlinear_arith)
                requires
                    sb == n * bitlength,
                    cap <= bitlength,
                    n >= 0,
            ;
            assert(carry.len() <= prev);
        }
        let next_bits = if totalizer {
            let both: u128 = level.len() as u128 + carry.len() as u128;
            if both > usize::MAX as u128 {
                proof {
                    lemma_net_run_out((level.len() + carry.len()) as int, sb, gen.spec_peek() as int);
                }
                return None;
            }
            let fresh: u64 = if level.len() == 0 || carry.len() == 0 {
                0
            } else if both <= max_true as u128 {
                both as u64
            } else {
                max_true as u64 + 1
            };
            if !room_for(gen.peek(), fresh) {
                proof {
                    let l = (level.len() + carry.len()) as int;
                    assert(l <= 2 * l * l) by (nonlinear_arith)
                        requires
                            l >= 0,
                    ;
                    lemma_net_run_out(l, sb, gen.spec_peek() as int);
                }
                return None;
            }
            proof {
                lemma_basic_merge_size(level@, carry@, max_true as int, gen.spec_peek() as int);
                let l = (level.len() + carry.len()) as int;
                assert(l <= l * l) by (nonlinear_arith)
                    requires
                        l >= 0,
                ;
            }
            let (mut c, next_bits) = basic_merge(&level, &carry, max_true, gen);
            clauses.add_many_clauses(&mut c);
            next_bits
        } else {
            let bound = match merge_bound(level.len(), carry.len()) {
                Some(b) => b,
                None => {
                    proof {
                        lemma_net_run_out((level.len() + carry.len()) as int, sb, gen.spec_peek() as int);
                    }
                    return None;
                },
            };
            if !room_for(gen.peek(), bound) {
                proof {
                    let l = (level.len() + carry.len()) as int;
                    assert(l * l <= 2 * l * l) by (nonlinear_arith)
                        requires
                            l >= 0,
                    ;
                    lemma_net_run_out(l, sb, gen.spec_peek() as int);
                }
                return None;
            }
            proof {
                lemma_half_merge_size(level@, carry@, max_true as int, gen.spec_peek() as int);
                lemma_half_merge(level@, carry@, max_true as int, gen.spec_peek() as int);
            }
            let (mut c, next_bits) = half_merge(&level, &carry, max_true, gen);
            clauses.add_many_clauses(&mut c);
            next_bits
        };
        proof {
            assert(next_bits.len() <= level.len() + carry.len());
        }
        let digit = match parity_digit(&next_bits, false_var, totalizer, gen, clauses) {
            Some(v) => v,
            None => {
                proof {
                    lemma_net_run_out(next_bits.len() as int, sb, gen.spec_peek() as int);
                }
                return None;
            },
        };
        let ghost before = merge_bits@;
        merge_bits.push(next_bits);
        sum_val.push(digit);
        proof {
            assert forall|k: int| 0 <= k < merge_bits.len() implies all_valid(#[trigger] merge_bits@[k]@) by {
                if k < before.len() {
                    assert(merge_bits@[k] == before[k]);
                }
            }
        }
        d = d + 1;
    }
    let final_sum = BinaryNumber::new_from_vec(crate::problem_instance::partial_solution::copy_usizes(&sum_val), room);
    let mut bound = at_most_k_encoding(&final_sum, room);
    let ghost before = clauses@;
    let ghost amk = bound@;
    clauses.add_many_clauses(&mut bound);
    proof {
        assert forall|a: spec_fn(int) -> bool| all_sat(a, clauses@) implies #[trigger] value(a, sum_val@) <= room by {
            lemma_all_sat_append(a, before, amk);
            lemma_at_most_k(a, sum_val@, room as nat);
        }
    }
    Some((levels, merge_bits, sum_val))
}

/// Every assignment that satisfies `cs` keeps the binary load digits of each processor
/// below `upto` that has an open job within the room its fixed jobs leave under `makespan`.
/// The digits of processor `p` are the entry `busy_count(ps, p)` of `digits`.
pub open spec fn digits_within(
    ps: &PartialSolution,
    makespan: usize,
    digits: Seq<Vec<usize>>,
    cs: Seq<Seq<i32>>,
    upto: int,
) -> bool {
    forall|a: spec_fn(int) -> bool, p: int|
        0 <= p < upto && has_open_job(ps, p) && all_sat(a, cs) ==> #[trigger] value(
            a,
            digits[busy_count(ps, p) as int]@,
        ) + ps.assigned_makespan@[p] <= makespan
}

/// A processor with an open job comes before every later one in the count of such processors.
pub proof fn lemma_busy_index(ps: &PartialSolution, p: int, q: int)
    requires
        0 <= p < q,
        has_open_job(ps, p),
    ensures
        busy_count(ps, p) < busy_count(ps, q),
    decreases q - p,
{
    if q > p + 1 {
        lemma_busy_index(ps, p, q - 1);
    }
}

/// Some job is open on processor `p`.
pub open spec fn has_open_job(ps: &PartialSolution, p: int) -> bool {
    max_open_size(ps, p, ps.instance.num_jobs as int) is Some
}

/// How many of the processors `0..p` have an open job.
pub open spec fn busy_count(ps: &PartialSolution, p: int) -> nat
    decreases p,
{
    if p <= 0 {
        0
    } else {
        busy_count(ps, p - 1) + if has_open_job(ps, p - 1) {
            1nat
        } else {
            0nat
        }
    }
}

/// The largest open size is the size of some job, so it is bounded as the sizes are.
pub proof fn lemma_max_open_bound(ps: &PartialSolution, p: int, k: int, b: int)
    requires
        forall|j: int| 0 <= j < k ==> #[trigger] ps.instance.job_sizes@[j] <= b,
    ensures
        max_open_size(ps, p, k) matches Some(w) ==> w <= b,
    decreases k,
{
    if k > 0 {
        lemma_max_open_bound(ps, p, k - 1, b);
    }
}

/// A unit clause that the false variable is false.
pub(crate) fn add_unit(clauses: &mut Clauses, l: i32)
    requires
        old(clauses).wf(),
        l != 0,
    ensures
        final(clauses).wf(),
        final(clauses)@ == old(clauses)@.push(seq![l]),
{
    let c = Clause { vars: vec![l] };
    assert(c.vars@ =~= seq![l]);
    clauses.add_clause(c);
}

#[derive(Clone)]
pub struct BinmergeEncoder {
    one_hot: OneHotProblemEncoding,
    sorted: Vec<Vec<Vec<usize>>>,
    merged: Vec<Vec<Vec<usize>>>,
    sum_vals: Vec<Vec<usize>>,
    clauses: Clauses,
}

impl BinmergeEncoder {
    pub fn new() -> (e: BinmergeEncoder)
        ensures
            e.pending().wf(),
            e.pending()@ == Seq::<Seq<i32>>::empty(),
            e.digits().len() == 0,
            e.one_hot().var_name_generator.spec_peek() == 1,
            e.one_hot().position_vars.len() == 0,
            e.one_hot().clauses@ == Seq::<Seq<i32>>::empty(),
            e.levels().0.len() == 0,
            e.levels().1.len() == 0,
    {
        BinmergeEncoder {
            one_hot: OneHotProblemEncoding::new(),
            sorted: Vec::new(),
            merged: Vec::new(),
            sum_vals: Vec::new(),
            clauses: Clauses::new(),
        }
    }

    /// The one-hot part of the encoding.
    pub closed spec fn one_hot(&self) -> OneHotProblemEncoding {
        self.one_hot
    }

    /// The network clauses not yet handed out.
    pub closed spec fn pending(&self) -> Clauses {
        self.clauses
    }

    /// The binary digits of the load of each processor with an open job, least
    /// significant first.
    pub closed spec fn digits(&self) -> Seq<Vec<usize>> {
        self.sum_vals@
    }

    /// The sorted counts per bit level, and the merged counts per bit level, of each
    /// processor with an open job.
    pub closed spec fn levels(&self) -> (Seq<Vec<Vec<usize>>>, Seq<Vec<Vec<usize>>>) {
        (self.sorted@, self.merged@)
    }
}

impl Encoder for BinmergeEncoder {
    open spec fn encode_requires(&self, partial_solution: &PartialSolution, makespan: usize) -> bool {
        merge_inputs(partial_solution, makespan) && merge_jobs_fit(partial_solution, makespan)
    }

    closed spec fn encoded(&self) -> bool {
        self.clauses.wf() && self.one_hot.clauses.wf()
    }

    closed spec fn decode_requires(&self, instance: &ProblemInstance, solution: &Vec<i32>) -> bool {
        let t = true_vars(solution@);
        let pv = self.one_hot.position_vars@;
        &&& self.one_hot.fits(instance)
        &&& instance.wf()
        &&& decoded(pv, t, pv.len() as int).len() == pv.len()
        &&& forall|p: int| 0 <= p < instance.num_processors ==> #[trigger] crate::common::common::load(
            instance.job_sizes@,
            decoded(pv, t, pv.len() as int),
            p,
            instance.num_jobs as int,
        ) <= usize::MAX
    }

    /// On success the one-hot part is that of `partial_solution`, and every processor with
    /// an open job has a network, in order, whose binary digits are valid variables; every
    /// assignment that satisfies the clauses keeps those digits within the room that the
    /// fixed jobs leave under `makespan`. It fails when the time runs out, when the clauses exceed `max_num_clauses` before a
    /// processor, or when the variables of a network would not fit in a literal.
    fn basic_encode(
        &mut self,
        partial_solution: &PartialSolution,
        makespan: usize,
        timeout: &Timeout,
        max_num_clauses: usize,
    ) -> (r: bool)
        ensures
            !r ==> final(self).pending() == old(self).pending(),
            r && partial_solution.instance.num_processors >= 1 ==> max_num_clauses >= 1,
            r ==> digits_within(
                partial_solution,
                makespan,
                final(self).digits(),
                final(self).pending()@,
                partial_solution.instance.num_processors as int,
            ),
            r ==> {
                let pa = partial_solution.possible_allocations@;
                let n = partial_solution.instance.num_jobs as int;
                let m = partial_solution.instance.num_processors as int;
                &&& positions_of(final(self).one_hot().position_vars@, partial_solution)
                &&& final(self).one_hot().clauses@ == one_hot_clauses(pa, m, n)
                &&& final(self).digits().len() == busy_count(partial_solution, m)
                &&& final(self).levels().0.len() == final(self).digits().len()
                &&& final(self).levels().1.len() == final(self).digits().len()
                &&& forall|k: int| 0 <= k < final(self).digits().len() ==> all_valid(
                    #[trigger] final(self).digits()[k]@,
                )
            },
    {
        let ghost pa = partial_solution.possible_allocations@;
        let n = partial_solution.instance.num_jobs;
        let m = partial_solution.instance.num_processors;
        self.one_hot.encode(partial_solution);
        proof {
            lemma_rows_count_bound(pa, m as int, n as int);
        }
        let mut clauses: Clauses = Clauses::new();
        let false_var = self.one_hot.var_name_generator.next();
        add_unit(&mut clauses, lit_neg(false_var));
        let mut all_sorted: Vec<Vec<Vec<usize>>> = Vec::new();
        let mut all_merged: Vec<Vec<Vec<usize>>> = Vec::new();
        let mut all_sum_vals: Vec<Vec<usize>> = Vec::new();
        let mut proc: usize = 0;
        while proc < m
            invariant
                proc == 0 ==> clauses@.len() >= 1,
                proc > 0 ==> max_num_clauses >= 1,
                self.clauses == old(self).clauses,
                pa == partial_solution.possible_allocations@,
                n == partial_solution.instance.num_jobs,
                m == partial_solution.instance.num_processors,
                merge_inputs(partial_solution, makespan),
                merge_jobs_fit(partial_solution, makespan),
                positions_of(self.one_hot.position_vars@, partial_solution),
                self.one_hot.clauses@ == one_hot_clauses(pa, m as int, n as int),
                self.one_hot.clauses.wf(),
                valid_var(false_var as int),
                1 <= self.one_hot.var_name_generator.spec_peek() <= i32::MAX + 1,
                clauses.wf(),
                proc <= m,
                all_sum_vals.len() == busy_count(partial_solution, proc as int),
                all_sorted.len() == all_sum_vals.len(),
                all_merged.len() == all_sum_vals.len(),
                forall|k: int| 0 <= k < all_sum_vals.len() ==> all_valid(#[trigger] all_sum_vals@[k]@),
                digits_within(partial_solution, makespan, all_sum_vals@, clauses@, proc as int),
            decreases m - proc,
        {
            if timeout.time_finished() || max_num_clauses < clauses.get_num_clauses() {
                return false;
            }
            let room = makespan - partial_solution.assigned_makespan[proc];
            let max_weight = match max_open_weight(partial_solution, proc) {
                Some(w) => w,
                None => {
                    proc = proc + 1;
                    continue;
                },
            };
            proof {
                lemma_max_open_bound(partial_solution, proc as int, n as int, (usize::MAX / 2) as int);
                assert(open_jobs_fit(partial_solution, proc, room));
            }
            let ghost before_clauses = clauses@;
            let network = binmerge_processor(
                partial_solution,
                &self.one_hot.position_vars,
                proc,
                room,
                max_weight,
                false_var,
                false,
                &mut self.one_hot.var_name_generator,
                &mut clauses,
            );
            match network {
                Some((sorted, merged, sum_val)) => {
                    let ghost before = all_sum_vals@;
                    all_sorted.push(sorted);
                    all_merged.push(merged);
                    all_sum_vals.push(sum_val);
                    proof {
                        assert forall|k: int| 0 <= k < all_sum_vals.len() implies all_valid(#[trigger] all_sum_vals@[k]@) by {
                            if k < before.len() {
                                assert(all_sum_vals@[k] == before[k]);
                            }
                        }
                        assert forall|a: spec_fn(int) -> bool, p: int|
                            0 <= p < proc + 1 && has_open_job(partial_solution, p) && all_sat(a, clauses@) implies
                            #[trigger] value(a, all_sum_vals@[busy_count(partial_solution, p) as int]@)
                                + partial_solution.assigned_makespan@[p] <= makespan by {
                            lemma_starts_with_sat(a, clauses@, before_clauses);
                            if p < proc {
                                lemma_busy_index(partial_solution, p, proc as int);
                                assert(all_sum_vals@[busy_count(partial_solution, p) as int] == before[busy_count(partial_solution, p) as int]);
                            } else {
                                assert(busy_count(partial_solution, p) == before.len());
                            }
                        }
                    }
                },
                None => {
                    return false;
                },
            }
            proc = proc + 1;
        }
        self.sorted = all_sorted;
        self.merged = all_merged;
        self.sum_vals = all_sum_vals;
        self.clauses = clauses;
        true
    }

    /// The network clauses followed by the one-hot clauses; the encoder keeps none of them.
    fn output(&mut self) -> (out: Clauses)
        ensures
            out.wf(),
            out@ == old(self).pending()@ + old(self).one_hot().clauses@,
    {
        let mut out = Clauses::new();
        std::mem::swap(&mut out, &mut self.clauses);
        out.add_many_clauses(&mut self.one_hot.clauses);
        out
    }

    fn decode(&self, instance: &ProblemInstance, var_assignment: &Vec<i32>) -> (s: Solution)
        ensures
            s.assignment@ == decoded(self.one_hot().position_vars@, true_vars(var_assignment@), self.one_hot().position_vars.len() as int),
    {
        self.one_hot.decode(instance, var_assignment)
    }

    fn get_num_vars(&self) -> (n: usize)
        ensures
            n == self.one_hot().var_name_generator.spec_peek(),
    {
        self.one_hot.var_name_generator.peek()
    }
}

impl OneHot for BinmergeEncoder {
    closed spec fn has_position(&self, job_num: usize, proc_num: usize) -> bool {
        self.one_hot.has_position(job_num, proc_num)
    }

    fn get_position_var(&self, job_num: usize, proc_num: usize) -> (r: Option<usize>)
        ensures
            r == self.one_hot().position_vars[job_num as int]@[proc_num as int],
    {
        self.one_hot.get_position_var(job_num, proc_num)
    }
}

impl OneHotEncoder for BinmergeEncoder {}

} // verus!
