//! The direct program: a binary variable `a_job_proc` for each job and each processor it
//! may go on, the load of each processor summed up job by job, each job on one processor,
//! and no load above the makespan, which the program minimises.
use vstd::prelude::*;
use std::collections::HashMap;
use crate::common::timeout::Timeout;
use crate::encoding::ilp_encoder::ILPEncoder;
use crate::encoding::ilp_encoder::decimal;
use crate::encoding::ilp_encoder::pair_name;
use crate::encoding::ilp_encoder::push_decimal;
use crate::encoding::ilp_encoder::push_pair_name;
use crate::encoding::ilp_encoder::push_text;
use crate::encoding::ilp_encoder::row_holds;
use crate::encoding::ilp_encoder::solution_values;
use crate::encoding::ilp_encoder::walk_decode;
use crate::encoding::ilp_encoder::walk_inputs;
use crate::encoding::ilp_encoder::walked;
use crate::problem_instance::partial_solution::PartialSolution;
use crate::problem_instance::problem_instance::ProblemInstance;
use crate::problem_instance::solution::Solution;

verus! {

/// How many of the first `k` jobs may go on processor `p`.
pub open spec fn summands(pa: Seq<Vec<usize>>, p: int, k: int) -> int
    decreases k,
{
    if k <= 0 {
        0
    } else {
        summands(pa, p, k - 1) + if pa[k - 1]@.contains(p as usize) {
            1int
        } else {
            0int
        }
    }
}

/// The line that adds `job` to the partial load of processor `p`, where `c` jobs came
/// before it there: `makespan_p_(c+1)` is the previous partial load plus the job's size
/// times `a_job_p`.
pub open spec fn load_line(sizes: Seq<usize>, p: int, job: int, c: int) -> Seq<char> {
    let tail = pair_name(" a_"@, job as nat, p as nat) + pair_name(" - makespan_"@, p as nat, (c + 1) as nat) + " = 0\n"@;
    if c == 0 {
        decimal(sizes[job] as nat) + tail
    } else {
        pair_name("makespan_"@, p as nat, c as nat) + " + "@ + decimal(sizes[job] as nat) + tail
    }
}

/// The load lines of processor `p` for the first `k` jobs.
pub open spec fn load_lines_of(pa: Seq<Vec<usize>>, sizes: Seq<usize>, p: int, k: int) -> Seq<char>
    decreases k,
{
    if k <= 0 {
        Seq::empty()
    } else if pa[k - 1]@.contains(p as usize) {
        load_lines_of(pa, sizes, p, k - 1) + load_line(sizes, p, k - 1, summands(pa, p, k - 1))
    } else {
        load_lines_of(pa, sizes, p, k - 1)
    }
}

/// The load lines of the first `k` processors, for all `n` jobs.
pub open spec fn load_lines(pa: Seq<Vec<usize>>, sizes: Seq<usize>, n: int, k: int) -> Seq<char>
    decreases k,
{
    if k <= 0 {
        Seq::empty()
    } else {
        load_lines(pa, sizes, n, k - 1) + load_lines_of(pa, sizes, k - 1, n)
    }
}

/// The terms `+ a_job_p ` of the first `t` processors that `job` may go on.
pub open spec fn choice_terms(pa: Seq<Vec<usize>>, job: int, t: int) -> Seq<char>
    decreases t,
{
    if t <= 0 {
        Seq::empty()
    } else {
        choice_terms(pa, job, t - 1) + pair_name("+ a_"@, job as nat, pa[job]@[t - 1] as nat) + " "@
    }
}

/// The lines "the first `k` jobs are each on one processor".
pub open spec fn choice_lines(pa: Seq<Vec<usize>>, k: int) -> Seq<char>
    decreases k,
{
    if k <= 0 {
        Seq::empty()
    } else {
        choice_lines(pa, k - 1) + choice_terms(pa, k - 1, pa[k - 1]@.len() as int) + "= 1\n"@
    }
}

/// The lines "the full load of processor `p` is at most the makespan" for the first `k`
/// processors.
pub open spec fn limit_lines(pa: Seq<Vec<usize>>, n: int, k: int) -> Seq<char>
    decreases k,
{
    if k <= 0 {
        Seq::empty()
    } else {
        limit_lines(pa, n, k - 1) + pair_name("makespan_"@, (k - 1) as nat, summands(pa, k - 1, n) as nat)
            + " - makespan <= 0\n"@
    }
}

/// The names ` a_job_p` of the first `t` processors of `job`.
pub open spec fn choice_names(pa: Seq<Vec<usize>>, job: int, t: int) -> Seq<char>
    decreases t,
{
    if t <= 0 {
        Seq::empty()
    } else {
        choice_names(pa, job, t - 1) + pair_name(" a_"@, job as nat, pa[job]@[t - 1] as nat)
    }
}

/// The names of the choice variables of the first `k` jobs.
pub open spec fn all_choice_names(pa: Seq<Vec<usize>>, k: int) -> Seq<char>
    decreases k,
{
    if k <= 0 {
        Seq::empty()
    } else {
        all_choice_names(pa, k - 1) + choice_names(pa, k - 1, pa[k - 1]@.len() as int)
    }
}

/// The program for `n` jobs of `sizes`, each on one of its processors `pa`, on `m`
/// processors: minimise the makespan; the load lines; the choice lines; the limit lines;
/// the makespan at least `lb`; the choice variables binary, the makespan integer.
pub open spec fn direct_program(pa: Seq<Vec<usize>>, sizes: Seq<usize>, n: int, m: int, lb: nat) -> Seq<char> {
    "Minimize\nmakespan\nSubject To\n"@
        + load_lines(pa, sizes, n, m)
        + choice_lines(pa, n)
        + limit_lines(pa, n, m)
        + "makespan >= "@ + decimal(lb) + "\n"@
        + "Binaries\n"@
        + all_choice_names(pa, n)
        + "\nGenerals\nmakespan"@
        + "\nEnd\n"@
}

#[derive(Clone)]
pub struct Naive {
    encoding: String,
    prec: bool,
}

impl Naive {
    /// The program text of the last encoding.
    pub closed spec fn text(&self) -> Seq<char> {
        self.encoding@
    }

    /// Whether the encoder was made for precedences (the program is the same).
    pub closed spec fn ordered(&self) -> bool {
        self.prec
    }

    pub fn new() -> (e: Naive)
        ensures
            e.text() == Seq::<char>::empty(),
            !e.ordered(),
    {
        Naive { encoding: String::new(), prec: false }
    }

    /// The program text of the last encoding, left in place.
    pub fn encoding(&self) -> (s: &String)
        ensures
            s@ == self.text(),
    {
        &self.encoding
    }

    pub fn new_prec() -> (e: Naive)
        ensures
            e.text() == Seq::<char>::empty(),
            e.ordered(),
    {
        Naive { encoding: String::new(), prec: true }
    }
}

/// Appends the load lines of all processors and records how many jobs may go on each.
fn push_load_lines(s: &mut String, ps: &PartialSolution) -> (counts: Vec<usize>)
    requires
        ps.wf(),
    ensures
        final(s)@ == old(s)@ + load_lines(ps.possible_allocations@, ps.instance.job_sizes@, ps.instance.num_jobs as int,
            ps.instance.num_processors as int),
        counts.len() == ps.instance.num_processors,
        forall|p: int| 0 <= p < ps.instance.num_processors ==> #[trigger] counts@[p] == summands(ps.possible_allocations@,
            p, ps.instance.num_jobs as int),
{
    let ghost pa = ps.possible_allocations@;
    let ghost sizes = ps.instance.job_sizes@;
    let n = ps.instance.num_jobs;
    let m = ps.instance.num_processors;
    let ghost base = old(s)@;
    let mut counts: Vec<usize> = Vec::new();
    let mut proc: usize = 0;
    while proc < m
        invariant
            ps.wf(),
            pa == ps.possible_allocations@,
            sizes == ps.instance.job_sizes@,
            n == ps.instance.num_jobs,
            m == ps.instance.num_processors,
            proc <= m,
            counts.len() == proc,
            forall|p: int| 0 <= p < proc ==> #[trigger] counts@[p] == summands(pa, p, n as int),
            s@ == base + load_lines(pa, sizes, n as int, proc as int),
        decreases m - proc,
    {
        let ghost start = s@;
        let mut count: usize = 0;
        let mut job: usize = 0;
        while job < n
            invariant
                ps.wf(),
                pa == ps.possible_allocations@,
                sizes == ps.instance.job_sizes@,
                n == ps.instance.num_jobs,
                proc < m,
                job <= n,
                count == summands(pa, proc as int, job as int),
                count <= job,
                s@ == start + load_lines_of(pa, sizes, proc as int, job as int),
            decreases n - job,
        {
            if row_holds(&ps.possible_allocations[job], proc) {
                let ghost mid = s@;
                if count == 0 {
                    push_decimal(s, ps.instance.job_sizes[job]);
                } else {
                    push_pair_name(s, "makespan_", proc, count);
                    push_text(s, " + ");
                    push_decimal(s, ps.instance.job_sizes[job]);
                }
                push_pair_name(s, " a_", job, proc);
                push_pair_name(s, " - makespan_", proc, count + 1);
                push_text(s, " = 0\n");
                assert(s@ =~= mid + load_line(sizes, proc as int, job as int, count as int));
                count = count + 1;
            }
            job = job + 1;
        }
        counts.push(count);
        assert(s@ =~= base + load_lines(pa, sizes, n as int, proc + 1));
        proc = proc + 1;
    }
    counts
}

/// Appends the choice lines of all jobs.
fn push_choice_lines(s: &mut String, ps: &PartialSolution)
    requires
        ps.wf(),
    ensures
        final(s)@ == old(s)@ + choice_lines(ps.possible_allocations@, ps.instance.num_jobs as int),
{
    let ghost pa = ps.possible_allocations@;
    let ghost base = old(s)@;
    let mut job: usize = 0;
    while job < ps.instance.num_jobs
        invariant
            ps.wf(),
            pa == ps.possible_allocations@,
            job <= ps.instance.num_jobs,
            s@ == base + choice_lines(pa, job as int),
        decreases ps.instance.num_jobs - job,
    {
        let ghost start = s@;
        let mut t: usize = 0;
        while t < ps.possible_allocations[job].len()
            invariant
                ps.wf(),
                pa == ps.possible_allocations@,
                job < ps.instance.num_jobs,
                t <= pa[job as int]@.len(),
                s@ == start + choice_terms(pa, job as int, t as int),
            decreases pa[job as int]@.len() - t,
        {
            push_pair_name(s, "+ a_", job, ps.possible_allocations[job][t]);
            push_text(s, " ");
            assert(s@ =~= start + choice_terms(pa, job as int, t + 1));
            t = t + 1;
        }
        push_text(s, "= 1\n");
        assert(s@ =~= base + choice_lines(pa, job + 1));
        job = job + 1;
    }
}

/// Appends the limit lines of all processors.
fn push_limit_lines(s: &mut String, ps: &PartialSolution, counts: &Vec<usize>)
    requires
        ps.wf(),
        counts.len() == ps.instance.num_processors,
        forall|p: int| 0 <= p < ps.instance.num_processors ==> #[trigger] counts@[p] == summands(ps.possible_allocations@,
            p, ps.instance.num_jobs as int),
    ensures
        final(s)@ == old(s)@ + limit_lines(ps.possible_allocations@, ps.instance.num_jobs as int, ps.instance.num_processors as int),
{
    let ghost base = old(s)@;
    let mut proc: usize = 0;
    while proc < ps.instance.num_processors
        invariant
            ps.wf(),
            counts.len() == ps.instance.num_processors,
            forall|p: int| 0 <= p < ps.instance.num_processors ==> #[trigger] counts@[p] == summands(ps.possible_allocations@,
                p, ps.instance.num_jobs as int),
            proc <= ps.instance.num_processors,
            s@ == base + limit_lines(ps.possible_allocations@, ps.instance.num_jobs as int, proc as int),
        decreases ps.instance.num_processors - proc,
    {
        push_pair_name(s, "makespan_", proc, counts[proc]);
        push_text(s, " - makespan <= 0\n");
        assert(s@ =~= base + limit_lines(ps.possible_allocations@, ps.instance.num_jobs as int, proc + 1));
        proc = proc + 1;
    }
}

/// Appends the names of all choice variables.
fn push_choice_names(s: &mut String, ps: &PartialSolution)
    requires
        ps.wf(),
    ensures
        final(s)@ == old(s)@ + all_choice_names(ps.possible_allocations@, ps.instance.num_jobs as int),
{
    let ghost pa = ps.possible_allocations@;
    let ghost base = old(s)@;
    let mut job: usize = 0;
    while job < ps.instance.num_jobs
        invariant
            ps.wf(),
            pa == ps.possible_allocations@,
            job <= ps.instance.num_jobs,
            s@ == base + all_choice_names(pa, job as int),
        decreases ps.instance.num_jobs - job,
    {
        let ghost start = s@;
        let mut t: usize = 0;
        while t < ps.possible_allocations[job].len()
            invariant
                ps.wf(),
                pa == ps.possible_allocations@,
                job < ps.instance.num_jobs,
                t <= pa[job as int]@.len(),
                s@ == start + choice_names(pa, job as int, t as int),
            decreases pa[job as int]@.len() - t,
        {
            push_pair_name(s, " a_", job, ps.possible_allocations[job][t]);
            assert(s@ =~= start + choice_names(pa, job as int, t + 1));
            t = t + 1;
        }
        assert(s@ =~= base + all_choice_names(pa, job + 1));
        job = job + 1;
    }
}

impl ILPEncoder for Naive {
    open spec fn encode_requires(&self, partial_solution: &PartialSolution, lower_bounds: usize, makespan: usize) -> bool {
        partial_solution.wf()
    }

    open spec fn decode_requires(&self, instance: &ProblemInstance, solution: &HashMap<String, usize>) -> bool {
        walk_inputs(instance, solution)
    }

    /// Writes `direct_program` for the partial schedule, and succeeds.
    fn encode(
        &mut self,
        partial_solution: &PartialSolution,
        lower_bounds: usize,
        makespan: usize,
        timeout: &Timeout,
    ) -> (r: bool)
        ensures
            r,
            final(self).ordered() == old(self).ordered(),
            final(self).text() == direct_program(
                partial_solution.possible_allocations@,
                partial_solution.instance.job_sizes@,
                partial_solution.instance.num_jobs as int,
                partial_solution.instance.num_processors as int,
                lower_bounds as nat,
            ),
    {
        let mut formula = String::new();
        push_text(&mut formula, "Minimize\nmakespan\nSubject To\n");
        let counts = push_load_lines(&mut formula, partial_solution);
        push_choice_lines(&mut formula, partial_solution);
        push_limit_lines(&mut formula, partial_solution, &counts);
        push_text(&mut formula, "makespan >= ");
        push_decimal(&mut formula, lower_bounds);
        push_text(&mut formula, "\n");
        push_text(&mut formula, "Binaries\n");
        push_choice_names(&mut formula, partial_solution);
        push_text(&mut formula, "\nGenerals\nmakespan");
        push_text(&mut formula, "\nEnd\n");
        assert(formula@ =~= direct_program(
            partial_solution.possible_allocations@,
            partial_solution.instance.job_sizes@,
            partial_solution.instance.num_jobs as int,
            partial_solution.instance.num_processors as int,
            lower_bounds as nat,
        ));
        self.encoding = formula;
        true
    }

    /// The text of the last program; the encoder keeps an empty one.
    fn get_encoding(&mut self) -> (out: String)
        ensures
            out@ == old(self).text(),
            final(self).text() == Seq::<char>::empty(),
            final(self).ordered() == old(self).ordered(),
    {
        let mut out = String::new();
        std::mem::swap(&mut out, &mut self.encoding);
        out
    }

    /// The same reading as the arc-flow program's: the paths of `v_node_job` variables
    /// (see `walk_decode`).
    fn decode(&self, instance: &ProblemInstance, solution: HashMap<String, usize>) -> (s: Solution)
        ensures
            s.assignment@ == walked(solution_values(solution), instance.job_sizes@, instance.num_processors as int),
            s.makespan == solution_values(solution)["makespan"@],
    {
        walk_decode(instance, &solution)
    }
}

} // verus!
