//! Encoders that state the question as an integer linear program in the LP text format,
//! and read a schedule back from the values a solver gives the program's variables.
use vstd::prelude::*;
use std::collections::HashMap;
use std::fmt::Write;
use crate::common::common::calc_makespan;
use crate::common::common::lemma_load_le_total;
use crate::common::common::load;
use crate::common::common::max_load;
use crate::common::common::prefix_total;
use crate::common::timeout::Timeout;
use crate::problem_instance::partial_solution::PartialSolution;
use crate::problem_instance::problem_instance::ProblemInstance;
use crate::problem_instance::solution::Solution;

verus! {

/// The character of a decimal digit.
pub open spec fn digit_char(d: nat) -> char {
    (48 + d) as char
}

/// The decimal digits of `n`, the most significant first, with no leading zero.
pub open spec fn decimal(n: nat) -> Seq<char>
    decreases n,
{
    if n < 10 {
        seq![digit_char(n)]
    } else {
        decimal(n / 10).push(digit_char(n % 10))
    }
}

/// `prefix`, then `i`, an underscore and `j` in decimal: the name of a variable indexed
/// by a pair, such as the arc variable `v_i_j` of job `j` from node `i`.
pub open spec fn pair_name(prefix: Seq<char>, i: nat, j: nat) -> Seq<char> {
    prefix + decimal(i) + "_"@ + decimal(j)
}

/// The values a solver gave the variables of a program, by the variables' names.
pub uninterp spec fn solution_values(solution: HashMap<String, usize>) -> Map<Seq<char>, usize>;

/// Appends `text` with `String::push_str`.
#[verifier::external_body]
pub(crate) fn push_text(s: &mut String, text: &str)
    ensures
        final(s)@ == old(s)@ + text@,
{
    s.push_str(text);
}

/// Appends `n` as `Display` writes an unsigned integer: its decimal digits.
#[verifier::external_body]
pub(crate) fn push_decimal(s: &mut String, n: usize)
    ensures
        final(s)@ == old(s)@ + decimal(n as nat),
{
    let _ = write!(s, "{}", n);
}

/// Appends `prefix`, `i`, an underscore and `j`.
pub(crate) fn push_pair_name(s: &mut String, prefix: &str, i: usize, j: usize)
    ensures
        final(s)@ == old(s)@ + pair_name(prefix@, i as nat, j as nat),
{
    push_text(s, prefix);
    push_decimal(s, i);
    push_text(s, "_");
    push_decimal(s, j);
    assert(s@ =~= old(s)@ + pair_name(prefix@, i as nat, j as nat));
}

/// Whether `row` holds `x`.
pub(crate) fn row_holds(row: &Vec<usize>, x: usize) -> (b: bool)
    ensures
        b == row@.contains(x),
{
    let mut i: usize = 0;
    while i < row.len()
        invariant
            i <= row.len(),
            forall|t: int| 0 <= t < i ==> row@[t] != x,
        decreases row.len() - i,
    {
        if row[i] == x {
            return true;
        }
        i = i + 1;
    }
    false
}

/// The value of the variable `name` in `solution`, with `HashMap::get`.
#[verifier::external_body]
pub(crate) fn solution_get(solution: &HashMap<String, usize>, name: &str) -> (r: Option<usize>)
    ensures
        r is Some <==> solution_values(*solution).dom().contains(name@),
        r is Some ==> r->0 == solution_values(*solution)[name@],
{
    solution.get(name).copied()
}

/// The solver set the arc variable of `job` from `node` to 1.
pub open spec fn taken(values: Map<Seq<char>, usize>, node: int, job: int) -> bool {
    let name = pair_name("v_"@, node as nat, job as nat);
    values.dom().contains(name) && values[name] == 1
}

/// The first job among `0..k` that is still free and whose arc from `node` was taken.
pub open spec fn first_taken(values: Map<Seq<char>, usize>, node: int, free: Seq<bool>, k: int) -> Option<int>
    decreases k,
{
    if k <= 0 {
        None
    } else {
        match first_taken(values, node, free, k - 1) {
            Some(j) => Some(j),
            None => if free[k - 1] && taken(values, node, k - 1) {
                Some(k - 1)
            } else {
                None
            },
        }
    }
}

/// The path of processor `p` from `node`: while below `target`, the first free job whose
/// arc from the node was taken goes on `p`, and the path goes on at its end (it stops
/// after a job of size 0, and where no arc was taken).
pub open spec fn walk_path(
    values: Map<Seq<char>, usize>,
    sizes: Seq<usize>,
    target: int,
    p: int,
    free: Seq<bool>,
    assignment: Seq<usize>,
    node: int,
) -> (Seq<bool>, Seq<usize>)
    decreases (if node < target { target - node } else { 0 }),
{
    if node >= target {
        (free, assignment)
    } else {
        match first_taken(values, node, free, sizes.len() as int) {
            None => (free, assignment),
            Some(j) => {
                let free2 = free.update(j, false);
                let assignment2 = assignment.update(j, p as usize);
                if sizes[j] == 0 {
                    (free2, assignment2)
                } else {
                    walk_path(values, sizes, target, p, free2, assignment2, node + sizes[j])
                }
            },
        }
    }
}

/// The paths of the first `k` processors, one after the other, from all jobs free on
/// processor 0.
pub open spec fn walk_paths(values: Map<Seq<char>, usize>, sizes: Seq<usize>, target: int, k: int) -> (Seq<bool>, Seq<usize>)
    decreases k,
{
    if k <= 0 {
        (Seq::new(sizes.len(), |j: int| true), Seq::new(sizes.len(), |j: int| 0usize))
    } else {
        let (free, assignment) = walk_paths(values, sizes, target, k - 1);
        walk_path(values, sizes, target, k - 1, free, assignment, 0)
    }
}

/// The schedule that the solver's values give: the paths of all processors, up to the
/// value of `makespan`.
pub open spec fn walked(values: Map<Seq<char>, usize>, sizes: Seq<usize>, m: int) -> Seq<usize> {
    walk_paths(values, sizes, values["makespan"@] as int, m).1
}

/// The solutions whose paths can be read: a value for `makespan` within half a `usize`,
/// jobs whose sizes fit there and whose total fits a `usize`, and paths whose longest
/// load is that value.
pub open spec fn walk_inputs(instance: &ProblemInstance, solution: &HashMap<String, usize>) -> bool {
    let values = solution_values(*solution);
    let sizes = instance.job_sizes@;
    &&& instance.wf()
    &&& values.dom().contains("makespan"@)
    &&& values["makespan"@] <= usize::MAX / 2
    &&& forall|j: int| 0 <= j < instance.num_jobs ==> #[trigger] sizes[j] <= usize::MAX / 2
    &&& prefix_total(sizes, instance.num_jobs as int) <= usize::MAX
    &&& max_load(sizes, walked(values, sizes, instance.num_processors as int), instance.num_processors as int)
        == values["makespan"@]
}

/// The first free job among `0..n` whose arc from `node` the solver took.
fn find_taken(solution: &HashMap<String, usize>, node: usize, free: &Vec<bool>) -> (r: Option<usize>)
    ensures
        r is None <==> first_taken(solution_values(*solution), node as int, free@, free.len() as int) is None,
        r matches Some(j) ==> j < free.len() && first_taken(solution_values(*solution), node as int, free@, free.len() as int)
            == Some(j as int),
{
    let ghost values = solution_values(*solution);
    let mut job: usize = 0;
    while job < free.len()
        invariant
            values == solution_values(*solution),
            job <= free.len(),
            first_taken(values, node as int, free@, job as int) is None,
        decreases free.len() - job,
    {
        if free[job] {
            let mut name = String::new();
            push_pair_name(&mut name, "v_", node, job);
            let v = solution_get(solution, name.as_str());
            if v == Some(1usize) {
                assert(first_taken(values, node as int, free@, job + 1) == Some(job as int));
                proof {
                    lemma_first_taken_stays(values, node as int, free@, job + 1, free.len() as int);
                }
                return Some(job);
            }
        }
        job = job + 1;
    }
    None
}

/// Once a job is found among the first `k`, more jobs do not change it.
proof fn lemma_first_taken_stays(values: Map<Seq<char>, usize>, node: int, free: Seq<bool>, k: int, k2: int)
    requires
        k <= k2,
        first_taken(values, node, free, k) is Some,
    ensures
        first_taken(values, node, free, k2) == first_taken(values, node, free, k),
        first_taken(values, node, free, k)->0 < k,
    decreases k2 - k,
{
    if k < k2 {
        lemma_first_taken_stays(values, node, free, k, k2 - 1);
    } else {
        lemma_first_taken_below(values, node, free, k);
    }
}

/// A job found among the first `k` is one of them.
proof fn lemma_first_taken_below(values: Map<Seq<char>, usize>, node: int, free: Seq<bool>, k: int)
    requires
        first_taken(values, node, free, k) is Some,
    ensures
        0 <= first_taken(values, node, free, k)->0 < k,
    decreases k,
{
    if k > 0 && first_taken(values, node, free, k - 1) is Some {
        lemma_first_taken_below(values, node, free, k - 1);
    }
}

/// Reads the schedule from the solver's values: the paths of the processors in order,
/// each from node 0 up to the value of `makespan`, taking at each node the first free job
/// whose arc from it was taken.
pub fn walk_decode(instance: &ProblemInstance, solution: &HashMap<String, usize>) -> (s: Solution)
    requires
        walk_inputs(instance, solution),
    ensures
        s.assignment@ == walked(solution_values(*solution), instance.job_sizes@, instance.num_processors as int),
        s.makespan == solution_values(*solution)["makespan"@],
{
    let ghost values = solution_values(*solution);
    let ghost sizes = instance.job_sizes@;
    let n = instance.num_jobs;
    let m = instance.num_processors;
    let mut assignment: Vec<usize> = Vec::new();
    let mut free: Vec<bool> = Vec::new();
    let mut k: usize = 0;
    while k < n
        invariant
            k <= n,
            assignment@ == Seq::new(k as nat, |j: int| 0usize),
            free@ == Seq::new(k as nat, |j: int| true),
        decreases n - k,
    {
        assignment.push(0);
        free.push(true);
        assert(assignment@ =~= Seq::new((k + 1) as nat, |j: int| 0usize));
        assert(free@ =~= Seq::new((k + 1) as nat, |j: int| true));
        k = k + 1;
    }
    let target = match solution_get(solution, "makespan") {
        Some(v) => v,
        None => {
            assert(false);
            0
        },
    };
    let mut proc: usize = 0;
    while proc < m
        invariant
            walk_inputs(instance, solution),
            values == solution_values(*solution),
            sizes == instance.job_sizes@,
            n == instance.num_jobs,
            m == instance.num_processors,
            target == values["makespan"@],
            proc <= m,
            (free@, assignment@) == walk_paths(values, sizes, target as int, proc as int),
            free.len() == n,
            assignment.len() == n,
        decreases m - proc,
    {
        let ghost start = (free@, assignment@);
        let mut node: usize = 0;
        let mut going = true;
        while going && node < target
            invariant
                walk_inputs(instance, solution),
                values == solution_values(*solution),
                sizes == instance.job_sizes@,
                n == instance.num_jobs,
                proc < m,
                target == values["makespan"@],
                target <= usize::MAX / 2,
                free.len() == n,
                assignment.len() == n,
                start == walk_paths(values, sizes, target as int, proc as int),
                going ==> walk_path(values, sizes, target as int, proc as int, free@, assignment@, node as int)
                    == walk_path(values, sizes, target as int, proc as int, start.0, start.1, 0),
                !going ==> (free@, assignment@) == walk_path(values, sizes, target as int, proc as int, start.0, start.1, 0),
            decreases (if going { 1int } else { 0int }) + (if node < target { target - node } else { 0 }),
        {
            let ghost f0 = free@;
            let ghost a0 = assignment@;
            let ghost here = walk_path(values, sizes, target as int, proc as int, f0, a0, node as int);
            assert(sizes.len() == free.len());
            match find_taken(solution, node, &free) {
                None => {
                    assert(here == (f0, a0));
                    going = false;
                },
                Some(job) => {
                    free.set(job, false);
                    assignment.set(job, proc);
                    let size = instance.job_sizes[job];
                    if size == 0 {
                        assert(here == (free@, assignment@));
                        going = false;
                    } else {
                        assert(here == walk_path(values, sizes, target as int, proc as int, free@, assignment@, node + size));
                        node = node + size;
                    }
                },
            }
        }
        proof {
            if going {
                assert(walk_path(values, sizes, target as int, proc as int, free@, assignment@, node as int) == (free@, assignment@));
            }
        }
        proc = proc + 1;
    }
    proof {
        assert forall|p: int| 0 <= p < m implies #[trigger] load(instance.job_sizes@, assignment@, p, assignment@.len() as int) <= usize::MAX by {
            lemma_load_le_total(instance.job_sizes@, assignment@, p, n as int);
        }
    }
    let makespan = calc_makespan(instance, &assignment);
    Solution { makespan, assignment }
}

/// An encoder of the question "is there a schedule of at most `makespan`" as an integer
/// linear program, whose solution the same encoder reads back.
pub trait ILPEncoder {
    /// The inputs on which `encode` runs.
    spec fn encode_requires(&self, partial_solution: &PartialSolution, lower_bounds: usize, makespan: usize) -> bool;

    /// The solutions that `decode` can read.
    spec fn decode_requires(&self, instance: &ProblemInstance, solution: &HashMap<String, usize>) -> bool;

    /// Writes the program; `false` when it was not written.
    fn encode(
        &mut self,
        partial_solution: &PartialSolution,
        lower_bounds: usize,
        makespan: usize,
        timeout: &Timeout,
    ) -> (r: bool)
        requires
            old(self).encode_requires(partial_solution, lower_bounds, makespan),
    ;

    /// Hands out the text of the last program, leaving an empty one.
    fn get_encoding(&mut self) -> String;

    /// The schedule that the solver's values describe.
    fn decode(&self, instance: &ProblemInstance, solution: HashMap<String, usize>) -> Solution
        requires
            self.decode_requires(instance, &solution),
    ;
}

} // verus!
