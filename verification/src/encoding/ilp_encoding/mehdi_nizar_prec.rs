//! The arc-flow program: the time line `0..=makespan` is a row of nodes, and a job is an
//! arc from a node to the node its size further on. Each processor is a path from node 0;
//! each job is on exactly one path; no path is longer than the makespan, which the program
//! minimises. With precedences, jobs of the same size that stand next to each other start
//! in order.
use vstd::prelude::*;
use std::collections::HashMap;
use crate::common::timeout::Timeout;
use crate::encoding::ilp_encoder::ILPEncoder;
use crate::encoding::ilp_encoder::pair_name;
use crate::encoding::ilp_encoder::solution_values;
use crate::encoding::ilp_encoder::walk_decode;
use crate::encoding::ilp_encoder::walk_inputs;
use crate::encoding::ilp_encoder::walked;
use crate::encoding::ilp_encoder::decimal;
use crate::encoding::ilp_encoder::push_pair_name;
use crate::encoding::ilp_encoder::push_decimal;
use crate::encoding::ilp_encoder::push_text;
use crate::encoding::ilp_encoder::row_holds;
use crate::encoding::sat_encoding::mehdi_nizar_sat::arc;
use crate::encoding::sat_encoding::mehdi_nizar_sat::arc_table;
use crate::encoding::sat_encoding::mehdi_nizar_sat::arcs_from;
use crate::encoding::sat_encoding::mehdi_nizar_sat::lemma_arcs_from;
use crate::problem_instance::partial_solution::PartialSolution;
use crate::problem_instance::problem_instance::ProblemInstance;
use crate::problem_instance::solution::Solution;

verus! {

/// The jobs with an arc from node `i`, in order.
pub open spec fn out_arcs(sizes: Seq<usize>, mk: int, i: int) -> Seq<usize> {
    arcs_from(sizes, mk, i, sizes.len() as int)
}

/// `choices` holds, for every node `0..=mk`, the jobs with an arc from it.
pub open spec fn arc_rows(choices: Seq<Vec<usize>>, sizes: Seq<usize>, mk: int) -> bool {
    &&& choices.len() == mk + 1
    &&& forall|i: int| 0 <= i <= mk ==> (#[trigger] choices[i])@ == out_arcs(sizes, mk, i)
}

/// Another job of the same size stands just before or just after `job`.
pub open spec fn has_twin(sizes: Seq<usize>, job: int) -> bool {
    (job != 0 && sizes[job - 1] == sizes[job]) || (job != sizes.len() - 1 && sizes[job + 1] == sizes[job])
}

/// The line "the makespan reaches the end of the arc of `job` from node `i`", and with
/// precedences, where the job has a twin, the line "this arc sets the job's start to `i`".
pub open spec fn reach_line(sizes: Seq<usize>, prec: bool, i: int, job: int) -> Seq<char> {
    let line = "makespan - "@ + decimal((i + sizes[job]) as nat) + pair_name(" v_"@, i as nat, job as nat) + " >= 0\n"@;
    if prec && has_twin(sizes, job) {
        line + pair_name("v_"@, i as nat, job as nat) + " = 1 -> a_"@ + decimal(job as nat) + " = "@ + decimal(i as nat) + "\n"@
    } else {
        line
    }
}

/// The reach lines of the first `t` arcs from node `i`.
pub open spec fn reach_lines_from(sizes: Seq<usize>, mk: int, prec: bool, i: int, t: int) -> Seq<char>
    decreases t,
{
    if t <= 0 {
        Seq::empty()
    } else {
        reach_lines_from(sizes, mk, prec, i, t - 1) + reach_line(sizes, prec, i, out_arcs(sizes, mk, i)[t - 1] as int)
    }
}

/// The reach lines of the arcs from the first `k` nodes.
pub open spec fn reach_lines(sizes: Seq<usize>, mk: int, prec: bool, k: int) -> Seq<char>
    decreases k,
{
    if k <= 0 {
        Seq::empty()
    } else {
        reach_lines(sizes, mk, prec, k - 1) + reach_lines_from(sizes, mk, prec, k - 1, out_arcs(sizes, mk, k - 1).len() as int)
    }
}

/// The arcs from node `i` are jobs that end within the makespan.
proof fn lemma_out_arcs(sizes: Seq<usize>, mk: int, i: int)
    requires
        sizes.len() <= usize::MAX,
    ensures
        forall|t: int| 0 <= t < out_arcs(sizes, mk, i).len() ==> (#[trigger] out_arcs(sizes, mk, i)[t]) < sizes.len()
            && i + sizes[out_arcs(sizes, mk, i)[t] as int] <= mk,
{
    lemma_arcs_from(sizes, mk, i, sizes.len() as int);
}

/// Appends the reach lines of all arcs.
fn push_reach_lines(s: &mut String, choices: &Vec<Vec<usize>>, sizes: &Vec<usize>, mk: usize, prec: bool)
    requires
        arc_rows(choices@, sizes@, mk as int),
        mk + 1 <= usize::MAX / 8,
        forall|k: int| 0 <= k < sizes.len() ==> #[trigger] sizes@[k] <= usize::MAX / 2,
    ensures
        final(s)@ == old(s)@ + reach_lines(sizes@, mk as int, prec, mk + 1),
{
    let n = sizes.len();
    let mut i: usize = 0;
    while i <= mk
        invariant
            arc_rows(choices@, sizes@, mk as int),
            mk + 1 <= usize::MAX / 8,
            forall|k: int| 0 <= k < sizes.len() ==> #[trigger] sizes@[k] <= usize::MAX / 2,
            n == sizes.len(),
            i <= mk + 1,
            s@ == old(s)@ + reach_lines(sizes@, mk as int, prec, i as int),
        decreases mk + 1 - i,
    {
        let ghost row = out_arcs(sizes@, mk as int, i as int);
        proof {
            lemma_out_arcs(sizes@, mk as int, i as int);
        }
        let ghost before = s@;
        let mut t: usize = 0;
        while t < choices[i].len()
            invariant
                arc_rows(choices@, sizes@, mk as int),
                mk + 1 <= usize::MAX / 8,
                forall|k: int| 0 <= k < sizes.len() ==> #[trigger] sizes@[k] <= usize::MAX / 2,
                n == sizes.len(),
                i <= mk,
                row == out_arcs(sizes@, mk as int, i as int),
                choices@[i as int]@ == row,
                forall|t2: int| 0 <= t2 < row.len() ==> (#[trigger] row[t2]) < sizes.len() && i + sizes@[row[t2] as int] <= mk,
                t <= row.len(),
                s@ == before + reach_lines_from(sizes@, mk as int, prec, i as int, t as int),
            decreases row.len() - t,
        {
            let job = choices[i][t];
            let ghost mid = s@;
            let node_reached = i + sizes[job];
            push_text(s, "makespan - ");
            push_decimal(s, node_reached);
            push_pair_name(s, " v_", i, job);
            push_text(s, " >= 0\n");
            if prec {
                let twin = (job != 0 && sizes[job - 1] == sizes[job]) || (job != n - 1 && sizes[job + 1] == sizes[job]);
                if twin {
                    push_pair_name(s, "v_", i, job);
                    push_text(s, " = 1 -> a_");
                    push_decimal(s, job);
                    push_text(s, " = ");
                    push_decimal(s, i);
                    push_text(s, "\n");
                }
            }
            assert(s@ =~= mid + reach_line(sizes@, prec, i as int, job as int));
            t = t + 1;
        }
        i = i + 1;
    }
}

/// The terms `+ v_0_job ` of the arcs from node 0 after the first, up to the `k`-th arc.
pub open spec fn start_terms(sizes: Seq<usize>, mk: int, k: int) -> Seq<char>
    decreases k,
{
    if k <= 1 {
        Seq::empty()
    } else {
        start_terms(sizes, mk, k - 1) + pair_name("+ v_"@, 0, out_arcs(sizes, mk, 0)[k - 1] as nat) + " "@
    }
}

/// The line "`m` paths start at node 0": the variable of job 0 from node 0, then the
/// arcs from node 0 after the first.
pub open spec fn start_line(sizes: Seq<usize>, mk: int, m: nat) -> Seq<char> {
    "v_0_0 "@ + start_terms(sizes, mk, out_arcs(sizes, mk, 0).len() as int) + "= "@ + decimal(m) + "\n"@
}

/// Appends the start line.
fn push_start_line(s: &mut String, choices: &Vec<Vec<usize>>, sizes: &Vec<usize>, mk: usize, m: usize)
    requires
        arc_rows(choices@, sizes@, mk as int),
    ensures
        final(s)@ == old(s)@ + start_line(sizes@, mk as int, m as nat),
{
    let ghost row = out_arcs(sizes@, mk as int, 0);
    assert(choices@[0]@ == row);
    let ghost base = old(s)@;
    push_text(s, "v_0_0 ");
    let mut t: usize = 1;
    while t < choices[0].len()
        invariant
            arc_rows(choices@, sizes@, mk as int),
            choices@[0]@ == row,
            1 <= t,
            t <= row.len() || t == 1,
            s@ == base + "v_0_0 "@ + start_terms(sizes@, mk as int, t as int),
        decreases choices@[0].len() - t,
    {
        let ghost mid = s@;
        push_pair_name(s, "+ v_", 0, choices[0][t]);
        push_text(s, " ");
        assert(s@ =~= mid + (pair_name("+ v_"@, 0, row[t as int] as nat) + " "@));
        assert(s@ =~= base + "v_0_0 "@ + start_terms(sizes@, mk as int, t + 1));
        t = t + 1;
    }
    assert(start_terms(sizes@, mk as int, row.len() as int) == start_terms(sizes@, mk as int, t as int));
    push_text(s, "= ");
    push_decimal(s, m);
    push_text(s, "\n");
    assert(s@ =~= base + start_line(sizes@, mk as int, m as nat));
}

/// The arcs among the first `t` from node `i` that end at node `x`, as (node, job).
pub open spec fn arcs_into_from(sizes: Seq<usize>, mk: int, x: int, i: int, t: int) -> Seq<(usize, usize)>
    decreases t,
{
    if t <= 0 {
        Seq::empty()
    } else {
        let job = out_arcs(sizes, mk, i)[t - 1];
        let rest = arcs_into_from(sizes, mk, x, i, t - 1);
        if i + sizes[job as int] == x {
            rest.push((i as usize, job))
        } else {
            rest
        }
    }
}

/// The arcs from the first `k` nodes that end at node `x`, in order of node, then job.
pub open spec fn arcs_into(sizes: Seq<usize>, mk: int, x: int, k: int) -> Seq<(usize, usize)>
    decreases k,
{
    if k <= 0 {
        Seq::empty()
    } else {
        arcs_into(sizes, mk, x, k - 1) + arcs_into_from(sizes, mk, x, k - 1, out_arcs(sizes, mk, k - 1).len() as int)
    }
}

/// For every node, the arcs that end there.
fn arcs_by_end(choices: &Vec<Vec<usize>>, sizes: &Vec<usize>, mk: usize) -> (ends: Vec<Vec<(usize, usize)>>)
    requires
        arc_rows(choices@, sizes@, mk as int),
        mk + 1 <= usize::MAX / 8,
        forall|k: int| 0 <= k < sizes.len() ==> #[trigger] sizes@[k] <= usize::MAX / 2,
    ensures
        ends.len() == mk + 1,
        forall|x: int| 0 <= x <= mk ==> (#[trigger] ends@[x])@ == arcs_into(sizes@, mk as int, x, mk + 1),
{
    let mut ends: Vec<Vec<(usize, usize)>> = Vec::new();
    let mut x: usize = 0;
    while x <= mk
        invariant
            mk + 1 <= usize::MAX / 8,
            x <= mk + 1,
            ends.len() == x,
            forall|y: int| 0 <= y < x ==> (#[trigger] ends@[y])@ == arcs_into(sizes@, mk as int, y, 0),
        decreases mk + 1 - x,
    {
        ends.push(Vec::new());
        x = x + 1;
    }
    let mut i: usize = 0;
    while i <= mk
        invariant
            arc_rows(choices@, sizes@, mk as int),
            mk + 1 <= usize::MAX / 8,
            forall|k: int| 0 <= k < sizes.len() ==> #[trigger] sizes@[k] <= usize::MAX / 2,
            i <= mk + 1,
            ends.len() == mk + 1,
            forall|y: int| 0 <= y <= mk ==> (#[trigger] ends@[y])@ == arcs_into(sizes@, mk as int, y, i as int),
        decreases mk + 1 - i,
    {
        let ghost row = out_arcs(sizes@, mk as int, i as int);
        proof {
            assert(sizes@.len() == sizes.len());
            lemma_out_arcs(sizes@, mk as int, i as int);
        }
        let mut t: usize = 0;
        while t < choices[i].len()
            invariant
                arc_rows(choices@, sizes@, mk as int),
                mk + 1 <= usize::MAX / 8,
                forall|k: int| 0 <= k < sizes.len() ==> #[trigger] sizes@[k] <= usize::MAX / 2,
                i <= mk,
                row == out_arcs(sizes@, mk as int, i as int),
                choices@[i as int]@ == row,
                forall|t2: int| 0 <= t2 < row.len() ==> (#[trigger] row[t2]) < sizes.len() && i + sizes@[row[t2] as int] <= mk,
                t <= row.len(),
                ends.len() == mk + 1,
                forall|y: int| 0 <= y <= mk ==> (#[trigger] ends@[y])@ == arcs_into(sizes@, mk as int, y, i as int)
                    + arcs_into_from(sizes@, mk as int, y, i as int, t as int),
            decreases row.len() - t,
        {
            let job = choices[i][t];
            let x = i + sizes[job];
            let ghost before = ends@;
            ends[x].push((i, job));
            proof {
                assert forall|y: int| 0 <= y <= mk implies (#[trigger] ends@[y])@ == arcs_into(sizes@, mk as int, y, i as int)
                    + arcs_into_from(sizes@, mk as int, y, i as int, t + 1) by {
                    if y == x {
                        assert(ends@[y]@ =~= arcs_into(sizes@, mk as int, y, i as int)
                            + arcs_into_from(sizes@, mk as int, y, i as int, t + 1));
                    } else {
                        assert(ends@[y] == before[y]);
                    }
                }
            }
            t = t + 1;
        }
        i = i + 1;
    }
    ends
}

/// The terms `- v_x_job ` of the first `t` arcs from node `x`.
pub open spec fn leave_terms(sizes: Seq<usize>, mk: int, x: int, t: int) -> Seq<char>
    decreases t,
{
    if t <= 0 {
        Seq::empty()
    } else {
        leave_terms(sizes, mk, x, t - 1) + pair_name("- v_"@, x as nat, out_arcs(sizes, mk, x)[t - 1] as nat) + " "@
    }
}

/// The terms `+ v_i_job ` of the first `t` arcs of `arcs`.
pub open spec fn enter_terms(arcs: Seq<(usize, usize)>, t: int) -> Seq<char>
    decreases t,
{
    if t <= 0 {
        Seq::empty()
    } else {
        enter_terms(arcs, t - 1) + pair_name("+ v_"@, arcs[t - 1].0 as nat, arcs[t - 1].1 as nat) + " "@
    }
}

/// The line "no more paths leave node `x` than arrive at it", where some arc leaves or
/// arrives.
pub open spec fn flow_line(sizes: Seq<usize>, mk: int, x: int) -> Seq<char> {
    let leaving = out_arcs(sizes, mk, x);
    let entering = arcs_into(sizes, mk, x, mk + 1);
    if leaving.len() == 0 && entering.len() == 0 {
        Seq::empty()
    } else {
        leave_terms(sizes, mk, x, leaving.len() as int) + enter_terms(entering, entering.len() as int) + ">= 0\n"@
    }
}

/// The flow lines of the nodes `1..k`.
pub open spec fn flow_lines(sizes: Seq<usize>, mk: int, k: int) -> Seq<char>
    decreases k,
{
    if k <= 1 {
        Seq::empty()
    } else {
        flow_lines(sizes, mk, k - 1) + flow_line(sizes, mk, k - 1)
    }
}

/// Appends the flow lines of the nodes strictly between 0 and the makespan.
fn push_flow_lines(s: &mut String, choices: &Vec<Vec<usize>>, sizes: &Vec<usize>, mk: usize)
    requires
        arc_rows(choices@, sizes@, mk as int),
        mk + 1 <= usize::MAX / 8,
        forall|k: int| 0 <= k < sizes.len() ==> #[trigger] sizes@[k] <= usize::MAX / 2,
    ensures
        final(s)@ == old(s)@ + flow_lines(sizes@, mk as int, mk as int),
{
    let ends = arcs_by_end(choices, sizes, mk);
    let ghost base = old(s)@;
    let mut x: usize = 1;
    while x < mk
        invariant
            arc_rows(choices@, sizes@, mk as int),
            ends.len() == mk + 1,
            forall|y: int| 0 <= y <= mk ==> (#[trigger] ends@[y])@ == arcs_into(sizes@, mk as int, y, mk + 1),
            1 <= x,
            x <= mk || x == 1,
            s@ == base + flow_lines(sizes@, mk as int, x as int),
        decreases mk - x,
    {
        let ghost leaving = out_arcs(sizes@, mk as int, x as int);
        let ghost entering = arcs_into(sizes@, mk as int, x as int, mk + 1);
        assert(choices@[x as int]@ == leaving);
        assert(ends@[x as int]@ == entering);
        let ghost start = s@;
        let mut t: usize = 0;
        while t < choices[x].len()
            invariant
                arc_rows(choices@, sizes@, mk as int),
                x < mk,
                choices@[x as int]@ == leaving,
                t <= leaving.len(),
                s@ == start + leave_terms(sizes@, mk as int, x as int, t as int),
            decreases leaving.len() - t,
        {
            let ghost mid = s@;
            push_pair_name(s, "- v_", x, choices[x][t]);
            push_text(s, " ");
            assert(s@ =~= start + leave_terms(sizes@, mk as int, x as int, t + 1));
            t = t + 1;
        }
        let ghost after_leave = s@;
        let mut e: usize = 0;
        while e < ends[x].len()
            invariant
                ends.len() == mk + 1,
                x < mk,
                ends@[x as int]@ == entering,
                e <= entering.len(),
                s@ == after_leave + enter_terms(entering, e as int),
            decreases entering.len() - e,
        {
            let (i2, job2) = ends[x][e];
            push_pair_name(s, "+ v_", i2, job2);
            push_text(s, " ");
            assert(s@ =~= after_leave + enter_terms(entering, e + 1));
            e = e + 1;
        }
        if choices[x].len() == 0 && ends[x].len() == 0 {
            assert(s@ =~= base + flow_lines(sizes@, mk as int, x + 1));
        } else {
            push_text(s, ">= 0\n");
            assert(s@ =~= base + flow_lines(sizes@, mk as int, x + 1));
        }
        x = x + 1;
    }
    assert(flow_lines(sizes@, mk as int, x as int) == flow_lines(sizes@, mk as int, mk as int));
}

/// The terms ` + v_i_job` of the nodes `1..k` with an arc of `job`.
pub open spec fn once_terms(sizes: Seq<usize>, mk: int, job: int, k: int) -> Seq<char>
    decreases k,
{
    if k <= 1 {
        Seq::empty()
    } else if out_arcs(sizes, mk, k - 1).contains(job as usize) {
        once_terms(sizes, mk, job, k - 1) + pair_name(" + v_"@, (k - 1) as nat, job as nat)
    } else {
        once_terms(sizes, mk, job, k - 1)
    }
}

/// The line "`job` is exactly one arc".
pub open spec fn once_line(sizes: Seq<usize>, mk: int, job: int) -> Seq<char> {
    pair_name("v_"@, 0, job as nat) + once_terms(sizes, mk, job, mk + 1) + " = 1\n"@
}

/// The once lines of the first `k` jobs.
pub open spec fn once_lines(sizes: Seq<usize>, mk: int, k: int) -> Seq<char>
    decreases k,
{
    if k <= 0 {
        Seq::empty()
    } else {
        once_lines(sizes, mk, k - 1) + once_line(sizes, mk, k - 1)
    }
}

/// Appends the once lines of all jobs.
fn push_once_lines(s: &mut String, choices: &Vec<Vec<usize>>, sizes: &Vec<usize>, mk: usize)
    requires
        arc_rows(choices@, sizes@, mk as int),
        mk + 1 <= usize::MAX / 8,
    ensures
        final(s)@ == old(s)@ + once_lines(sizes@, mk as int, sizes.len() as int),
{
    let ghost base = old(s)@;
    let mut job: usize = 0;
    while job < sizes.len()
        invariant
            arc_rows(choices@, sizes@, mk as int),
            mk + 1 <= usize::MAX / 8,
            job <= sizes.len(),
            s@ == base + once_lines(sizes@, mk as int, job as int),
        decreases sizes.len() - job,
    {
        let ghost start = s@;
        push_pair_name(s, "v_", 0, job);
        let ghost after_first = s@;
        let mut i: usize = 1;
        while i <= mk
            invariant
                arc_rows(choices@, sizes@, mk as int),
                mk + 1 <= usize::MAX / 8,
                job < sizes.len(),
                1 <= i <= mk + 1,
                s@ == after_first + once_terms(sizes@, mk as int, job as int, i as int),
            decreases mk + 1 - i,
        {
            assert(choices@[i as int]@ == out_arcs(sizes@, mk as int, i as int));
            if row_holds(&choices[i], job) {
                push_pair_name(s, " + v_", i, job);
                assert(s@ =~= after_first + once_terms(sizes@, mk as int, job as int, i + 1));
            }
            i = i + 1;
        }
        push_text(s, " = 1\n");
        assert(s@ =~= start + once_line(sizes@, mk as int, job as int));
        assert(s@ =~= base + once_lines(sizes@, mk as int, job + 1));
        job = job + 1;
    }
}

/// The lines "`job` starts no later than `job + 1`" for the jobs `0..k` whose next job
/// has the same size.
pub open spec fn order_lines(sizes: Seq<usize>, k: int) -> Seq<char>
    decreases k,
{
    if k <= 0 {
        Seq::empty()
    } else if sizes[k - 1] == sizes[k] {
        order_lines(sizes, k - 1) + "a_"@ + decimal((k - 1) as nat) + " - a_"@ + decimal(k as nat) + " <= 0\n"@
    } else {
        order_lines(sizes, k - 1)
    }
}

/// Appends the order lines of all jobs but the last.
fn push_order_lines(s: &mut String, sizes: &Vec<usize>)
    requires
        sizes.len() >= 1,
    ensures
        final(s)@ == old(s)@ + order_lines(sizes@, sizes.len() - 1),
{
    let ghost base = old(s)@;
    let mut job: usize = 0;
    while job < sizes.len() - 1
        invariant
            sizes.len() >= 1,
            job <= sizes.len() - 1,
            s@ == base + order_lines(sizes@, job as int),
        decreases sizes.len() - 1 - job,
    {
        if sizes[job] == sizes[job + 1] {
            push_text(s, "a_");
            push_decimal(s, job);
            push_text(s, " - a_");
            push_decimal(s, job + 1);
            push_text(s, " <= 0\n");
        }
        assert(s@ =~= base + order_lines(sizes@, job + 1));
        job = job + 1;
    }
}

/// The names ` v_i_job` of the first `t` arcs from node `i`.
pub open spec fn binaries_from(sizes: Seq<usize>, mk: int, i: int, t: int) -> Seq<char>
    decreases t,
{
    if t <= 0 {
        Seq::empty()
    } else {
        binaries_from(sizes, mk, i, t - 1) + pair_name(" v_"@, i as nat, out_arcs(sizes, mk, i)[t - 1] as nat)
    }
}

/// The names of the arcs from the first `k` nodes.
pub open spec fn binaries(sizes: Seq<usize>, mk: int, k: int) -> Seq<char>
    decreases k,
{
    if k <= 0 {
        Seq::empty()
    } else {
        binaries(sizes, mk, k - 1) + binaries_from(sizes, mk, k - 1, out_arcs(sizes, mk, k - 1).len() as int)
    }
}

/// Appends the names of all arcs.
fn push_binaries(s: &mut String, choices: &Vec<Vec<usize>>, sizes: &Vec<usize>, mk: usize)
    requires
        arc_rows(choices@, sizes@, mk as int),
        mk + 1 <= usize::MAX / 8,
    ensures
        final(s)@ == old(s)@ + binaries(sizes@, mk as int, mk + 1),
{
    let ghost base = old(s)@;
    let mut i: usize = 0;
    while i <= mk
        invariant
            arc_rows(choices@, sizes@, mk as int),
            mk + 1 <= usize::MAX / 8,
            i <= mk + 1,
            s@ == base + binaries(sizes@, mk as int, i as int),
        decreases mk + 1 - i,
    {
        let ghost row = out_arcs(sizes@, mk as int, i as int);
        assert(choices@[i as int]@ == row);
        let ghost start = s@;
        let mut t: usize = 0;
        while t < choices[i].len()
            invariant
                arc_rows(choices@, sizes@, mk as int),
                i <= mk,
                choices@[i as int]@ == row,
                t <= row.len(),
                s@ == start + binaries_from(sizes@, mk as int, i as int, t as int),
            decreases row.len() - t,
        {
            push_pair_name(s, " v_", i, choices[i][t]);
            assert(s@ =~= start + binaries_from(sizes@, mk as int, i as int, t + 1));
            t = t + 1;
        }
        assert(s@ =~= base + binaries(sizes@, mk as int, i + 1));
        i = i + 1;
    }
}

/// The names ` a_job` of the first `k` jobs.
pub open spec fn start_names(k: int) -> Seq<char>
    decreases k,
{
    if k <= 0 {
        Seq::empty()
    } else {
        start_names(k - 1) + " a_"@ + decimal((k - 1) as nat)
    }
}

/// Appends the names of the first `n` jobs' starts.
fn push_start_names(s: &mut String, n: usize)
    ensures
        final(s)@ == old(s)@ + start_names(n as int),
{
    let ghost base = old(s)@;
    let mut i: usize = 0;
    while i < n
        invariant
            i <= n,
            s@ == base + start_names(i as int),
        decreases n - i,
    {
        push_text(s, " a_");
        push_decimal(s, i);
        assert(s@ =~= base + start_names(i + 1));
        i = i + 1;
    }
}

/// The program for jobs of `sizes` on `m` processors: minimise the makespan, at least
/// `lb`; the reach lines; the start line; the flow lines; the once lines; with
/// precedences the order lines; the arc variables binary; the makespan (and with
/// precedences the starts) integer.
pub open spec fn arc_flow_program(sizes: Seq<usize>, m: nat, lb: nat, mk: int, prec: bool) -> Seq<char> {
    "Minimize\nmakespan\nSubject To\n"@ + "makespan >= "@ + decimal(lb) + "\n"@
        + reach_lines(sizes, mk, prec, mk + 1)
        + start_line(sizes, mk, m)
        + flow_lines(sizes, mk, mk)
        + once_lines(sizes, mk, sizes.len() as int)
        + (if prec { order_lines(sizes, sizes.len() - 1) } else { Seq::empty() })
        + "Binaries\n"@
        + binaries(sizes, mk, mk + 1)
        + "\nGenerals\nmakespan"@
        + (if prec { start_names(sizes.len() as int) } else { Seq::empty() })
        + "\nEnd\n"@
}

#[derive(Clone)]
pub struct MehdiNizarOrderEncoder {
    encoding: String,
    prec: bool,
}

impl MehdiNizarOrderEncoder {
    /// The program text of the last encoding.
    pub closed spec fn text(&self) -> Seq<char> {
        self.encoding@
    }

    /// Whether same-size neighbours are ordered.
    pub closed spec fn ordered(&self) -> bool {
        self.prec
    }

    pub fn new() -> (e: MehdiNizarOrderEncoder)
        ensures
            e.text() == Seq::<char>::empty(),
            !e.ordered(),
    {
        MehdiNizarOrderEncoder { encoding: String::new(), prec: false }
    }

    pub fn new_prec() -> (e: MehdiNizarOrderEncoder)
        ensures
            e.text() == Seq::<char>::empty(),
            e.ordered(),
    {
        MehdiNizarOrderEncoder { encoding: String::new(), prec: true }
    }
}

impl ILPEncoder for MehdiNizarOrderEncoder {
    /// Jobs of sizes within half a `usize`, nodes that fit a bit-vector, and with
    /// precedences at least one job.
    open spec fn encode_requires(&self, partial_solution: &PartialSolution, lower_bounds: usize, makespan: usize) -> bool {
        &&& partial_solution.instance.wf()
        &&& makespan + 1 <= usize::MAX / 8
        &&& forall|k: int| 0 <= k < partial_solution.instance.num_jobs ==> #[trigger] partial_solution.instance.job_sizes@[k]
            <= usize::MAX / 2
        &&& self.ordered() ==> partial_solution.instance.num_jobs >= 1
    }

    open spec fn decode_requires(&self, instance: &ProblemInstance, solution: &HashMap<String, usize>) -> bool {
        walk_inputs(instance, solution)
    }

    /// Writes `arc_flow_program` for the instance, and succeeds.
    fn encode(
        &mut self,
        partial_solution: &PartialSolution,
        lower_bounds: usize,
        makespan: usize,
        timeout: &Timeout,
    ) -> (r: bool)
        ensures
            r,
            final(self).ordered() == old(self).ordered(),
            final(self).text() == arc_flow_program(
                partial_solution.instance.job_sizes@,
                partial_solution.instance.num_processors as nat,
                lower_bounds as nat,
                makespan as int,
                old(self).ordered(),
            ),
    {
        let sizes = &partial_solution.instance.job_sizes;
        let choices = arc_table(sizes, makespan);
        let mut formula = String::new();
        push_text(&mut formula, "Minimize\nmakespan\nSubject To\n");
        // a bound that the arcs alone do not give
        push_text(&mut formula, "makespan >= ");
        push_decimal(&mut formula, lower_bounds);
        push_text(&mut formula, "\n");
        push_reach_lines(&mut formula, &choices, sizes, makespan, self.prec);
        push_start_line(&mut formula, &choices, sizes, makespan, partial_solution.instance.num_processors);
        push_flow_lines(&mut formula, &choices, sizes, makespan);
        push_once_lines(&mut formula, &choices, sizes, makespan);
        if self.prec {
            push_order_lines(&mut formula, sizes);
        }
        push_text(&mut formula, "Binaries\n");
        push_binaries(&mut formula, &choices, sizes, makespan);
        push_text(&mut formula, "\nGenerals\nmakespan");
        if self.prec {
            push_start_names(&mut formula, partial_solution.instance.num_jobs);
        }
        push_text(&mut formula, "\nEnd\n");
        assert(formula@ =~= arc_flow_program(
            partial_solution.instance.job_sizes@,
            partial_solution.instance.num_processors as nat,
            lower_bounds as nat,
            makespan as int,
            self.prec,
        ));
        self.encoding = formula;
        true
    }

    /// The text of the last program; the encoder keeps an empty one.
    fn get_encoding(&mut self) -> (out: String)
        ensures
            out@ == old(self).text(),
            final(self).text() == Seq::<char>::empty(),
            final(self).ordered() == old(self).ordered(),
    {
        let mut out = String::new();
        std::mem::swap(&mut out, &mut self.encoding);
        out
    }

    /// The paths that the solver's values give (see `walk_decode`).
    fn decode(&self, instance: &ProblemInstance, solution: HashMap<String, usize>) -> (s: Solution)
        ensures
            s.assignment@ == walked(solution_values(solution), instance.job_sizes@, instance.num_processors as int),
            s.makespan == solution_values(solution)["makespan"@],
    {
        walk_decode(instance, &solution)
    }
}

} // verus!
