//! Decision diagrams whose nodes carry the range of partial sums they stand for, numbered
//! by a table shared between processors, so that the nodes of two diagrams that stand for
//! the same range of the same job can be matched.
use vstd::prelude::*;
use std::collections::HashMap;
use crate::bdd::bdd::Node;
use crate::bdd::bdd::accepts;
use crate::bdd::bdd::var_weights_ok;
use crate::bdd::bdd::job_listed;
use crate::bdd::bdd::pair_listed;
use crate::bdd::bdd::leq;
use crate::bdd::bdd::leq_inputs;
use crate::bdd::bdd::unnamed_above;
use crate::bdd::bdd::well_shaped;
use crate::common::timeout::Timeout;
use crate::encoding::encoder::Clause;
use crate::encoding::encoder::Clauses;
use crate::encoding::encoder::VarNameGenerator;
use crate::encoding::encoder::valid_var;
use crate::problem_instance::partial_solution::PartialSolution;

verus! {

broadcast use vstd::std_specs::hash::group_hash_axioms;

/// The pair of ranges that value `k` leads to in the row `r` of the next job, for a job of
/// size `s`: without the job and with it, `usize::MAX` past the makespan `mk`.
pub open spec fn class_pair(r: Seq<usize>, s: int, k: int, mk: int) -> (usize, usize) {
    (if k > mk { usize::MAX } else { r[k] }, if k + s > mk { usize::MAX } else { r[k + s] })
}

/// The pair that the pair of value `i + 1` is compared with: that of `i`, and at value 0
/// the ranges of the job's size and of zero.
pub open spec fn class_before(r: Seq<usize>, s: int, i: int, mk: int) -> (usize, usize) {
    if i == 0 {
        (r[s], r[0])
    } else {
        class_pair(r, s, i, mk)
    }
}

/// A range ends at value `i`.
pub open spec fn ends_at(r: Seq<usize>, s: int, i: int, mk: int) -> bool {
    class_pair(r, s, i + 1, mk) != class_before(r, s, i, mk)
}

/// How many ranges end below value `i`.
pub open spec fn ends_below(r: Seq<usize>, s: int, i: int, mk: int) -> nat
    decreases i,
{
    if i <= 0 {
        0
    } else {
        ends_below(r, s, i - 1, mk) + if ends_at(r, s, i - 1, mk) {
            1nat
        } else {
            0nat
        }
    }
}

/// The bounds of the ranges that end at a value from `i` on, the current one starting at
/// `from`.
pub open spec fn row_bounds(r: Seq<usize>, s: int, mk: int, i: int, from: int) -> Seq<(usize, usize)>
    decreases mk + 1 - i,
{
    if i > mk {
        Seq::empty()
    } else if ends_at(r, s, i, mk) {
        seq![(from as usize, i as usize)] + row_bounds(r, s, mk, i + 1, i + 1)
    } else {
        row_bounds(r, s, mk, i + 1, from)
    }
}

/// The range table of the jobs from `job` on: their rows (range of each value), how many
/// ranges there are, and the bounds of each range.
pub struct TableSpec {
    pub rows: Seq<Seq<usize>>,
    pub count: nat,
    pub bounds: Seq<(usize, usize)>,
}

/// The row of the last job: the values that leave room for it are range 0, the others
/// range 1.
pub open spec fn last_row(s: int, mk: int) -> Seq<usize> {
    Seq::new((mk + 1) as nat, |v: int| if v <= mk - s { 0usize } else { 1usize })
}

/// The range table of the jobs `job..` of `sizes` for the makespan `mk`. The last job has
/// two ranges; each earlier job numbers its ranges after those of the jobs behind it, a
/// new range beginning where the pair of ranges that a value leads to changes.
pub open spec fn table_from(sizes: Seq<usize>, mk: int, job: int) -> TableSpec
    decreases sizes.len() - job,
{
    if job >= sizes.len() - 1 {
        let s = sizes.last() as int;
        TableSpec {
            rows: seq![last_row(s, mk)],
            count: 2,
            bounds: seq![(0usize, (mk - s) as usize), ((mk - s + 1) as usize, mk as usize)],
        }
    } else {
        let t = table_from(sizes, mk, job + 1);
        let r = t.rows[0];
        let s = sizes[job] as int;
        TableSpec {
            rows: seq![Seq::new((mk + 1) as nat, |i: int| (t.count + ends_below(r, s, i, mk)) as usize)] + t.rows,
            count: t.count + ends_below(r, s, mk + 1, mk),
            bounds: t.bounds + row_bounds(r, s, mk, 0, 0),
        }
    }
}

/// The position of each job in `jobs`, the last one where a job occurs twice.
pub open spec fn position_map(jobs: Seq<usize>, k: int) -> Map<usize, usize>
    decreases k,
{
    if k <= 0 {
        Map::empty()
    } else {
        position_map(jobs, k - 1).insert(jobs[k - 1], (k - 1) as usize)
    }
}

/// The inputs of the range table: a job, every size within the makespan, and room for
/// the numbering.
pub open spec fn table_inputs(job_sizes: Seq<usize>, makespan: usize) -> bool {
    &&& job_sizes.len() >= 1
    &&& forall|j: int| 0 <= j < job_sizes.len() ==> #[trigger] job_sizes[j] <= makespan
    &&& makespan < usize::MAX / 2
    &&& job_sizes.len() * (makespan + 1) + 2 < usize::MAX
}

/// At most one range ends at each value.
proof fn lemma_ends_below(r: Seq<usize>, s: int, i: int, mk: int)
    requires
        i >= 0,
    ensures
        ends_below(r, s, i, mk) <= i,
    decreases i,
{
    if i > 0 {
        lemma_ends_below(r, s, i - 1, mk);
    }
}

/// The bounds from value `i` on are one per range that ends there.
proof fn lemma_row_bounds_len(r: Seq<usize>, s: int, mk: int, i: int, from: int)
    requires
        0 <= i <= mk + 1,
    ensures
        row_bounds(r, s, mk, i, from).len() + ends_below(r, s, i, mk) == ends_below(r, s, mk + 1, mk),
    decreases mk + 1 - i,
{
    if i <= mk {
        lemma_row_bounds_len(r, s, mk, i + 1, if ends_at(r, s, i, mk) { i + 1 } else { from });
    }
}

/// The shape of the table: one row of `mk + 1` entries per job, each entry below the count
/// of ranges, one bound per range, and not more ranges than values.
pub proof fn lemma_table_from(sizes: Seq<usize>, mk: int, job: int)
    requires
        sizes.len() >= 1,
        0 <= job < sizes.len(),
        mk >= 0,
        forall|j: int| 0 <= j < sizes.len() ==> #[trigger] sizes[j] <= mk,
        sizes.len() * (mk + 1) + 2 < usize::MAX,
    ensures
        ({
            let t = table_from(sizes, mk, job);
            &&& t.rows.len() == sizes.len() - job
            &&& forall|k: int| 0 <= k < t.rows.len() ==> (#[trigger] t.rows[k]).len() == mk + 1
            &&& forall|k: int, v: int| 0 <= k < t.rows.len() && 0 <= v <= mk ==> (#[trigger] t.rows[k][v]) < t.count
            &&& t.bounds.len() == t.count
            &&& 2 <= t.count <= 2 + (sizes.len() - 1 - job) * (mk + 1)
        }),
    decreases sizes.len() - job,
{
    if job < sizes.len() - 1 {
        lemma_table_from(sizes, mk, job + 1);
        let t = table_from(sizes, mk, job + 1);
        let r = t.rows[0];
        let s = sizes[job] as int;
        assert(r.len() == mk + 1);
        assert((sizes.len() - 1 - (job + 1)) * (mk + 1) <= sizes.len() * (mk + 1)) by (nonlinear_arith)
            requires
                0 <= job + 1 <= sizes.len() - 1,
                mk >= 0,
        ;
        assert(ends_at(r, s, mk, mk)) by {
            assert(r[mk] < t.count);
            if mk == 0 {
                assert(r[s] < t.count);
            }
        }
        lemma_ends_below(r, s, mk, mk);
        lemma_row_bounds_len(r, s, mk, 0, 0);
        let row = Seq::new((mk + 1) as nat, |i: int| (t.count + ends_below(r, s, i, mk)) as usize);
        let rows = seq![row] + t.rows;
        let count = t.count + ends_below(r, s, mk + 1, mk);
        assert forall|k: int, v: int| 0 <= k < rows.len() && 0 <= v <= mk implies (#[trigger] rows[k][v]) < count by {
            if k == 0 {
                lemma_ends_below(r, s, v, mk);
                if v < mk {
                    lemma_ends_monotone(r, s, v, mk, mk);
                }
            } else {
                assert(rows[k] == t.rows[k - 1]);
            }
        }
        assert forall|k: int| 0 <= k < rows.len() implies (#[trigger] rows[k]).len() == mk + 1 by {
            if k > 0 {
                assert(rows[k] == t.rows[k - 1]);
            }
        }
        assert((sizes.len() - 1 - (job + 1)) * (mk + 1) + (mk + 1) == (sizes.len() - 1 - job) * (mk + 1)) by (nonlinear_arith);
    }
}

/// Fewer ranges end below a smaller value.
proof fn lemma_ends_monotone(r: Seq<usize>, s: int, i: int, j: int, mk: int)
    requires
        0 <= i <= j,
    ensures
        ends_below(r, s, i, mk) <= ends_below(r, s, j, mk),
    decreases j - i,
{
    if i < j {
        lemma_ends_monotone(r, s, i, j - 1, mk);
    }
}

/// The ranges of partial sums, per job, that lead to the same decisions further on.
#[derive(Debug)]
pub struct RangeTable {
    ranges: Vec<Vec<usize>>,
    job_position: HashMap<usize, usize>,
    range_sizes: Vec<(usize, usize)>,
    makespan: usize,
}

impl RangeTable {
    /// The range of each value, per job (in the order of the sizes given).
    pub closed spec fn rows(&self) -> Seq<Seq<usize>> {
        Seq::new(self.ranges.len() as nat, |j: int| self.ranges@[j]@)
    }

    /// The position of each job among the jobs given.
    pub closed spec fn positions(&self) -> Map<usize, usize> {
        self.job_position@
    }

    /// The first and last value of each range.
    pub closed spec fn bounds(&self) -> Seq<(usize, usize)> {
        self.range_sizes@
    }

    /// The makespan that the table was made for.
    pub closed spec fn table_makespan(&self) -> usize {
        self.makespan
    }

    /// Every range named in a row has its bounds.
    pub open spec fn wf(&self) -> bool {
        forall|j: int, v: int| 0 <= j < self.rows().len() && 0 <= v < self.rows()[j].len() ==> (#[trigger] self.rows()[j][v])
            < self.bounds().len()
    }

    /// The table for the jobs `jobs` of sizes `job_sizes` (in the same order), for the
    /// makespan `makespan`.
    pub fn new(jobs: &Vec<usize>, job_sizes: &Vec<usize>, makespan: usize) -> (t: RangeTable)
        requires
            table_inputs(job_sizes@, makespan),
        ensures
            t.rows() == table_from(job_sizes@, makespan as int, 0).rows,
            t.bounds() == table_from(job_sizes@, makespan as int, 0).bounds,
            t.positions() == position_map(jobs@, jobs.len() as int),
            t.table_makespan() == makespan,
            t.wf(),
    {
        let ghost sizes = job_sizes@;
        let ghost mk = makespan as int;
        let len = job_sizes.len();
        let last = job_sizes[len - 1];
        proof {
            lemma_table_from(sizes, mk, len - 1);
        }
        let mut ranges: Vec<Vec<usize>> = Vec::new();
        let mut k: usize = 0;
        while k < len - 1
            invariant
                len >= 1,
                k <= len - 1,
                ranges.len() == k,
            decreases len - 1 - k,
        {
            ranges.push(Vec::new());
            k = k + 1;
        }
        let mut last_row_vec: Vec<usize> = Vec::new();
        let mut v: usize = 0;
        while v <= makespan
            invariant
                mk == makespan,
                last <= makespan < usize::MAX / 2,
                v <= makespan + 1,
                last_row_vec@ == last_row(last as int, mk).take(v as int),
            decreases makespan + 1 - v,
        {
            assert(last_row(last as int, mk)[v as int] == (if v <= makespan - last { 0usize } else { 1usize }));
            last_row_vec.push(if v <= makespan - last { 0 } else { 1 });
            proof {
                assert(last_row_vec@ =~= last_row(last as int, mk).take(v + 1));
            }
            v = v + 1;
        }
        assert(last_row_vec@ =~= last_row(last as int, mk));
        ranges.push(last_row_vec);
        let mut range_sizes: Vec<(usize, usize)> = Vec::new();
        range_sizes.push((0, makespan - last));
        range_sizes.push((makespan - last + 1, makespan));
        let mut range_num: usize = 2;
        let mut job: usize = len - 1;
        proof {
            assert(range_sizes@ =~= table_from(sizes, mk, job as int).bounds);
        }
        while job > 0
            invariant
                sizes == job_sizes@,
                mk == makespan,
                table_inputs(sizes, makespan),
                len == sizes.len(),
                job < len,
                ranges.len() == len,
                forall|k2: int| job <= k2 < len ==> (#[trigger] ranges@[k2])@ == table_from(sizes, mk, job as int).rows[k2 - job],
                range_num == table_from(sizes, mk, job as int).count,
                range_sizes@ == table_from(sizes, mk, job as int).bounds,
            decreases job,
        {
            job = job - 1;
            proof {
                lemma_table_from(sizes, mk, job + 1);
                lemma_table_from(sizes, mk, job as int);
                assert((len - 1 - (job + 1)) * (mk + 1) <= len * (mk + 1)) by (nonlinear_arith)
                    requires
                        0 <= job + 1 <= len - 1,
                        mk >= 0,
                ;
                assert((len - 1 - job) * (mk + 1) <= len * (mk + 1)) by (nonlinear_arith)
                    requires
                        0 <= job <= len - 1,
                        mk >= 0,
                ;
            }
            let ghost t = table_from(sizes, mk, job + 1);
            let ghost r = t.rows[0];
            let size = job_sizes[job];
            let ghost s = size as int;
            assert(ranges@[job + 1]@ == r);
            let mut previous_left = ranges[job + 1][size];
            let mut previous_right = ranges[job + 1][0];
            let mut last_range_end: usize = 0;
            let mut row: Vec<usize> = Vec::new();
            let ghost base = range_sizes@;
            proof {
                lemma_row_bounds_len(r, s, mk, 0, 0);
            }
            let mut i: usize = 0;
            while i <= makespan
                invariant
                    sizes == job_sizes@,
                    mk == makespan,
                    table_inputs(sizes, makespan),
                    len == sizes.len(),
                    job + 1 < len,
                    ranges.len() == len,
                    ranges@[job + 1]@ == r,
                    r == t.rows[0],
                    r.len() == mk + 1,
                    s == size as int,
                    size == sizes[job as int],
                    size <= makespan,
                    t == table_from(sizes, mk, job + 1),
                    t.count + ends_below(r, s, mk + 1, mk) == table_from(sizes, mk, job as int).count,
                    table_from(sizes, mk, job as int).count <= 2 + len * (mk + 1),
                    i <= makespan + 1,
                    row@ == Seq::new(i as nat, |v: int| (t.count + ends_below(r, s, v, mk)) as usize),
                    range_num == t.count + ends_below(r, s, i as int, mk),
                    (previous_left, previous_right) == class_before(r, s, i as int, mk),
                    last_range_end <= i,
                    range_sizes@ + row_bounds(r, s, mk, i as int, last_range_end as int) == base + row_bounds(r, s, mk, 0, 0),
                decreases makespan + 1 - i,
            {
                let new_right = if i + 1 + size > makespan {
                    usize::MAX
                } else {
                    ranges[job + 1][i + size + 1]
                };
                let new_left = if i + 1 > makespan {
                    usize::MAX
                } else {
                    ranges[job + 1][i + 1]
                };
                proof {
                    lemma_ends_monotone(r, s, i + 1, mk + 1, mk);
                }
                row.push(range_num);
                proof {
                    assert(row@ =~= Seq::new((i + 1) as nat, |v: int| (t.count + ends_below(r, s, v, mk)) as usize));
                }
                assert((new_left, new_right) == class_pair(r, s, i + 1, mk));
                if new_left != previous_left || new_right != previous_right {
                    assert(ends_at(r, s, i as int, mk));
                    range_sizes.push((last_range_end, i));
                    last_range_end = i + 1;
                    range_num = range_num + 1;
                } else {
                    assert(!ends_at(r, s, i as int, mk));
                }
                previous_left = new_left;
                previous_right = new_right;
                i = i + 1;
            }
            proof {
                assert(row_bounds(r, s, mk, i as int, last_range_end as int) =~= Seq::<(usize, usize)>::empty());
                assert(range_sizes@ =~= base + row_bounds(r, s, mk, 0, 0));
                assert(row@ =~= table_from(sizes, mk, job as int).rows[0]);
            }
            let ghost before = ranges@;
            ranges.set(job, row);
            proof {
                assert forall|k2: int| job <= k2 < len implies (#[trigger] ranges@[k2])@ == table_from(sizes, mk, job as int).rows[k2 - job] by {
                    if k2 > job {
                        assert(ranges@[k2] == before[k2]);
                        assert(table_from(sizes, mk, job as int).rows[k2 - job] == t.rows[k2 - job - 1]);
                    }
                }
            }
        }
        let mut job_position: HashMap<usize, usize> = HashMap::new();
        let mut i: usize = 0;
        while i < jobs.len()
            invariant
                i <= jobs.len(),
                job_position@ == position_map(jobs@, i as int),
            decreases jobs.len() - i,
        {
            job_position.insert(jobs[i], i);
            i = i + 1;
        }
        let out = RangeTable { ranges, job_position, range_sizes, makespan };
        proof {
            lemma_table_from(sizes, mk, 0);
            assert(out.rows() =~= table_from(sizes, mk, 0).rows);
        }
        out
    }

    /// The range of value `value` for job `job_num`; `None` when the job is not in the table.
    pub fn get_range(&self, job_num: usize, value: usize) -> (r: Option<usize>)
        requires
            self.positions().contains_key(job_num) ==> {
                let p = self.positions()[job_num] as int;
                &&& p < self.rows().len()
                &&& value < self.rows()[p].len()
            },
        ensures
            r == if self.positions().contains_key(job_num) {
                Some(self.rows()[self.positions()[job_num] as int][value as int])
            } else {
                None::<usize>
            },
    {
        let index = self.job_position.get(&job_num);
        match index {
            None => None,
            Some(i) => {
                let i = *i;
                Some(self.ranges[i][value])
            },
        }
    }

    /// The makespan that the table was made for.
    fn table_makespan_exec(&self) -> (r: usize)
        ensures
            r == self.table_makespan(),
    {
        self.makespan
    }

    /// The first and last value of range `range_num`.
    fn get_range_bound(&self, range_num: usize) -> (r: (usize, usize))
        requires
            range_num < self.bounds().len(),
        ensures
            r == self.bounds()[range_num as int],
    {
        self.range_sizes[range_num]
    }
}

/// The children of a node of a well-shaped diagram come before it.
proof fn lemma_children_below(nodes: Seq<Node>, k: int)
    requires
        well_shaped(nodes),
        2 <= k < nodes.len(),
    ensures
        nodes[k].left_child < k,
        nodes[k].right_child < k,
{
    assert(nodes[k].left_child < k && nodes[k].right_child < k);
}

/// A node of a diagram that also carries the number of the range of its first sum.
#[derive(Clone, Copy, Debug)]
pub struct DynNode {
    pub var: usize,
    pub aux_var: usize,
    pub range_num: usize,
    pub job_num: usize,
    pub range: (usize, usize),
    pub left_child: usize,
    pub right_child: usize,
}

/// A diagram of such nodes: node 0 is false, node 1 is true, and the root comes last.
#[derive(Debug)]
pub struct DynBDD {
    pub nodes: Vec<DynNode>,
}

/// A node without its range number.
pub open spec fn plain(d: DynNode) -> Node {
    Node { var: d.var, aux_var: d.aux_var, left_child: d.left_child, right_child: d.right_child, job_num: d.job_num, range: d.range }
}

/// The nodes without their range numbers.
pub open spec fn plain_nodes(s: Seq<DynNode>) -> Seq<Node> {
    Seq::new(s.len(), |i: int| plain(s[i]))
}

/// The table has a row, long enough for every sum up to `limit`, for each of the first `n`
/// jobs of `jobs`.
pub open spec fn table_covers(t: RangeTable, jobs: Seq<usize>, n: int, limit: int) -> bool {
    forall|k: int| 0 <= k < n ==> {
        &&& t.positions().contains_key(#[trigger] jobs[k])
        &&& t.positions()[jobs[k]] < t.rows().len()
        &&& t.rows()[t.positions()[jobs[k]] as int].len() > limit
    }
}

/// The range of the sum `value` for job `job` in the table.
pub open spec fn range_of(t: RangeTable, job: usize, value: usize) -> usize {
    t.rows()[t.positions()[job] as int][value as int]
}

/// The clauses of a diagram: the false node is false, the true node and the root are true,
/// and each node implies the child that its variable chooses.
pub open spec fn dyn_clauses(nodes: Seq<DynNode>) -> Seq<Seq<i32>> {
    seq![
        seq![(-(nodes[0].aux_var as int)) as i32],
        seq![nodes[1].aux_var as i32],
        seq![nodes.last().aux_var as i32],
    ] + Seq::new((nodes.len() - 2) as nat, |k: int| dyn_node_clauses(nodes, k + 2)).flatten()
}

/// The two clauses of node `i`.
pub open spec fn dyn_node_clauses(nodes: Seq<DynNode>, i: int) -> Seq<Seq<i32>> {
    let nd = nodes[i];
    seq![
        seq![nd.var as i32, (-(nd.aux_var as int)) as i32, nodes[nd.left_child as int].aux_var as i32],
        seq![(-(nd.var as int)) as i32, (-(nd.aux_var as int)) as i32, nodes[nd.right_child as int].aux_var as i32],
    ]
}

/// A diagram whose variables fit in a literal.
pub open spec fn dyn_encodable(nodes: Seq<DynNode>) -> bool {
    &&& well_shaped(plain_nodes(nodes))
    &&& forall|i: int| 0 <= i < nodes.len() ==> valid_var(#[trigger] nodes[i].aux_var as int)
    &&& forall|i: int| 2 <= i < nodes.len() ==> valid_var(#[trigger] nodes[i].var as int)
}

/// From position `j` on, the first node of `nodes2` that is not of an earlier job or an
/// earlier range than `n1` (or the end).
pub open spec fn first_not_before(n1: DynNode, nodes2: Seq<DynNode>, j: int) -> int
    decreases nodes2.len() - j,
{
    if j >= nodes2.len() || !(nodes2[j].job_num < n1.job_num || nodes2[j].range_num < n1.range_num) {
        j
    } else {
        first_not_before(n1, nodes2, j + 1)
    }
}

/// The node of `nodes2` that each node of `nodes1` from `i` on stands for (same job and
/// range), found by walking both in order from `j`; `usize::MAX` where there is none.
pub open spec fn matching(nodes1: Seq<DynNode>, nodes2: Seq<DynNode>, i: int, j: int) -> Seq<usize>
    decreases nodes1.len() - i,
{
    if i >= nodes1.len() {
        Seq::empty()
    } else {
        let j2 = first_not_before(nodes1[i], nodes2, j);
        if j2 < nodes2.len() && nodes2[j2].job_num == nodes1[i].job_num && nodes2[j2].range_num == nodes1[i].range_num {
            seq![j2 as usize] + matching(nodes1, nodes2, i + 1, j2 + 1)
        } else {
            seq![usize::MAX] + matching(nodes1, nodes2, i + 1, j2)
        }
    }
}

/// The clauses that a node reached in both diagrams does not take its job in the second.
pub open spec fn bijection_clauses(nodes1: Seq<DynNode>, nodes2: Seq<DynNode>, m: Seq<usize>, k: int) -> Seq<Seq<i32>>
    decreases k,
{
    if k <= 0 {
        Seq::empty()
    } else {
        let i = k - 1 + 2;
        let rest = bijection_clauses(nodes1, nodes2, m, k - 1);
        if m[k - 1] == usize::MAX {
            rest
        } else {
            let e = nodes2[m[k - 1] as int];
            rest.push(seq![(-(nodes1[i].aux_var as int)) as i32, (-(e.aux_var as int)) as i32, (-(e.var as int)) as i32])
        }
    }
}

/// The entries of `matching` are nodes of the second diagram, or `usize::MAX`.
proof fn lemma_matching(nodes1: Seq<DynNode>, nodes2: Seq<DynNode>, i: int, j: int)
    requires
        0 <= j <= nodes2.len(),
        0 <= i,
        nodes2.len() <= usize::MAX,
    ensures
        matching(nodes1, nodes2, i, j).len() == if i >= nodes1.len() { 0 } else { nodes1.len() - i },
        forall|t: int| 0 <= t < matching(nodes1, nodes2, i, j).len() ==> (#[trigger] matching(nodes1, nodes2, i, j)[t]
            == usize::MAX || j <= matching(nodes1, nodes2, i, j)[t] < nodes2.len()),
    decreases nodes1.len() - i,
{
    if i < nodes1.len() {
        let j2 = first_not_before(nodes1[i], nodes2, j);
        lemma_first_not_before(nodes1[i], nodes2, j);
        if j2 < nodes2.len() && nodes2[j2].job_num == nodes1[i].job_num && nodes2[j2].range_num == nodes1[i].range_num {
            lemma_matching(nodes1, nodes2, i + 1, j2 + 1);
            let rest = matching(nodes1, nodes2, i + 1, j2 + 1);
            assert forall|t: int| 0 <= t < (seq![j2 as usize] + rest).len() implies (#[trigger] (seq![j2 as usize] + rest)[t]
                == usize::MAX || j <= (seq![j2 as usize] + rest)[t] < nodes2.len()) by {
                if t == 0 {
                    assert((seq![j2 as usize] + rest)[0] == j2 as usize);
                } else {
                    assert((seq![j2 as usize] + rest)[t] == rest[t - 1]);
                }
            }
        } else {
            lemma_matching(nodes1, nodes2, i + 1, j2);
            let rest = matching(nodes1, nodes2, i + 1, j2);
            assert forall|t: int| 0 <= t < (seq![usize::MAX] + rest).len() implies (#[trigger] (seq![usize::MAX] + rest)[t]
                == usize::MAX || j <= (seq![usize::MAX] + rest)[t] < nodes2.len()) by {
                if t > 0 {
                    assert((seq![usize::MAX] + rest)[t] == rest[t - 1]);
                }
            }
        }
    }
}

proof fn lemma_first_not_before(n1: DynNode, nodes2: Seq<DynNode>, j: int)
    requires
        0 <= j <= nodes2.len(),
    ensures
        j <= first_not_before(n1, nodes2, j) <= nodes2.len(),
    decreases nodes2.len() - j,
{
    if j < nodes2.len() && (nodes2[j].job_num < n1.job_num || nodes2[j].range_num < n1.range_num) {
        lemma_first_not_before(n1, nodes2, j + 1);
    }
}

/// The jobs of the nodes in order, each run of one job once, the terminals left out.
pub open spec fn job_runs(nodes: Seq<DynNode>, k: int) -> Seq<usize>
    decreases k,
{
    if k <= 0 {
        Seq::empty()
    } else {
        let prev = job_runs(nodes, k - 1);
        let j = nodes[k - 1].job_num;
        if j != usize::MAX && (prev.len() == 0 || prev.last() != j) {
            prev.push(j)
        } else {
            prev
        }
    }
}

/// The nodes from `k` on, up to the first of job `next_job`, whose own last sum or whose
/// range ends at `fur_val`, each paired with `job`.
pub open spec fn fur_scan(
    nodes: Seq<DynNode>,
    bounds: Seq<(usize, usize)>,
    job: usize,
    next_job: usize,
    fur_val: int,
    k: int,
) -> Seq<(usize, usize)>
    decreases nodes.len() - k,
{
    if k >= nodes.len() {
        Seq::empty()
    } else {
        let nd = nodes[k];
        if nd.job_num == usize::MAX {
            fur_scan(nodes, bounds, job, next_job, fur_val, k + 1)
        } else if nd.job_num == next_job {
            Seq::empty()
        } else if fur_val == nd.range.1 || fur_val == bounds[nd.range_num as int].1 {
            seq![(job, nd.aux_var)] + fur_scan(nodes, bounds, job, next_job, fur_val, k + 1)
        } else {
            fur_scan(nodes, bounds, job, next_job, fur_val, k + 1)
        }
    }
}

/// The fill-up pairs of the runs of jobs from `i` on: for each job, the nodes before the
/// next job's at which exactly its size is left within the makespan `mk`.
pub open spec fn fur_pairs(
    nodes: Seq<DynNode>,
    bounds: Seq<(usize, usize)>,
    sizes: Seq<usize>,
    mk: int,
    runs: Seq<usize>,
    i: int,
) -> Seq<(usize, usize)>
    decreases runs.len() - i,
{
    if i >= runs.len() {
        Seq::empty()
    } else {
        let job = runs[i];
        let next = if i != runs.len() - 1 { runs[i + 1] } else { usize::MAX };
        fur_scan(nodes, bounds, job, next, mk - sizes[job as int], 0) + fur_pairs(nodes, bounds, sizes, mk, runs, i + 1)
    }
}

/// Some node among `0..k` is of job `j`, and `j` is a job.
pub open spec fn has_job_node(nodes: Seq<DynNode>, k: int, j: usize) -> bool {
    j != usize::MAX && exists|q: int| 0 <= q < k && nodes[q].job_num == j
}

/// Every job of a run is the job of some node.
pub proof fn lemma_job_runs(nodes: Seq<DynNode>, k: int)
    requires
        0 <= k <= nodes.len(),
    ensures
        forall|t: int| 0 <= t < job_runs(nodes, k).len() ==> has_job_node(nodes, k, #[trigger] job_runs(nodes, k)[t]),
    decreases k,
{
    if k > 0 {
        lemma_job_runs(nodes, k - 1);
        let prev = job_runs(nodes, k - 1);
        let j = nodes[k - 1].job_num;
        assert forall|t: int| 0 <= t < prev.len() implies has_job_node(nodes, k, #[trigger] prev[t]) by {
            assert(has_job_node(nodes, k - 1, prev[t]));
            let q = choose|q: int| 0 <= q < k - 1 && nodes[q].job_num == prev[t];
        }
        if j != usize::MAX && (prev.len() == 0 || prev.last() != j) {
            assert forall|t: int| 0 <= t < prev.push(j).len() implies has_job_node(nodes, k, #[trigger] prev.push(j)[t]) by {
                if t < prev.len() {
                    assert(prev.push(j)[t] == prev[t]);
                } else {
                    assert(nodes[k - 1].job_num == prev.push(j)[t]);
                }
            }
        }
    }
}

/// Every pair of `fur_scan` is the job given and the auxiliary variable of a node of a job.
proof fn lemma_fur_scan(
    nodes: Seq<DynNode>,
    bounds: Seq<(usize, usize)>,
    job: usize,
    next_job: usize,
    fur_val: int,
    k: int,
)
    requires
        0 <= k,
    ensures
        forall|t: int| 0 <= t < fur_scan(nodes, bounds, job, next_job, fur_val, k).len() ==> {
            let e = #[trigger] fur_scan(nodes, bounds, job, next_job, fur_val, k)[t];
            &&& e.0 == job
            &&& exists|q: int| 0 <= q < nodes.len() && nodes[q].aux_var == e.1 && nodes[q].job_num != usize::MAX
        },
    decreases nodes.len() - k,
{
    if k < nodes.len() {
        lemma_fur_scan(nodes, bounds, job, next_job, fur_val, k + 1);
        let rest = fur_scan(nodes, bounds, job, next_job, fur_val, k + 1);
        let nd = nodes[k];
        if nd.job_num != usize::MAX && nd.job_num != next_job && (fur_val == nd.range.1 || fur_val == bounds[nd.range_num as int].1) {
            let all = seq![(job, nd.aux_var)] + rest;
            assert forall|t: int| 0 <= t < all.len() implies {
                let e = #[trigger] all[t];
                &&& e.0 == job
                &&& exists|q: int| 0 <= q < nodes.len() && nodes[q].aux_var == e.1 && nodes[q].job_num != usize::MAX
            } by {
                if t == 0 {
                    assert(all[0] == (job, nd.aux_var));
                    assert(nodes[k].aux_var == all[0].1);
                } else {
                    assert(all[t] == rest[t - 1]);
                }
            }
        }
    }
}

/// Every pair of `fur_pairs` is a job of a run and the auxiliary variable of a node of a
/// job.
pub proof fn lemma_fur_pairs(
    nodes: Seq<DynNode>,
    bounds: Seq<(usize, usize)>,
    sizes: Seq<usize>,
    mk: int,
    runs: Seq<usize>,
    i: int,
)
    requires
        0 <= i,
    ensures
        forall|t: int| 0 <= t < fur_pairs(nodes, bounds, sizes, mk, runs, i).len() ==> {
            let e = #[trigger] fur_pairs(nodes, bounds, sizes, mk, runs, i)[t];
            &&& runs.contains(e.0)
            &&& exists|q: int| 0 <= q < nodes.len() && nodes[q].aux_var == e.1 && nodes[q].job_num != usize::MAX
        },
    decreases runs.len() - i,
{
    if i < runs.len() {
        let job = runs[i];
        let next = if i != runs.len() - 1 { runs[i + 1] } else { usize::MAX };
        let head = fur_scan(nodes, bounds, job, next, mk - sizes[job as int], 0);
        lemma_fur_scan(nodes, bounds, job, next, mk - sizes[job as int], 0);
        lemma_fur_pairs(nodes, bounds, sizes, mk, runs, i + 1);
        let rest = fur_pairs(nodes, bounds, sizes, mk, runs, i + 1);
        let all = head + rest;
        assert forall|t: int| 0 <= t < all.len() implies {
            let e = #[trigger] all[t];
            &&& runs.contains(e.0)
            &&& exists|q: int| 0 <= q < nodes.len() && nodes[q].aux_var == e.1 && nodes[q].job_num != usize::MAX
        } by {
            if t < head.len() {
                assert(all[t] == head[t]);
                assert(head[t].0 == job);
                assert(runs[i] == job);
            } else {
                assert(all[t] == rest[t - head.len()]);
            }
        }
    }
}

impl DynBDD {
    /// The diagram of `leq`, each node numbered with the range of its first sum in
    /// `range_table`; `None` when the time ran out. Its walks obey the law of `leq` under the
    /// same condition, and with distinct variables and each job listed at its own index the
    /// weight added at a node is that of its job (`lemma_distinct_vars_weights`,
    /// `lemma_node_job_weight`).
    pub fn leq(
        jobs: &Vec<usize>,
        vars: &Vec<usize>,
        weights: &Vec<usize>,
        limit: usize,
        with_fur_nodes: bool,
        already_assigned: usize,
        range_table: &RangeTable,
        timeout: &Timeout,
    ) -> (r: Option<DynBDD>)
        requires
            leq_inputs(jobs@, vars@, weights@, limit, with_fur_nodes, already_assigned),
            table_covers(*range_table, jobs@, vars.len() as int, limit as int),
        ensures
            r is Some ==> {
                let nodes = r->0.nodes@;
                let p = plain_nodes(nodes);
                &&& well_shaped(p)
                &&& forall|i: int| 0 <= i < nodes.len() ==> (#[trigger] nodes[i]).aux_var == 0
                &&& forall|i: int| 2 <= i < nodes.len() ==> vars@.contains(#[trigger] nodes[i].var)
                &&& nodes.last().var == vars[0]
                &&& nodes.last().job_num == jobs[0]
                &&& nodes.len() <= 3 + vars.len() * (limit + 1)
                &&& forall|i: int| 2 <= i < nodes.len() ==> job_listed(jobs@, vars.len() as int, (#[trigger] nodes[i]).job_num)
                &&& forall|i: int| 2 <= i < nodes.len() ==> pair_listed(jobs@, vars@, vars.len() as int, (#[trigger] nodes[i]).job_num, nodes[i].var)
                &&& forall|i: int| 2 <= i < nodes.len() ==> (#[trigger] nodes[i]).range.0 <= limit
                &&& nodes[0].range_num == usize::MAX && nodes[1].range_num == usize::MAX
                &&& nodes[0].job_num == usize::MAX && nodes[1].job_num == usize::MAX
                &&& forall|i: int| 2 <= i < nodes.len() ==> (#[trigger] nodes[i]).range_num == range_of(
                    *range_table,
                    nodes[i].job_num,
                    nodes[i].range.0,
                )
                &&& var_weights_ok(vars@, weights@, vars.len() as int) ==> accepts(p, vars@, weights@, vars.len() as int, limit as int,
                    nodes.len() - 1, already_assigned as int)
            },
    {
        let b = match leq(jobs, vars, weights, limit, with_fur_nodes, already_assigned, timeout) {
            Some(b) => b,
            None => {
                return None;
            },
        };
        let ghost n = vars.len() as int;
        let mut nodes: Vec<DynNode> = Vec::new();
        let mut i: usize = 0;
        while i < b.nodes.len()
            invariant
                n == vars.len(),
                table_covers(*range_table, jobs@, n, limit as int),
                forall|k: int| 2 <= k < b.nodes.len() ==> job_listed(jobs@, n, (#[trigger] b.nodes@[k]).job_num),
                forall|k: int| 2 <= k < b.nodes.len() ==> pair_listed(jobs@, vars@, n, (#[trigger] b.nodes@[k]).job_num, b.nodes@[k].var),
                forall|k: int| 2 <= k < b.nodes.len() ==> (#[trigger] b.nodes@[k]).range.0 <= limit,
                well_shaped(b.nodes@),
                forall|k: int| 0 <= k < b.nodes.len() ==> (#[trigger] b.nodes@[k]).aux_var == 0,
                forall|k: int| 2 <= k < b.nodes.len() ==> vars@.contains(#[trigger] b.nodes@[k].var),
                b.nodes@.last().var == vars[0],
                b.nodes@.last().job_num == jobs[0],
                b.nodes.len() <= 3 + vars.len() * (limit + 1),
                b.nodes@[0].job_num == usize::MAX && b.nodes@[1].job_num == usize::MAX,
                var_weights_ok(vars@, weights@, n) ==> accepts(b.nodes@, vars@, weights@, n, limit as int, b.nodes.len() - 1,
                    already_assigned as int),
                i <= b.nodes.len(),
                nodes.len() == i,
                forall|k: int| 0 <= k < i ==> plain(#[trigger] nodes@[k]) == b.nodes@[k],
                forall|k: int| 0 <= k < i && k < 2 ==> (#[trigger] nodes@[k]).range_num == usize::MAX,
                forall|k: int| 2 <= k < i ==> (#[trigger] nodes@[k]).range_num == range_of(
                    *range_table,
                    nodes@[k].job_num,
                    nodes@[k].range.0,
                ),
            decreases b.nodes.len() - i,
        {
            let nd = b.nodes[i];
            let range_num = if i < 2 {
                usize::MAX
            } else {
                proof {
                    assert(job_listed(jobs@, n, nd.job_num));
                    let t = choose|t: int| 0 <= t < n && jobs@[t] == nd.job_num;
                    assert(range_table.positions().contains_key(jobs@[t]));
                }
                match range_table.get_range(nd.job_num, nd.range.0) {
                    Some(x) => x,
                    None => {
                        proof {
                            assert(false);
                        }
                        usize::MAX
                    },
                }
            };
            nodes.push(
                DynNode {
                    var: nd.var,
                    aux_var: nd.aux_var,
                    range_num,
                    job_num: nd.job_num,
                    range: nd.range,
                    left_child: nd.left_child,
                    right_child: nd.right_child,
                },
            );
            i = i + 1;
        }
        proof {
            assert(plain_nodes(nodes@) =~= b.nodes@);
            assert forall|k: int| 0 <= k < nodes.len() implies #[trigger] plain(nodes@[k]) == b.nodes@[k] by {
            }
            assert(plain(nodes@[nodes.len() - 1]) == b.nodes@[b.nodes.len() - 1]);
            assert(plain(nodes@[0]) == b.nodes@[0]);
            assert(plain(nodes@[1]) == b.nodes@[1]);
            assert forall|k: int| 2 <= k < nodes.len() implies vars@.contains(#[trigger] nodes@[k].var) by {
                assert(plain(nodes@[k]) == b.nodes@[k]);
                assert(vars@.contains(b.nodes@[k].var));
            }
            assert forall|k: int| 0 <= k < nodes.len() implies (#[trigger] nodes@[k]).aux_var == 0 by {
                assert(plain(nodes@[k]) == b.nodes@[k]);
            }
            assert forall|k: int| 2 <= k < nodes.len() implies job_listed(jobs@, vars.len() as int, (#[trigger] nodes@[k]).job_num) by {
                assert(plain(nodes@[k]) == b.nodes@[k]);
            }
            assert forall|k: int| 2 <= k < nodes.len() implies pair_listed(jobs@, vars@, vars.len() as int, (#[trigger] nodes@[k]).job_num, nodes@[k].var) by {
                assert(plain(nodes@[k]) == b.nodes@[k]);
            }
            assert forall|k: int| 2 <= k < nodes.len() implies (#[trigger] nodes@[k]).range.0 <= limit by {
                assert(plain(nodes@[k]) == b.nodes@[k]);
            }
        }
        Some(DynBDD { nodes })
    }

    /// Gives every node without an auxiliary variable a fresh one, from the root down.
    pub fn assign_aux_vars(&mut self, var_name_generator: &mut VarNameGenerator)
        requires
            old(var_name_generator).spec_peek() + old(self).nodes.len() < usize::MAX,
        ensures
            final(self).nodes.len() == old(self).nodes.len(),
            forall|i: int| 0 <= i < old(self).nodes.len() ==> {
                let a = #[trigger] final(self).nodes@[i];
                let b = old(self).nodes@[i];
                &&& a.var == b.var && a.left_child == b.left_child && a.right_child == b.right_child
                &&& a.job_num == b.job_num && a.range == b.range && a.range_num == b.range_num
                &&& a.aux_var == if b.aux_var == 0 {
                    (old(var_name_generator).spec_peek() + unnamed_above(plain_nodes(old(self).nodes@), i)) as usize
                } else {
                    b.aux_var
                }
            },
            final(var_name_generator).spec_peek() == old(var_name_generator).spec_peek() + unnamed_above(
                plain_nodes(old(self).nodes@),
                -1,
            ),
    {
        let ghost orig = self.nodes@;
        let ghost po = plain_nodes(orig);
        let ghost start = var_name_generator.spec_peek();
        let mut i: usize = self.nodes.len();
        while i > 0
            invariant
                self.nodes.len() == orig.len(),
                po == plain_nodes(orig),
                i <= orig.len(),
                start + orig.len() < usize::MAX,
                var_name_generator.spec_peek() == start + unnamed_above(po, i - 1),
                forall|k: int| 0 <= k < i ==> #[trigger] self.nodes@[k] == orig[k],
                forall|k: int| i <= k < orig.len() ==> {
                    let a = #[trigger] self.nodes@[k];
                    let b = orig[k];
                    &&& a.var == b.var && a.left_child == b.left_child && a.right_child == b.right_child
                    &&& a.job_num == b.job_num && a.range == b.range && a.range_num == b.range_num
                    &&& a.aux_var == if b.aux_var == 0 { (start + unnamed_above(po, k)) as usize } else { b.aux_var }
                },
            decreases i,
        {
            proof {
                crate::bdd::bdd::lemma_unnamed_above_pub(po, i - 1);
                assert(po[i - 1] == plain(orig[i - 1]));
            }
            i = i - 1;
            if self.nodes[i].aux_var == 0 {
                let v = var_name_generator.next();
                let mut node = self.nodes[i];
                node.aux_var = v;
                self.nodes.set(i, node);
            }
        }
    }

    /// The clauses that say, for every node of this diagram that has a node of the same job
    /// and range in `bdd2`, that the two are not both reached with the job taken in
    /// `bdd2`: of two processors at an equivalent load, a job goes to the first.
    pub fn encode_bdd_bijective_relation(&self, bdd2: &DynBDD) -> (clauses: Clauses)
        requires
            dyn_encodable(self.nodes@),
            dyn_encodable(bdd2.nodes@),
        ensures
            clauses.wf(),
            clauses@ == bijection_clauses(
                self.nodes@,
                bdd2.nodes@,
                matching(self.nodes@, bdd2.nodes@, 2, 2),
                self.nodes.len() - 2,
            ),
    {
        let ghost n1 = self.nodes@;
        let ghost n2 = bdd2.nodes@;
        let ghost m = matching(n1, n2, 2, 2);
        let len1 = self.nodes.len();
        let len2 = bdd2.nodes.len();
        proof {
            lemma_matching(n1, n2, 2, 2);
        }
        let mut bijection: Vec<usize> = vec![0, 1];
        let mut bdd2_i: usize = 2;
        let mut bdd1_i: usize = 2;
        assert(bijection@ =~= seq![0usize, 1usize]);
        while bdd1_i < len1
            invariant
                n1 == self.nodes@,
                n2 == bdd2.nodes@,
                len1 == n1.len(),
                len2 == n2.len(),
                len1 >= 3,
                len2 >= 3,
                2 <= bdd1_i <= len1,
                2 <= bdd2_i <= len2,
                bijection.len() == bdd1_i,
                seq![0usize, 1usize] + m == bijection@ + matching(n1, n2, bdd1_i as int, bdd2_i as int),
            decreases len1 - bdd1_i,
        {
            let ghost j0 = bdd2_i as int;
            let job1 = self.nodes[bdd1_i].job_num;
            let range1 = self.nodes[bdd1_i].range_num;
            while bdd2_i != len2 && (bdd2.nodes[bdd2_i].job_num < job1 || bdd2.nodes[bdd2_i].range_num < range1)
                invariant
                    n2 == bdd2.nodes@,
                    len2 == n2.len(),
                    bdd1_i < len1,
                    job1 == n1[bdd1_i as int].job_num,
                    range1 == n1[bdd1_i as int].range_num,
                    j0 <= bdd2_i <= len2,
                    first_not_before(n1[bdd1_i as int], n2, j0) == first_not_before(n1[bdd1_i as int], n2, bdd2_i as int),
                decreases len2 - bdd2_i,
            {
                bdd2_i = bdd2_i + 1;
            }
            let ghost rest = matching(n1, n2, bdd1_i as int, j0);
            if bdd2_i != len2 && bdd2.nodes[bdd2_i].job_num == job1 && bdd2.nodes[bdd2_i].range_num == range1 {
                proof {
                    assert(rest == seq![bdd2_i as usize] + matching(n1, n2, bdd1_i + 1, bdd2_i + 1));
                }
                bijection.push(bdd2_i);
                bdd2_i = bdd2_i + 1;
            } else {
                proof {
                    assert(rest == seq![usize::MAX] + matching(n1, n2, bdd1_i + 1, bdd2_i as int));
                }
                bijection.push(usize::MAX);
            }
            proof {
                assert(seq![0usize, 1usize] + m =~= bijection@ + matching(n1, n2, bdd1_i + 1, bdd2_i as int));
            }
            bdd1_i = bdd1_i + 1;
        }
        proof {
            assert(matching(n1, n2, len1 as int, bdd2_i as int) =~= Seq::<usize>::empty());
            assert forall|t: int| 2 <= t < len1 implies #[trigger] bijection@[t] == m[t - 2] by {
                assert((seq![0usize, 1usize] + m)[t] == m[t - 2]);
            }
        }
        let mut clauses = Clauses::new();
        let mut k: usize = 2;
        while k < len1
            invariant
                n1 == self.nodes@,
                n2 == bdd2.nodes@,
                len1 == n1.len(),
                len2 == n2.len(),
                dyn_encodable(n1),
                dyn_encodable(n2),
                m == matching(n1, n2, 2, 2),
                m.len() == len1 - 2,
                forall|t: int| 0 <= t < m.len() ==> (#[trigger] m[t] == usize::MAX || 2 <= m[t] < len2),
                bijection.len() == len1,
                forall|t: int| 2 <= t < len1 ==> #[trigger] bijection@[t] == m[t - 2],
                2 <= k <= len1,
                clauses.wf(),
                clauses@ == bijection_clauses(n1, n2, m, k - 2),
            decreases len1 - k,
        {
            let b = bijection[k];
            assert(b == m[k - 2]);
            if b != usize::MAX {
                let node = self.nodes[k];
                let equiv = bdd2.nodes[b];
                assert(valid_var(node.aux_var as int) && valid_var(equiv.aux_var as int) && valid_var(equiv.var as int));
                let l1 = -(node.aux_var as i32);
                let l2 = -(equiv.aux_var as i32);
                let l3 = -(equiv.var as i32);
                let c = Clause { vars: vec![l1, l2, l3] };
                proof {
                    assert(c.vars@ =~= seq![(-(node.aux_var as int)) as i32, (-(equiv.aux_var as int)) as i32, (-(equiv.var as int)) as i32]);
                }
                clauses.add_clause(c);
            }
            k = k + 1;
        }
        clauses
    }

    /// The fill-up pairs: for each job of the diagram (in the order of its runs of nodes),
    /// the auxiliary variables of the nodes before the next job's whose own last sum or whose
    /// range ends where exactly the job's size is left within the table's makespan.
    pub fn get_fur_vars(&self, range_table: &RangeTable, solution: &PartialSolution) -> (out: Vec<(usize, usize)>)
        requires
            forall|k: int| 0 <= k < self.nodes.len() && (#[trigger] self.nodes@[k]).job_num != usize::MAX ==> {
                &&& self.nodes@[k].range_num < range_table.bounds().len()
                &&& self.nodes@[k].job_num < solution.instance.job_sizes.len()
                &&& solution.instance.job_sizes@[self.nodes@[k].job_num as int] <= range_table.table_makespan()
            },
        ensures
            out@ == fur_pairs(
                self.nodes@,
                range_table.bounds(),
                solution.instance.job_sizes@,
                range_table.table_makespan() as int,
                job_runs(self.nodes@, self.nodes.len() as int),
                0,
            ),
    {
        let ghost nodes = self.nodes@;
        let mut jobs_in_bdd: Vec<usize> = Vec::new();
        let mut k: usize = 0;
        while k < self.nodes.len()
            invariant
                nodes == self.nodes@,
                k <= nodes.len(),
                jobs_in_bdd@ == job_runs(nodes, k as int),
            decreases nodes.len() - k,
        {
            let j = self.nodes[k].job_num;
            if j != usize::MAX && (jobs_in_bdd.len() == 0 || jobs_in_bdd[jobs_in_bdd.len() - 1] != j) {
                jobs_in_bdd.push(j);
            }
            k = k + 1;
        }
        let ghost runs = jobs_in_bdd@;
        let ghost bounds = range_table.bounds();
        let ghost sizes = solution.instance.job_sizes@;
        let ghost mk = range_table.table_makespan() as int;
        proof {
            lemma_job_runs(nodes, nodes.len() as int);
        }
        let mut out: Vec<(usize, usize)> = Vec::new();
        let mut i: usize = 0;
        while i < jobs_in_bdd.len()
            invariant
                nodes == self.nodes@,
                runs == jobs_in_bdd@,
                runs == job_runs(nodes, nodes.len() as int),
                bounds == range_table.bounds(),
                sizes == solution.instance.job_sizes@,
                mk == range_table.table_makespan(),
                forall|t: int| 0 <= t < runs.len() ==> has_job_node(nodes, nodes.len() as int, #[trigger] runs[t]),
                forall|k2: int| 0 <= k2 < nodes.len() && (#[trigger] nodes[k2]).job_num != usize::MAX ==> {
                    &&& nodes[k2].range_num < bounds.len()
                    &&& nodes[k2].job_num < sizes.len()
                    &&& sizes[nodes[k2].job_num as int] <= mk
                },
                i <= runs.len(),
                fur_pairs(nodes, bounds, sizes, mk, runs, 0) == out@ + fur_pairs(nodes, bounds, sizes, mk, runs, i as int),
            decreases runs.len() - i,
        {
            let job = jobs_in_bdd[i];
            let next_job = if i != jobs_in_bdd.len() - 1 {
                jobs_in_bdd[i + 1]
            } else {
                usize::MAX
            };
            proof {
                assert(has_job_node(nodes, nodes.len() as int, runs[i as int]));
                let q = choose|q: int| 0 <= q < nodes.len() && nodes[q].job_num == runs[i as int];
                assert(nodes[q].job_num != usize::MAX);
            }
            let fur_val = range_table.table_makespan_exec() - solution.instance.job_sizes[job];
            let ghost scan = fur_scan(nodes, bounds, job, next_job, fur_val as int, 0);
            let ghost before = out@;
            let mut k: usize = 0;
            let mut stop = false;
            while k < self.nodes.len() && !stop
                invariant
                    nodes == self.nodes@,
                    bounds == range_table.bounds(),
                    forall|k2: int| 0 <= k2 < nodes.len() && (#[trigger] nodes[k2]).job_num != usize::MAX ==> {
                        &&& nodes[k2].range_num < bounds.len()
                    },
                    k <= nodes.len(),
                    scan == fur_scan(nodes, bounds, job, next_job, fur_val as int, 0),
                    stop ==> scan == out@.skip(before.len() as int),
                    !stop ==> scan == out@.skip(before.len() as int) + fur_scan(nodes, bounds, job, next_job, fur_val as int, k as int),
                    out@.len() >= before.len(),
                    out@.take(before.len() as int) == before,
                decreases nodes.len() - k + (if stop { 0int } else { 1int }),
            {
                let node = self.nodes[k];
                if node.job_num == usize::MAX {
                    k = k + 1;
                } else if node.job_num == next_job {
                    stop = true;
                } else {
                    let upper = node.range.1;
                    let range_upper = range_table.get_range_bound(node.range_num).1;
                    if fur_val == upper || fur_val == range_upper {
                        let ghost o = out@;
                        out.push((job, node.aux_var));
                        proof {
                            assert(out@.skip(before.len() as int) =~= o.skip(before.len() as int).push((job, node.aux_var)));
                            assert(out@.take(before.len() as int) =~= o.take(before.len() as int));
                        }
                    }
                    k = k + 1;
                }
            }
            proof {
                if !stop {
                    assert(fur_scan(nodes, bounds, job, next_job, fur_val as int, k as int) =~= Seq::<(usize, usize)>::empty());
                }
                assert(out@ =~= before + scan);
            }
            i = i + 1;
        }
        proof {
            assert(fur_pairs(nodes, bounds, sizes, mk, runs, i as int) =~= Seq::<(usize, usize)>::empty());
        }
        out
    }

    /// The clauses of the diagram: the false node is false, the true node and the root are
    /// true, and each node implies the child that its variable chooses.
    pub fn encode(&self) -> (clauses: Clauses)
        requires
            dyn_encodable(self.nodes@),
        ensures
            clauses.wf(),
            clauses@ == dyn_clauses(self.nodes@),
    {
        let ghost nodes = self.nodes@;
        let len = self.nodes.len();
        let mut clauses: Clauses = Clauses::new();
        proof {
            assert(plain_nodes(nodes)[0] == plain(nodes[0]));
        }
        let a0 = self.nodes[0].aux_var as i32;
        let a1 = self.nodes[1].aux_var as i32;
        let ar = self.nodes[len - 1].aux_var as i32;
        let na0 = -a0;
        let c0 = Clause { vars: vec![na0] };
        let c1 = Clause { vars: vec![a1] };
        let c2 = Clause { vars: vec![ar] };
        proof {
            assert(c0.vars@ =~= seq![(-(nodes[0].aux_var as int)) as i32]);
            assert(c1.vars@ =~= seq![nodes[1].aux_var as i32]);
            assert(c2.vars@ =~= seq![nodes.last().aux_var as i32]);
        }
        clauses.add_clause(c0);
        clauses.add_clause(c1);
        clauses.add_clause(c2);
        let ghost head = clauses@;
        let ghost body = Seq::new((nodes.len() - 2) as nat, |k: int| dyn_node_clauses(nodes, k + 2));
        let mut i: usize = 2;
        while i < len
            invariant
                nodes == self.nodes@,
                len == nodes.len(),
                dyn_encodable(nodes),
                body == Seq::new((nodes.len() - 2) as nat, |k: int| dyn_node_clauses(nodes, k + 2)),
                2 <= i <= len,
                clauses.wf(),
                clauses@ == head + body.take(i - 2).flatten(),
            decreases len - i,
        {
            proof {
                let pn = plain_nodes(nodes);
                assert(well_shaped(pn));
                assert(pn[i as int] == plain(nodes[i as int]));
                assert(pn.len() == nodes.len());
                assert(2 <= i < pn.len());
                lemma_children_below(pn, i as int);
                assert(nodes[i as int].left_child < i && nodes[i as int].right_child < i);
            }
            let nd = self.nodes[i];
            let aux = nd.aux_var as i32;
            let left = self.nodes[nd.left_child].aux_var as i32;
            let right = self.nodes[nd.right_child].aux_var as i32;
            let var = nd.var as i32;
            let naux = -aux;
            let nvar = -var;
            let c = Clause { vars: vec![var, naux, left] };
            let d = Clause { vars: vec![nvar, naux, right] };
            proof {
                assert(c.vars@ =~= dyn_node_clauses(nodes, i as int)[0]);
                assert(d.vars@ =~= dyn_node_clauses(nodes, i as int)[1]);
            }
            let ghost before = clauses@;
            clauses.add_clause(c);
            clauses.add_clause(d);
            proof {
                assert(body.take(i - 1) =~= body.take(i - 2).push(dyn_node_clauses(nodes, i as int)));
                body.take(i - 2).lemma_flatten_push(dyn_node_clauses(nodes, i as int));
                assert(clauses@ =~= before + dyn_node_clauses(nodes, i as int));
            }
            i = i + 1;
        }
        proof {
            assert(body.take(len - 2) =~= body);
        }
        clauses
    }
}

} // verus!
