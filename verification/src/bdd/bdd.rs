//! Ordered decision diagrams for "the chosen jobs fit": a node per reachable partial sum,
//! merged where their futures agree, and the clauses that tie auxiliary variables to them.
use vstd::prelude::*;
use crate::common::bits::Bits;
use crate::common::bits::bits_get;
use crate::common::bits::bits_len;
use crate::common::bits::bits_set;
use crate::common::bits::bits_view;
use crate::common::bits::bits_zeros;
use crate::common::timeout::Timeout;
use crate::encoding::encoder::Clause;
use crate::encoding::encoder::Clauses;
use crate::encoding::encoder::VarNameGenerator;
use crate::encoding::encoder::valid_var;

verus! {

/// A node: it asks `var`; `left_child` is taken when `var` is false, `right_child` when it
/// is true. `aux_var` is the variable that stands for the node in the clauses.
#[derive(Clone, Copy, Debug)]
pub struct Node {
    pub var: usize,
    pub aux_var: usize,
    pub left_child: usize,
    pub right_child: usize,
    pub job_num: usize,
    pub range: (usize, usize),
}

/// The nodes of a diagram: node 0 is false, node 1 is true, and the root comes last.
#[derive(Debug)]
pub struct BDD {
    pub nodes: Vec<Node>,
}

/// The shape of a diagram: the two terminals first, the root last, and every other node
/// pointing to earlier nodes.
pub open spec fn well_shaped(nodes: Seq<Node>) -> bool {
    &&& nodes.len() >= 3
    &&& nodes[0].left_child == 0 && nodes[0].right_child == 0
    &&& nodes[1].left_child == 1 && nodes[1].right_child == 1
    &&& forall|i: int| 2 <= i < nodes.len() ==> #[trigger] nodes[i].left_child < i && nodes[i].right_child < i
}

/// Job `j` is among the first `n` of `jobs`.
pub open spec fn job_listed(jobs: Seq<usize>, n: int, j: usize) -> bool {
    exists|t: int| 0 <= t < n && jobs[t] == j
}

/// Job `j` with variable `v` is one of the first `n` entries of the lists.
pub open spec fn pair_listed(jobs: Seq<usize>, vars: Seq<usize>, n: int, j: usize, v: usize) -> bool {
    exists|t: int| 0 <= t < n && jobs[t] == j && vars[t] == v
}

/// The inputs of `leq`: the lists line up, the first job fits on top of what is assigned,
/// and the fill-up test needs every weight within the limit.
pub open spec fn leq_inputs(
    jobs: Seq<usize>,
    vars: Seq<usize>,
    weights: Seq<usize>,
    limit: usize,
    with_fur_nodes: bool,
    already_assigned: usize,
) -> bool {
    &&& vars.len() >= 1
    &&& jobs.len() >= vars.len()
    &&& weights.len() >= vars.len()
    &&& already_assigned < limit
    &&& already_assigned + weights[0] <= limit
    &&& limit < usize::MAX / 8
    &&& with_fur_nodes ==> forall|i: int| 0 <= i < weights.len() ==> #[trigger] weights[i] <= limit
}

/// The sum `r` is reached once the first `k + 1` weights are decided, from `already`:
/// `already` plus some of those weights, never passing `limit` after the first.
pub open spec fn reach(weights: Seq<usize>, already: int, limit: int, k: int, r: int) -> bool
    decreases k,
{
    if k <= 0 {
        r == already || r == already + weights[0]
    } else {
        r <= limit && (reach(weights, already, limit, k - 1, r) || (r >= weights[k] && reach(weights, already, limit, k - 1, r - weights[k])))
    }
}

/// The bits `b` are set exactly at the sums reached at level `k`.
pub open spec fn reach_bits(b: Seq<bool>, weights: Seq<usize>, already: int, limit: int, k: int) -> bool {
    &&& forall|q: int| 0 <= q < b.len() ==> #[trigger] b[q] == reach(weights, already, limit, k, q)
    &&& forall|q: int| #[trigger] reach(weights, already, limit, k, q) ==> 0 <= q < b.len()
}

/// Each listed variable has one weight: every two places of the same variable weigh the same.
pub open spec fn var_weights_ok(vars: Seq<usize>, weights: Seq<usize>, n: int) -> bool {
    forall|t1: int, t2: int| 0 <= t1 < n && 0 <= t2 < n && #[trigger] vars[t1] == #[trigger] vars[t2] ==> weights[t1] == weights[t2]
}

/// The weight of variable `v`: that of a place where it is listed.
pub open spec fn var_weight(vars: Seq<usize>, weights: Seq<usize>, n: int, v: usize) -> int {
    weights[choose|t: int| 0 <= t < n && vars[t] == v] as int
}

/// Every walk from node `k` with sum `s` ends at the true node exactly when its final sum is
/// at most `limit`, and at the false node at the step where the sum passes `limit`: a walk
/// at an inner node has a sum of at most `limit` and goes left, or right adding the weight
/// of the node's variable.
pub open spec fn accepts(nodes: Seq<Node>, vars: Seq<usize>, weights: Seq<usize>, n: int, limit: int, k: int, s: int) -> bool
    decreases k,
{
    if k == 0 {
        s > limit
    } else if k == 1 {
        s <= limit
    } else if 2 <= k < nodes.len() && nodes[k].left_child < k && nodes[k].right_child < k {
        &&& s <= limit
        &&& accepts(nodes, vars, weights, n, limit, nodes[k].left_child as int, s)
        &&& accepts(nodes, vars, weights, n, limit, nodes[k].right_child as int, s + var_weight(vars, weights, n, nodes[k].var))
    } else {
        false
    }
}

/// Two node lists that agree on the variables and children of the nodes up to `k`.
pub open spec fn same_up_to(a: Seq<Node>, b: Seq<Node>, k: int) -> bool {
    &&& k < a.len()
    &&& k < b.len()
    &&& forall|j: int| #![trigger a[j]] 0 <= j <= k ==> a[j].var == b[j].var && a[j].left_child == b[j].left_child && a[j].right_child == b[j].right_child
}

/// What a walk reaches from node `k` depends only on the nodes up to `k`.
pub proof fn lemma_accepts_same(a: Seq<Node>, b: Seq<Node>, vars: Seq<usize>, weights: Seq<usize>, n: int, limit: int, k: int, s: int)
    requires
        0 <= k,
        same_up_to(a, b, k),
    ensures
        accepts(a, vars, weights, n, limit, k, s) == accepts(b, vars, weights, n, limit, k, s),
    decreases k,
{
    if k >= 2 && a[k].left_child < k && a[k].right_child < k {
        assert(a[k].var == b[k].var && a[k].left_child == b[k].left_child && a[k].right_child == b[k].right_child);
        let l = a[k].left_child as int;
        let r = a[k].right_child as int;
        assert(same_up_to(a, b, l));
        assert(same_up_to(a, b, r));
        lemma_accepts_same(a, b, vars, weights, n, limit, l, s);
        lemma_accepts_same(a, b, vars, weights, n, limit, r, s + var_weight(vars, weights, n, a[k].var));
    } else if k >= 2 {
        assert(a[k].var == b[k].var && a[k].left_child == b[k].left_child && a[k].right_child == b[k].right_child);
    }
}

/// Node `k` is an inner or true node from which every walk with sum `s` behaves.
pub open spec fn node_ok(nodes: Seq<Node>, vars: Seq<usize>, weights: Seq<usize>, n: int, limit: int, k: int, s: int) -> bool {
    1 <= k < nodes.len() && accepts(nodes, vars, weights, n, limit, k, s)
}

/// Adding nodes after, or changing a node but for its variable and children, keeps what
/// every walk reaches.
proof fn lemma_keep(a: Seq<Node>, b: Seq<Node>, vars: Seq<usize>, weights: Seq<usize>, n: int, limit: int)
    requires
        a.len() <= b.len(),
        forall|j: int| 0 <= j < a.len() ==> #[trigger] b[j].var == a[j].var && b[j].left_child == a[j].left_child && b[j].right_child == a[j].right_child,
    ensures
        forall|k: int, s: int| #[trigger] node_ok(a, vars, weights, n, limit, k, s) ==> node_ok(b, vars, weights, n, limit, k, s),
{
    assert forall|k: int, s: int| #[trigger] node_ok(a, vars, weights, n, limit, k, s) implies node_ok(b, vars, weights, n, limit, k, s) by {
        assert forall|j: int| #![trigger a[j]] 0 <= j <= k implies a[j].var == b[j].var && a[j].left_child == b[j].left_child && a[j].right_child == b[j].right_child by {
            assert(b[j].var == a[j].var);
        }
        assert(0 <= k < a.len());
        assert(k < b.len());
        assert(same_up_to(a, b, k));
        lemma_accepts_same(a, b, vars, weights, n, limit, k, s);
    }
}

/// A new node on top whose children behave at `s` and at `s` plus its weight behaves at `s`.
proof fn lemma_new_node(nodes: Seq<Node>, nd: Node, vars: Seq<usize>, weights: Seq<usize>, n: int, limit: int, s: int)
    requires
        nodes.len() >= 2,
        nd.left_child < nodes.len(),
        nd.right_child < nodes.len(),
        s <= limit,
        accepts(nodes, vars, weights, n, limit, nd.left_child as int, s),
        accepts(nodes, vars, weights, n, limit, nd.right_child as int, s + var_weight(vars, weights, n, nd.var)),
    ensures
        node_ok(nodes.push(nd), vars, weights, n, limit, nodes.len() as int, s),
{
    let b = nodes.push(nd);
    assert(same_up_to(nodes, b, nd.left_child as int));
    assert(same_up_to(nodes, b, nd.right_child as int));
    lemma_accepts_same(nodes, b, vars, weights, n, limit, nd.left_child as int, s);
    lemma_accepts_same(nodes, b, vars, weights, n, limit, nd.right_child as int, s + var_weight(vars, weights, n, nd.var));
}

/// Every inner node points to earlier nodes.
pub open spec fn children_below(nodes: Seq<Node>) -> bool {
    forall|k: int| 2 <= k < nodes.len() ==> #[trigger] nodes[k].left_child < k && nodes[k].right_child < k
}

/// A node whose children behave at `s` and at `s` plus its weight behaves at `s`.
proof fn lemma_merged(nodes: Seq<Node>, last: int, vars: Seq<usize>, weights: Seq<usize>, n: int, limit: int, s: int)
    requires
        2 <= last < nodes.len(),
        nodes[last].left_child < last,
        nodes[last].right_child < last,
        s <= limit,
        accepts(nodes, vars, weights, n, limit, nodes[last].left_child as int, s),
        accepts(nodes, vars, weights, n, limit, nodes[last].right_child as int, s + var_weight(vars, weights, n, nodes[last].var)),
    ensures
        node_ok(nodes, vars, weights, n, limit, last, s),
{
}

/// Reached sums lie between `already` and `limit`.
proof fn lemma_reach_bounds(weights: Seq<usize>, already: int, limit: int, k: int, r: int)
    requires
        already + weights[0] <= limit,
        reach(weights, already, limit, k, r),
    ensures
        already <= r <= limit,
    decreases k,
{
    if k > 0 {
        if reach(weights, already, limit, k - 1, r) {
            lemma_reach_bounds(weights, already, limit, k - 1, r);
        } else {
            lemma_reach_bounds(weights, already, limit, k - 1, r - weights[k]);
        }
    }
}

/// With one weight per variable, the weight of a listed variable is its weight.
pub proof fn lemma_var_weight(vars: Seq<usize>, weights: Seq<usize>, n: int, t: int)
    requires
        var_weights_ok(vars, weights, n),
        0 <= t < n,
    ensures
        var_weight(vars, weights, n, vars[t]) == weights[t],
{
    let u = choose|u: int| 0 <= u < n && vars[u] == vars[t];
    assert(vars[u] == vars[t]);
}

/// A variable listed at one place only has one weight.
pub proof fn lemma_distinct_vars_weights(vars: Seq<usize>, weights: Seq<usize>, n: int)
    requires
        forall|t1: int, t2: int| 0 <= t1 < n && 0 <= t2 < n && t1 != t2 ==> vars[t1] != vars[t2],
    ensures
        var_weights_ok(vars, weights, n),
{
}

/// Where each job is listed at its own index and each variable has one weight, the weight
/// that a walk adds at a node is the weight of the node's job.
pub proof fn lemma_node_job_weight(jobs: Seq<usize>, vars: Seq<usize>, weights: Seq<usize>, n: int, j: usize, v: usize)
    requires
        var_weights_ok(vars, weights, n),
        pair_listed(jobs, vars, n, j, v),
        forall|t: int| 0 <= t < n ==> #[trigger] jobs[t] == t,
    ensures
        var_weight(vars, weights, n, v) == weights[j as int],
{
    let t = choose|t: int| 0 <= t < n && jobs[t] == j && vars[t] == v;
    lemma_var_weight(vars, weights, n, t);
}

/// The diagram of `already_assigned + sum of weights[i] * vars[i] <= limit`, with the
/// variables asked in order: `None` when the time ran out. Nodes that would only repeat
/// the previous node are merged with it; with `with_fur_nodes`, the node whose sum leaves
/// exactly room for its job is always kept. Each inner node carries a job and a variable
/// listed together. Where every variable listed more than once has one weight, every walk
/// from the root reaches the true node exactly when its sum stays within `limit`, the weight
/// added at a node being the one listed with its job and variable (`accepts`,
/// `lemma_var_weight`); with distinct variables and each job listed at its own index, that is
/// the weight of the node's job (`lemma_distinct_vars_weights`, `lemma_node_job_weight`). Nodes are merged by their variable and children, and the law is not
/// stated for a variable listed with two different weights.
#[verifier::rlimit(100)]
#[verifier::spinoff_prover]
pub fn leq(
    jobs: &Vec<usize>,
    vars: &Vec<usize>,
    weights: &Vec<usize>,
    limit: usize,
    with_fur_nodes: bool,
    already_assigned: usize,
    timeout: &Timeout,
) -> (r: Option<BDD>)
    requires
        leq_inputs(jobs@, vars@, weights@, limit, with_fur_nodes, already_assigned),
    ensures
        r is Some ==> {
            let nodes = r->0.nodes@;
            &&& well_shaped(nodes)
            &&& forall|i: int| 0 <= i < nodes.len() ==> (#[trigger] nodes[i]).aux_var == 0
            &&& forall|i: int| 2 <= i < nodes.len() ==> vars@.contains(#[trigger] nodes[i].var)
            &&& nodes.last().var == vars[0]
            &&& nodes[0].job_num == usize::MAX && nodes[1].job_num == usize::MAX
            &&& nodes.last().job_num == jobs[0]
            &&& nodes.last().range.0 == already_assigned
            &&& nodes.len() <= 3 + vars.len() * (limit + 1)
            &&& forall|i: int| 2 <= i < nodes.len() ==> job_listed(jobs@, vars.len() as int, (#[trigger] nodes[i]).job_num)
            &&& forall|i: int| 2 <= i < nodes.len() ==> pair_listed(jobs@, vars@, vars.len() as int, (#[trigger] nodes[i]).job_num, nodes[i].var)
            &&& forall|i: int| 2 <= i < nodes.len() ==> (#[trigger] nodes[i]).range.0 <= limit
            &&& var_weights_ok(vars@, weights@, vars.len() as int) ==> accepts(nodes, vars@, weights@, vars.len() as int, limit as int,
                nodes.len() - 1, already_assigned as int)
        },
{
    let n = vars.len();
    let ghost ws = weights@;
    let ghost al = already_assigned as int;
    let ghost lim = limit as int;
    // reachable[i][r]: the sum r can be reached after deciding the first i + 1 variables
    let mut reachable: Vec<Bits> = Vec::new();
    let mut first = bits_zeros(already_assigned + weights[0] + 1);
    bits_set(&mut first, already_assigned, true);
    bits_set(&mut first, already_assigned + weights[0], true);
    proof {
        let b = bits_view(first);
        assert forall|q: int| 0 <= q < b.len() implies #[trigger] b[q] == reach(ws, al, lim, 0, q) by {
        }
    }
    reachable.push(first);
    let mut i: usize = 1;
    while i < n
        invariant
            n == vars.len(),
            leq_inputs(jobs@, vars@, weights@, limit, with_fur_nodes, already_assigned),
            1 <= i <= n,
            reachable.len() == i,
            forall|k: int| 0 <= k < i ==> bits_view(#[trigger] reachable@[k]).len() <= limit + 1,
            ws == weights@,
            al == already_assigned,
            lim == limit,
            forall|k: int| 0 <= k < i ==> reach_bits(bits_view(#[trigger] reachable@[k]), ws, al, lim, k),
        decreases n - i,
    {
        let prev_len = bits_len(&reachable[i - 1]);
        let w = weights[i];
        let size = if w > limit + 1 - prev_len { limit + 1 } else { prev_len + w };
        let mut level = bits_zeros(size);
        let mut r: usize = already_assigned;
        while r < size
            invariant
                1 <= i < n,
                limit < usize::MAX / 8,
                reachable.len() == i,
                prev_len == bits_view(reachable@[i - 1]).len(),
                size <= limit + 1,
                bits_view(level).len() == size,
                r >= already_assigned,
                w == ws[i as int],
                ws == weights@,
                ws.len() == weights.len(),
                al == already_assigned,
                lim == limit,
                reach_bits(bits_view(reachable@[i - 1]), ws, al, lim, i - 1),
                forall|q: int| 0 <= q < size ==> #[trigger] bits_view(level)[q] == (al <= q < r && reach(ws, al, lim, i as int, q)),
            decreases size - r,
        {
            let from_left = r < prev_len && bits_get(&reachable[i - 1], r);
            let from_right = r >= w && r - w < prev_len && bits_get(&reachable[i - 1], r - w);
            proof {
                let pb = bits_view(reachable@[i - 1]);
                let k1 = i - 1;
                if reach(ws, al, lim, k1 as int, r as int) {
                    assert(r < prev_len);
                }
                if r >= w && reach(ws, al, lim, k1 as int, r - w) {
                    assert(r - w < prev_len);
                }
                assert(reach(ws, al, lim, i as int, r as int) == (r <= lim && (reach(ws, al, lim, k1 as int, r as int)
                    || (r >= ws[i as int] && reach(ws, al, lim, k1 as int, r - ws[i as int])))));
                if r < prev_len {
                    assert(pb[r as int] == reach(ws, al, lim, i - 1, r as int));
                }
                if r >= w && r - w < prev_len {
                    assert(pb[r - w] == reach(ws, al, lim, i - 1, r - w));
                }
                assert(reach(ws, al, lim, i as int, r as int) == (from_left || from_right));
            }
            let ghost before = bits_view(level);
            if from_left || from_right {
                bits_set(&mut level, r, true);
            }
            r = r + 1;
        }
        proof {
            let b = bits_view(level);
            assert forall|q: int| #[trigger] reach(ws, al, lim, i as int, q) implies 0 <= q < b.len() by {
                if reach(ws, al, lim, i - 1, q) {
                    assert(q < prev_len);
                } else {
                    assert(reach(ws, al, lim, i - 1, q - ws[i as int]));
                }
            }
            assert forall|q: int| 0 <= q < b.len() implies #[trigger] b[q] == reach(ws, al, lim, i as int, q) by {
                if reach(ws, al, lim, i as int, q) {
                    lemma_reach_bounds(ws, al, lim, i as int, q);
                }
            }
        }
        reachable.push(level);
        if timeout.time_finished() {
            return None;
        }
        i = i + 1;
    }
    let mut nodes: Vec<Node> = Vec::new();
    nodes.push(Node { var: 0, aux_var: 0, left_child: 0, right_child: 0, job_num: usize::MAX, range: (0, usize::MAX) });
    nodes.push(Node { var: 0, aux_var: 0, left_child: 1, right_child: 1, job_num: usize::MAX, range: (0, usize::MAX) });
    // the nodes for each reachable sum at the level below
    let mut reachable_i_nodes: Vec<usize> = Vec::new();
    let ghost ok = var_weights_ok(vars@, ws, n as int);
    let ghost vs = vars@;
    let mut level: usize = n;
    while level > 0
        invariant
            ws == weights@,
            vs == vars@,
            al == already_assigned,
            lim == limit,
            ok == var_weights_ok(vs, ws, n as int),
            forall|k: int| 0 <= k < n ==> reach_bits(bits_view(#[trigger] reachable@[k]), ws, al, lim, k),
            ok && level < n ==> forall|r: int| 0 <= r <= lim && #[trigger] reach(ws, al, lim, level as int, r)
                ==> node_ok(nodes@, vs, ws, n as int, lim, reachable_i_nodes@[r] as int, r),
            n == vars.len(),
            leq_inputs(jobs@, vars@, weights@, limit, with_fur_nodes, already_assigned),
            level <= n,
            reachable.len() == n,
            forall|k: int| 0 <= k < n ==> bits_view(#[trigger] reachable@[k]).len() <= limit + 1,
            nodes.len() >= 2,
            nodes@[0].left_child == 0 && nodes@[0].right_child == 0,
            nodes@[1].left_child == 1 && nodes@[1].right_child == 1,
            nodes@[0].job_num == usize::MAX && nodes@[1].job_num == usize::MAX,
            forall|k: int| 2 <= k < nodes.len() ==> #[trigger] nodes@[k].left_child < k && nodes@[k].right_child < k,
            forall|k: int| 0 <= k < nodes.len() ==> (#[trigger] nodes@[k]).aux_var == 0,
            forall|k: int| 2 <= k < nodes.len() ==> vars@.contains(#[trigger] nodes@[k].var),
            forall|k: int| 2 <= k < nodes.len() ==> job_listed(jobs@, n as int, (#[trigger] nodes@[k]).job_num),
            forall|k: int| 2 <= k < nodes.len() ==> pair_listed(jobs@, vars@, n as int, (#[trigger] nodes@[k]).job_num, nodes@[k].var),
            forall|k: int| 2 <= k < nodes.len() ==> (#[trigger] nodes@[k]).range.0 <= limit,
            level < n ==> reachable_i_nodes.len() == limit + 1,
            forall|k: int| 0 <= k < reachable_i_nodes.len() ==> #[trigger] reachable_i_nodes@[k] < nodes.len(),
            nodes.len() <= 2 + (n - level) * (limit + 1),
        decreases level,
    {
        level = level - 1;
        let i = level;
        let prev_reachable_i_nodes = reachable_i_nodes;
        reachable_i_nodes = Vec::new();
        while reachable_i_nodes.len() < limit + 1
            invariant
                limit < usize::MAX / 8,
                reachable_i_nodes.len() <= limit + 1,
                forall|k: int| 0 <= k < reachable_i_nodes.len() ==> #[trigger] reachable_i_nodes@[k] == 0,
            decreases limit + 1 - reachable_i_nodes.len(),
        {
            reachable_i_nodes.push(0);
        }
        let level_len = bits_len(&reachable[i]);
        let mut reachable_i: usize = already_assigned;
        proof {
            assert(reach_bits(bits_view(reachable@[i as int]), ws, al, lim, i as int));
            assert forall|q: int| #[trigger] reach(ws, al, lim, i as int, q) implies al <= q by {
                lemma_reach_bounds(ws, al, lim, i as int, q);
            }
        }
        while reachable_i < level_len
            invariant
                ws == weights@,
                vs == vars@,
                al == already_assigned,
                lim == limit,
                ok == var_weights_ok(vs, ws, n as int),
                reach_bits(bits_view(reachable@[i as int]), ws, al, lim, i as int),
                level_len == bits_view(reachable@[i as int]).len(),
                ok && i < n - 1 ==> forall|r: int| 0 <= r <= lim && #[trigger] reach(ws, al, lim, i + 1, r)
                    ==> node_ok(nodes@, vs, ws, n as int, lim, prev_reachable_i_nodes@[r] as int, r),
                ok ==> forall|q: int| 0 <= q < reachable_i && q <= lim && #[trigger] reach(ws, al, lim, i as int, q)
                    ==> node_ok(nodes@, vs, ws, n as int, lim, reachable_i_nodes@[q] as int, q),
                n == vars.len(),
                leq_inputs(jobs@, vars@, weights@, limit, with_fur_nodes, already_assigned),
                i < n,
                i < n - 1 ==> prev_reachable_i_nodes.len() == limit + 1,
                level_len <= limit + 1,
                reachable_i_nodes.len() == limit + 1,
                nodes.len() >= 2,
                nodes@[0].left_child == 0 && nodes@[0].right_child == 0,
                nodes@[1].left_child == 1 && nodes@[1].right_child == 1,
                nodes@[0].job_num == usize::MAX && nodes@[1].job_num == usize::MAX,
                children_below(nodes@),
                forall|k: int| 0 <= k < nodes.len() ==> (#[trigger] nodes@[k]).aux_var == 0,
                forall|k: int| 2 <= k < nodes.len() ==> vars@.contains(#[trigger] nodes@[k].var),
                forall|k: int| 2 <= k < nodes.len() ==> job_listed(jobs@, n as int, (#[trigger] nodes@[k]).job_num),
                forall|k: int| 2 <= k < nodes.len() ==> pair_listed(jobs@, vars@, n as int, (#[trigger] nodes@[k]).job_num, nodes@[k].var),
                forall|k: int| 2 <= k < nodes.len() ==> (#[trigger] nodes@[k]).range.0 <= limit,
                forall|k: int| 0 <= k < prev_reachable_i_nodes.len() ==> #[trigger] prev_reachable_i_nodes@[k] < nodes.len(),
                forall|k: int| 0 <= k < reachable_i_nodes.len() ==> #[trigger] reachable_i_nodes@[k] < nodes.len(),
                reachable.len() == n,
                bits_view(reachable@[i as int]).len() == level_len,
                reachable_i <= level_len || reachable_i == already_assigned,
                nodes.len() <= 2 + (n - 1 - i) * (limit + 1) + (if reachable_i <= level_len { reachable_i as int } else { level_len as int }),
            decreases level_len - reachable_i,
        {
            let ghost r0 = reachable_i as int;
            let ghost rin0 = reachable_i_nodes@;
            if !bits_get(&reachable[i], reachable_i) {
                proof {
                    assert(bits_view(reachable@[i as int])[r0] == reach(ws, al, lim, i as int, r0));
                }
                reachable_i = reachable_i + 1;
                continue;
            }
            proof {
                assert(bits_view(reachable@[i as int])[r0] == reach(ws, al, lim, i as int, r0));
                lemma_reach_bounds(ws, al, lim, i as int, r0);
            }
            if i == n - 1 {
                reachable_i_nodes.set(reachable_i, 1);
                proof {
                    if ok {
                        assert forall|q: int| 0 <= q < reachable_i + 1 && q <= lim && #[trigger] reach(ws, al, lim, i as int, q)
                            implies node_ok(nodes@, vs, ws, n as int, lim, reachable_i_nodes@[q] as int, q) by {
                            if q < r0 {
                                assert(reachable_i_nodes@[q] == rin0[q]);
                            }
                        }
                    }
                }
            } else {
                let w_next = weights[i + 1];
                let left_child = prev_reachable_i_nodes[reachable_i];
                let right_child = if w_next < prev_reachable_i_nodes.len() - reachable_i {
                    prev_reachable_i_nodes[reachable_i + w_next]
                } else {
                    0
                };
                let ghost wv = var_weight(vs, ws, n as int, vars@[i + 1]);
                proof {
                    if ok {
                        lemma_var_weight(vs, ws, n as int, i + 1);
                        assert(reach(ws, al, lim, i + 1, r0));
                        assert(node_ok(nodes@, vs, ws, n as int, lim, left_child as int, r0));
                        if r0 + w_next <= lim {
                            assert(reach(ws, al, lim, i + 1, r0 + w_next));
                            assert(node_ok(nodes@, vs, ws, n as int, lim, right_child as int, r0 + w_next));
                        } else {
                            assert(right_child == 0);
                        }
                        assert(accepts(nodes@, vs, ws, n as int, lim, right_child as int, r0 + wv));
                    }
                }
                let new_node = Node {
                    var: vars[i + 1],
                    aux_var: 0,
                    left_child,
                    right_child,
                    job_num: jobs[i + 1],
                    range: (reachable_i, reachable_i),
                };
                proof {
                    assert(vars@.contains(vars@[i + 1]));
                    assert(jobs@[i + 1] == new_node.job_num);
                    assert(job_listed(jobs@, n as int, new_node.job_num));
                    assert(pair_listed(jobs@, vars@, n as int, new_node.job_num, new_node.var));
                }
                let ghost old_nodes = nodes@;
                if left_child == right_child {
                    reachable_i_nodes.set(reachable_i, left_child);
                proof {
                    if ok {
                        assert((                            forall|r: int| 0 <= r <= lim && #[trigger] reach(ws, al, lim, i + 1, r)
                                ==> node_ok(nodes@, vs, ws, n as int, lim, prev_reachable_i_nodes@[r] as int, r))
                            && (forall|q: int| 0 <= q < reachable_i + 1 && q <= lim && #[trigger] reach(ws, al, lim, i as int, q)
                                ==> node_ok(nodes@, vs, ws, n as int, lim, reachable_i_nodes@[q] as int, q))) by {
                            lemma_keep(old_nodes, nodes@, vs, ws, n as int, lim);
                        assert forall|r: int| 0 <= r <= lim && #[trigger] reach(ws, al, lim, i + 1, r)
                            implies node_ok(nodes@, vs, ws, n as int, lim, prev_reachable_i_nodes@[r] as int, r) by {
                            assert(node_ok(old_nodes, vs, ws, n as int, lim, prev_reachable_i_nodes@[r] as int, r));
                        }
                        assert forall|q: int| 0 <= q < reachable_i + 1 && q <= lim && #[trigger] reach(ws, al, lim, i as int, q)
                            implies node_ok(nodes@, vs, ws, n as int, lim, reachable_i_nodes@[q] as int, q) by {
                            if q < r0 {
                                assert(reachable_i_nodes@[q] == rin0[q]);
                                assert(node_ok(old_nodes, vs, ws, n as int, lim, rin0[q] as int, q));
                            }
                        }
                        }
                    }
                }
                } else {
                    let last = nodes.len() - 1;
                    if nodes[last].left_child != new_node.left_child
                        || nodes[last].right_child != new_node.right_child
                        || nodes[last].var != new_node.var
                        || (with_fur_nodes && reachable_i == limit - w_next)
                    {
                        let node_id: usize = nodes.len();
                        nodes.push(new_node);
                        reachable_i_nodes.set(reachable_i, node_id);
                        proof {
                            assert forall|k: int| 2 <= k < nodes.len() implies #[trigger] nodes@[k].left_child < k && nodes@[k].right_child < k by {
                                if k < node_id {
                                    assert(nodes@[k] == old_nodes[k]);
                                }
                            }
                            if ok {
                                lemma_new_node(old_nodes, new_node, vs, ws, n as int, lim, r0);
                                assert(nodes@ == old_nodes.push(new_node));
                            }
                        }
                        proof {
                            if ok {
                                assert((                                    forall|r: int| 0 <= r <= lim && #[trigger] reach(ws, al, lim, i + 1, r)
                                        ==> node_ok(nodes@, vs, ws, n as int, lim, prev_reachable_i_nodes@[r] as int, r))
                                    && (forall|q: int| 0 <= q < reachable_i + 1 && q <= lim && #[trigger] reach(ws, al, lim, i as int, q)
                                        ==> node_ok(nodes@, vs, ws, n as int, lim, reachable_i_nodes@[q] as int, q))) by {
                                    lemma_keep(old_nodes, nodes@, vs, ws, n as int, lim);
                                assert forall|r: int| 0 <= r <= lim && #[trigger] reach(ws, al, lim, i + 1, r)
                                    implies node_ok(nodes@, vs, ws, n as int, lim, prev_reachable_i_nodes@[r] as int, r) by {
                                    assert(node_ok(old_nodes, vs, ws, n as int, lim, prev_reachable_i_nodes@[r] as int, r));
                                }
                                assert forall|q: int| 0 <= q < reachable_i + 1 && q <= lim && #[trigger] reach(ws, al, lim, i as int, q)
                                    implies node_ok(nodes@, vs, ws, n as int, lim, reachable_i_nodes@[q] as int, q) by {
                                    if q < r0 {
                                                assert(reachable_i_nodes@[q] == rin0[q]);
                                                assert(node_ok(old_nodes, vs, ws, n as int, lim, rin0[q] as int, q));
                                    }
                                }
                                }
                            }
                        }
                        reachable_i = reachable_i + 1;
                        continue;
                    } else {
                        let merged = Node {
                            var: nodes[last].var,
                            aux_var: nodes[last].aux_var,
                            left_child: nodes[last].left_child,
                            right_child: nodes[last].right_child,
                            job_num: nodes[last].job_num,
                            range: (nodes[last].range.0, reachable_i),
                        };
                        nodes.set(last, merged);
                        reachable_i_nodes.set(reachable_i, last);
                        proof {
                            assert forall|k: int| 2 <= k < nodes.len() implies #[trigger] nodes@[k].left_child < k && nodes@[k].right_child < k by {
                                assert(nodes@[k].left_child == old_nodes[k].left_child);
                                assert(nodes@[k].right_child == old_nodes[k].right_child);
                            }
                            if ok {
                                lemma_keep(old_nodes, nodes@, vs, ws, n as int, lim);
                                assert(last >= 2) by {
                                    if last == 0 || last == 1 {
                                        assert(left_child == right_child);
                                    }
                                }
                                assert(node_ok(nodes@, vs, ws, n as int, lim, left_child as int, r0));
                                if right_child != 0 {
                                    assert(node_ok(old_nodes, vs, ws, n as int, lim, right_child as int, r0 + w_next));
                                    assert(node_ok(nodes@, vs, ws, n as int, lim, right_child as int, r0 + w_next));
                                }
                                assert(nodes@[last as int].var == vars@[i + 1]);
                                lemma_merged(nodes@, last as int, vs, ws, n as int, lim, r0);
                            }
                        }
                        proof {
                            if ok {
                                assert((                                    forall|r: int| 0 <= r <= lim && #[trigger] reach(ws, al, lim, i + 1, r)
                                        ==> node_ok(nodes@, vs, ws, n as int, lim, prev_reachable_i_nodes@[r] as int, r))
                                    && (forall|q: int| 0 <= q < reachable_i + 1 && q <= lim && #[trigger] reach(ws, al, lim, i as int, q)
                                        ==> node_ok(nodes@, vs, ws, n as int, lim, reachable_i_nodes@[q] as int, q))) by {
                                    lemma_keep(old_nodes, nodes@, vs, ws, n as int, lim);
                                assert forall|r: int| 0 <= r <= lim && #[trigger] reach(ws, al, lim, i + 1, r)
                                    implies node_ok(nodes@, vs, ws, n as int, lim, prev_reachable_i_nodes@[r] as int, r) by {
                                    assert(node_ok(old_nodes, vs, ws, n as int, lim, prev_reachable_i_nodes@[r] as int, r));
                                }
                                assert forall|q: int| 0 <= q < reachable_i + 1 && q <= lim && #[trigger] reach(ws, al, lim, i as int, q)
                                    implies node_ok(nodes@, vs, ws, n as int, lim, reachable_i_nodes@[q] as int, q) by {
                                    if q < r0 {
                                                assert(reachable_i_nodes@[q] == rin0[q]);
                                                assert(node_ok(old_nodes, vs, ws, n as int, lim, rin0[q] as int, q));
                                    }
                                }
                                }
                            }
                        }
                    }
                }
            }
            reachable_i = reachable_i + 1;
        }
        proof {
            let l1 = (limit + 1) as int;
            let a = (n - 1 - i) as int;
            assert(a * l1 + l1 == (n - i) * l1) by (nonlinear_arith)
                requires
                    a == n - 1 - i,
            ;
        }
        if timeout.time_finished() {
            return None;
        }
    }
    // the root
    let root = Node {
        var: vars[0],
        aux_var: 0,
        left_child: reachable_i_nodes[already_assigned],
        right_child: reachable_i_nodes[already_assigned + weights[0]],
        job_num: jobs[0],
        range: (already_assigned, already_assigned),
    };
    proof {
        assert(n * (limit + 1) >= 0) by (nonlinear_arith)
            requires
                n >= 0,
                limit >= 0,
        ;
    }
    proof {
        if ok {
            lemma_var_weight(vs, ws, n as int, 0);
            assert(reach(ws, al, lim, 0, al));
            assert(reach(ws, al, lim, 0, al + ws[0]));
            assert(node_ok(nodes@, vs, ws, n as int, lim, reachable_i_nodes@[al] as int, al));
            assert(node_ok(nodes@, vs, ws, n as int, lim, reachable_i_nodes@[al + ws[0]] as int, al + ws[0]));
            lemma_new_node(nodes@, root, vs, ws, n as int, lim, al);
        }
    }
    let ghost before = nodes@;
    nodes.push(root);
    proof {
        assert(jobs@[0] == root.job_num);
        assert(job_listed(jobs@, n as int, root.job_num));
        assert(pair_listed(jobs@, vars@, n as int, root.job_num, root.var));
        assert forall|k: int| 2 <= k < nodes.len() implies job_listed(jobs@, n as int, (#[trigger] nodes@[k]).job_num) by {
            if k < before.len() {
                assert(nodes@[k] == before[k]);
            }
        }
        assert forall|k: int| 2 <= k < nodes.len() implies pair_listed(jobs@, vars@, n as int, (#[trigger] nodes@[k]).job_num, nodes@[k].var) by {
            if k < before.len() {
                assert(nodes@[k] == before[k]);
            }
        }
    }
    Some(BDD { nodes })
}

/// How many of the nodes above position `i` have no auxiliary variable yet.
pub open spec fn unnamed_above(nodes: Seq<Node>, i: int) -> nat
    decreases nodes.len() - i,
{
    if i + 1 >= nodes.len() {
        0
    } else {
        unnamed_above(nodes, i + 1) + if nodes[i + 1].aux_var == 0 {
            1nat
        } else {
            0nat
        }
    }
}

/// At most the nodes above are counted.
pub proof fn lemma_unnamed_above_pub(nodes: Seq<Node>, i: int)
    requires
        -1 <= i < nodes.len(),
    ensures
        unnamed_above(nodes, i) <= nodes.len() - 1 - i,
{
    lemma_unnamed_above(nodes, i);
}

proof fn lemma_unnamed_above(nodes: Seq<Node>, i: int)
    requires
        -1 <= i < nodes.len(),
    ensures
        unnamed_above(nodes, i) <= nodes.len() - 1 - i,
    decreases nodes.len() - i,
{
    if i + 1 < nodes.len() {
        lemma_unnamed_above(nodes, i + 1);
    }
}

/// Gives every node without an auxiliary variable a fresh one, from the root down.
pub fn assign_aux_vars(bdd: BDD, var_name_generator: &mut VarNameGenerator) -> (r: BDD)
    requires
        old(var_name_generator).spec_peek() + bdd.nodes.len() < usize::MAX,
    ensures
        r.nodes.len() == bdd.nodes.len(),
        forall|i: int| 0 <= i < bdd.nodes.len() ==> {
            let a = #[trigger] r.nodes@[i];
            let b = bdd.nodes@[i];
            &&& a.var == b.var && a.left_child == b.left_child && a.right_child == b.right_child
            &&& a.job_num == b.job_num && a.range == b.range
            &&& a.aux_var == if b.aux_var == 0 {
                (old(var_name_generator).spec_peek() + unnamed_above(bdd.nodes@, i)) as usize
            } else {
                b.aux_var
            }
        },
        final(var_name_generator).spec_peek() == old(var_name_generator).spec_peek() + unnamed_above(bdd.nodes@, -1),
{
    let ghost orig = bdd.nodes@;
    let ghost start = var_name_generator.spec_peek();
    let mut bdd = bdd;
    let mut i: usize = bdd.nodes.len();
    while i > 0
        invariant
            bdd.nodes.len() == orig.len(),
            i <= orig.len(),
            start + orig.len() < usize::MAX,
            var_name_generator.spec_peek() == start + unnamed_above(orig, i - 1),
            forall|k: int| 0 <= k < i ==> #[trigger] bdd.nodes@[k] == orig[k],
            forall|k: int| i <= k < orig.len() ==> {
                let a = #[trigger] bdd.nodes@[k];
                let b = orig[k];
                &&& a.var == b.var && a.left_child == b.left_child && a.right_child == b.right_child
                &&& a.job_num == b.job_num && a.range == b.range
                &&& a.aux_var == if b.aux_var == 0 { (start + unnamed_above(orig, k)) as usize } else { b.aux_var }
            },
        decreases i,
    {
        proof {
            lemma_unnamed_above(orig, i - 1);
        }
        i = i - 1;
        if bdd.nodes[i].aux_var == 0 {
            let v = var_name_generator.next();
            let mut node = bdd.nodes[i];
            node.aux_var = v;
            bdd.nodes.set(i, node);
        }
    }
    bdd
}

/// The clauses of a named diagram: the false node is false, the true node and the root are
/// true, and each node implies its left child, and, together with its variable, its right
/// child.
pub open spec fn bdd_clauses(nodes: Seq<Node>) -> Seq<Seq<i32>> {
    seq![
        seq![(-(nodes[0].aux_var as int)) as i32],
        seq![nodes[1].aux_var as i32],
        seq![nodes.last().aux_var as i32],
    ] + node_clauses(nodes, nodes.len() as int)
}

/// The clauses of the nodes `2..i`.
pub open spec fn node_clauses(nodes: Seq<Node>, i: int) -> Seq<Seq<i32>>
    decreases i,
{
    if i <= 2 {
        Seq::empty()
    } else {
        let k = i - 1;
        let nd = nodes[k];
        let aux = nd.aux_var as int;
        let left = nodes[nd.left_child as int].aux_var as int;
        let right = nodes[nd.right_child as int].aux_var as int;
        let first = if nd.aux_var != nodes[nd.left_child as int].aux_var {
            seq![seq![(-aux) as i32, left as i32]]
        } else {
            Seq::empty()
        };
        node_clauses(nodes, k) + first + seq![seq![(-(nd.var as int)) as i32, (-aux) as i32, right as i32]]
    }
}

/// A diagram whose variables all fit in a literal, and where two children of a node
/// share their auxiliary variable only in a diagram of three nodes.
pub open spec fn encodable(nodes: Seq<Node>) -> bool {
    &&& well_shaped(nodes)
    &&& forall|i: int| 0 <= i < nodes.len() ==> valid_var(#[trigger] nodes[i].aux_var as int)
    &&& forall|i: int| 2 <= i < nodes.len() ==> valid_var(#[trigger] nodes[i].var as int)
    &&& forall|i: int| 2 <= i < nodes.len() ==>
        nodes[#[trigger] nodes[i].left_child as int].aux_var == nodes[nodes[i].right_child as int].aux_var ==> nodes.len() == 3
}

pub fn encode(bdd: &BDD) -> (clauses: Clauses)
    requires
        encodable(bdd.nodes@),
    ensures
        clauses.wf(),
        clauses@ == bdd_clauses(bdd.nodes@),
{
    let ghost nodes = bdd.nodes@;
    let len = bdd.nodes.len();
    let mut clauses: Clauses = Clauses::new();
    let a0 = bdd.nodes[0].aux_var as i32;
    let a1 = bdd.nodes[1].aux_var as i32;
    let ar = bdd.nodes[len - 1].aux_var as i32;
    let na0 = -a0;
    let c0 = Clause { vars: vec![na0] };
    let c1 = Clause { vars: vec![a1] };
    let c2 = Clause { vars: vec![ar] };
    proof {
        assert(c0.vars@ =~= seq![(-(nodes[0].aux_var as int)) as i32]);
        assert(c1.vars@ =~= seq![nodes[1].aux_var as i32]);
        assert(c2.vars@ =~= seq![nodes.last().aux_var as i32]);
    }
    clauses.add_clause(c0);
    clauses.add_clause(c1);
    clauses.add_clause(c2);
    let mut i: usize = 2;
    while i < len
        invariant
            nodes == bdd.nodes@,
            len == nodes.len(),
            encodable(nodes),
            2 <= i <= len,
            clauses.wf(),
            clauses@ == seq![
                seq![(-(nodes[0].aux_var as int)) as i32],
                seq![nodes[1].aux_var as i32],
                seq![nodes.last().aux_var as i32],
            ] + node_clauses(nodes, i as int),
        decreases len - i,
    {
        let nd = bdd.nodes[i];
        let aux = nd.aux_var as i32;
        let left = bdd.nodes[nd.left_child].aux_var as i32;
        let right = bdd.nodes[nd.right_child].aux_var as i32;
        let ghost before = clauses@;
        if nd.aux_var != bdd.nodes[nd.left_child].aux_var {
            let naux = -aux;
            let c = Clause { vars: vec![naux, left] };
            proof {
                assert(c.vars@ =~= seq![(-(nd.aux_var as int)) as i32, left]);
            }
            clauses.add_clause(c);
        }
        let nvar = -(nd.var as i32);
        let naux2 = -aux;
        let c = Clause { vars: vec![nvar, naux2, right] };
        proof {
            assert(c.vars@ =~= seq![(-(nd.var as int)) as i32, (-(nd.aux_var as int)) as i32, right]);
        }
        clauses.add_clause(c);
        proof {
            let ghost k = i as int;
            assert(clauses@ =~= seq![
                seq![(-(nodes[0].aux_var as int)) as i32],
                seq![nodes[1].aux_var as i32],
                seq![nodes.last().aux_var as i32],
            ] + node_clauses(nodes, k + 1));
        }
        i = i + 1;
    }
    clauses
}

} // verus!
