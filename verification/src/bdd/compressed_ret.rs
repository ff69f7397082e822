//! For each remaining capacity, the job at which it first becomes reachable when the jobs
//! are taken from the last one back.
use vstd::prelude::*;

verus! {

/// The table after taking in the jobs `i..`, from the last back: entry `u` names the job with
/// which the capacity `u` (out of `makespan`) first became reachable, or `usize::MAX`.
pub open spec fn ranges_from(jobs: Seq<usize>, weights: Seq<usize>, makespan: int, i: int) -> Seq<usize>
    decreases jobs.len() - i,
{
    if i >= jobs.len() {
        Seq::new(makespan as nat, |u: int| usize::MAX)
    } else {
        let prev = ranges_from(jobs, weights, makespan, i + 1);
        let w = weights[i] as int;
        Seq::new(makespan as nat, |u: int|
            if prev[u] != usize::MAX {
                prev[u]
            } else if u == makespan - w || (u + w < makespan && prev[u + w] != usize::MAX) {
                jobs[i]
            } else {
                usize::MAX
            })
    }
}

/// No entry in `lo..hi` names a job at or after `job`.
pub open spec fn no_later_job(ranges: Seq<usize>, job: usize, lo: int, hi: int) -> bool {
    forall|i: int| lo <= i < hi ==> #[trigger] ranges[i] == usize::MAX || ranges[i] < job
}

#[derive(Debug)]
pub struct CompressedRet {
    ranges: Vec<usize>,
}

/// The jobs are distinct names, none of them `usize::MAX`, and each weight lies in `1..=makespan`.
pub open spec fn ret_inputs(jobs: Seq<usize>, weights: Seq<usize>, makespan: int) -> bool {
    &&& weights.len() == jobs.len()
    &&& forall|i: int| 0 <= i < jobs.len() ==> #[trigger] jobs[i] < usize::MAX
    &&& forall|i: int, k: int| 0 <= i < k < jobs.len() ==> jobs[i] != jobs[k]
    &&& forall|i: int| 0 <= i < weights.len() ==> 1 <= #[trigger] weights[i] <= makespan
}

proof fn lemma_ranges_from_len(jobs: Seq<usize>, weights: Seq<usize>, makespan: int, i: int)
    requires
        makespan >= 0,
    ensures
        ranges_from(jobs, weights, makespan, i).len() == makespan,
    decreases jobs.len() - i,
{
    if i < jobs.len() {
        lemma_ranges_from_len(jobs, weights, makespan, i + 1);
    }
}

/// Entries of the table name jobs taken in, or are empty.
proof fn lemma_ranges_from_values(jobs: Seq<usize>, weights: Seq<usize>, makespan: int, i: int)
    requires
        makespan >= 0,
        0 <= i <= jobs.len(),
    ensures
        forall|u: int| 0 <= u < makespan ==> #[trigger] ranges_from(jobs, weights, makespan, i)[u] == usize::MAX
            || exists|k: int| i <= k < jobs.len() && jobs[k] == ranges_from(jobs, weights, makespan, i)[u],
    decreases jobs.len() - i,
{
    if i < jobs.len() {
        lemma_ranges_from_values(jobs, weights, makespan, i + 1);
        lemma_ranges_from_len(jobs, weights, makespan, i + 1);
        let cur = ranges_from(jobs, weights, makespan, i);
        assert forall|u: int| 0 <= u < makespan implies #[trigger] cur[u] == usize::MAX
            || exists|k: int| i <= k < jobs.len() && jobs[k] == cur[u] by {
            let prev = ranges_from(jobs, weights, makespan, i + 1);
            if prev[u] != usize::MAX {
                let k = choose|k: int| i + 1 <= k < jobs.len() && jobs[k] == prev[u];
                assert(i <= k < jobs.len() && jobs[k] == cur[u]);
            } else if cur[u] != usize::MAX {
                assert(jobs[i] == cur[u]);
            }
        }
    }
}

impl CompressedRet {
    /// The table held.
    pub closed spec fn ranges(&self) -> Seq<usize> {
        self.ranges@
    }

    pub fn new(jobs: &Vec<usize>, weights: &Vec<usize>, makespan: usize) -> (r: CompressedRet)
        requires
            ret_inputs(jobs@, weights@, makespan as int),
        ensures
            r.ranges() == ranges_from(jobs@, weights@, makespan as int, 0),
    {
        let ghost js = jobs@;
        let ghost ws = weights@;
        let mut ranges: Vec<usize> = Vec::new();
        while ranges.len() < makespan
            invariant
                ranges.len() <= makespan,
                forall|u: int| 0 <= u < ranges.len() ==> #[trigger] ranges[u] == usize::MAX,
            decreases makespan - ranges.len(),
        {
            ranges.push(usize::MAX);
        }
        proof {
            assert(ranges@ =~= ranges_from(js, ws, makespan as int, js.len() as int));
        }
        let mut i: usize = jobs.len();
        while i > 0
            invariant
                js == jobs@,
                ws == weights@,
                ret_inputs(js, ws, makespan as int),
                i <= js.len(),
                ranges@ == ranges_from(js, ws, makespan as int, i as int),
            decreases i,
        {
            i = i - 1;
            let job = jobs[i];
            let job_size = weights[i];
            let ghost prev = ranges@;
            proof {
                lemma_ranges_from_len(js, ws, makespan as int, i + 1);
                lemma_ranges_from_values(js, ws, makespan as int, i + 1);
                // no entry of the table names this job yet
                assert forall|u: int| 0 <= u < makespan implies #[trigger] prev[u] != job by {
                    if prev[u] != usize::MAX {
                        let k = choose|k: int| i + 1 <= k < js.len() && js[k] == prev[u];
                        assert(js[i as int] != js[k]);
                    }
                }
            }
            if ranges[makespan - job_size] == usize::MAX {
                ranges.set(makespan - job_size, job);
            }
            let mut u: usize = makespan - job_size;
            while u > 0
                invariant
                    js == jobs@,
                    ws == weights@,
                    i < js.len(),
                    job == js[i as int],
                    job_size == ws[i as int],
                    job < usize::MAX,
                    1 <= job_size <= makespan,
                    u <= makespan - job_size,
                    ranges.len() == makespan,
                    prev.len() == makespan,
                    prev == ranges_from(js, ws, makespan as int, i + 1),
                    forall|v: int| 0 <= v < makespan ==> #[trigger] prev[v] != job,
                    // entries below `u` are as before; from `u` up they are the new table
                    forall|v: int| 0 <= v < u ==> #[trigger] ranges@[v] == prev[v],
                    forall|v: int| u <= v < makespan ==> #[trigger] ranges@[v] == ranges_from(js, ws, makespan as int, i as int)[v],
                decreases u,
            {
                u = u - 1;
                proof {
                    assert(ranges@[u + job_size] == ranges_from(js, ws, makespan as int, i as int)[u + job_size]);
                }
                if ranges[u] == usize::MAX {
                    if ranges[u + job_size] != usize::MAX && ranges[u + job_size] != job {
                        ranges.set(u, job);
                    }
                }
                proof {
                    let cur = ranges_from(js, ws, makespan as int, i as int);
                    let x = u + job_size;
                    // the entry read above this one is new exactly when it names this job
                    assert(cur[x] != usize::MAX && cur[x] != job <==> prev[x] != usize::MAX);
                    assert(ranges@[u as int] == cur[u as int]);
                }
            }
            proof {
                assert(ranges@ =~= ranges_from(js, ws, makespan as int, i as int));
            }
        }
        CompressedRet { ranges }
    }

    /// Whether no entry in `min(u1, u2)..max(u1, u2)` names a job at or after `job`.
    pub fn are_same_range(&self, job: usize, u1: usize, u2: usize) -> (r: bool)
        requires
            u1 <= self.ranges().len(),
            u2 <= self.ranges().len(),
        ensures
            r == no_later_job(self.ranges(), job, if u1 <= u2 { u1 as int } else { u2 as int }, if u1 <= u2 { u2 as int } else { u1 as int }),
    {
        let lo = if u1 > u2 { u2 } else { u1 };
        let hi = if u1 > u2 { u1 } else { u2 };
        let mut i: usize = lo;
        while i < hi
            invariant
                lo == (if u1 <= u2 { u1 } else { u2 }),
                hi == (if u1 <= u2 { u2 } else { u1 }),
                lo <= i <= hi,
                hi <= self.ranges@.len(),
                forall|k: int| lo <= k < i ==> #[trigger] self.ranges@[k] == usize::MAX || self.ranges@[k] < job,
            decreases hi - i,
        {
            if self.ranges[i] != usize::MAX && self.ranges[i] >= job {
                assert(!(self.ranges()[i as int] == usize::MAX || self.ranges()[i as int] < job));
                assert(!no_later_job(self.ranges(), job, lo as int, hi as int));
                return false;
            }
            i = i + 1;
        }
        true
    }
}

} // verus!
