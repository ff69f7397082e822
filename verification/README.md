# pcmax

A SAT- and ILP-based toolkit for P||Cmax (jobs on identical processors, minimising the
largest load), written in Verus: the library's functions carry contracts that Verus proves. What the
contracts state and what they leave open is said in each function's documentation.

- `src/problem_instance`: instances, partial schedules and schedules.
- `src/bounds`: lower bounds (pigeon hole, largest job, middle jobs, subset sums,
  Martello–Toth, lifting, Fekete–Schepers) and upper bounds (LPT and its variants,
  multi-start search). The pigeon-hole, largest-job, middle-jobs, subset-sum and
  Fekete–Schepers lower bounds come with proofs that they are lower bounds; LPT,
  Martello–Toth and lifting do not.
- `src/encoding`: the variable names and clause sets, binary arithmetic, cardinality
  networks, decision diagrams (`src/bdd`), the SAT encoders, the LP-format programs, and
  the request/reply format of the outside pseudo-boolean tool. Of the SAT encoders, the
  basic encoder's contract ties its models to the schedules within the makespan; the merge
  and arc-flow encoders state narrower facts (the load digits of each processor stay within
  its room, one arc per job, flow at each node), and the interleaved diagram encoder states
  its clause limit and its per-processor diagrams.
- `src/_failed_ideas`: approaches that were set aside, kept for comparison.
- `app/`: the parts that meet the outside world (clocks in seconds, the outside tool's
  process, printing, a float threshold).
- `tests/`: the tests, run against the compiled library.

Not included: the encoders that add precedence relations between jobs (they rest on a
precedence module that is not part of this code base), and `PbInter`, the pseudo-boolean
encoder over interval diagrams, which calls a diagram encoding (`encode_bad`), a relation
between two plain diagrams and per-node ranges that are not part of this code base either.
The multi-start search and the lifting bound stop on the clock; their loops are verified
functions of the library, and `app/` only checks their inputs before calling them.
