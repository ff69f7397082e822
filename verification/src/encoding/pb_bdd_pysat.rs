//! The pseudo-boolean encoding by an outside tool: the one-hot variables and the job sizes
//! go out as text, and the clauses come back as text, one clause per line of
//! space-separated literals. Running the tool is the caller's part; this encoder writes
//! the request and reads the reply.
use vstd::prelude::*;
use crate::encoding::encoder::Clause;
use crate::encoding::encoder::Clauses;
use crate::encoding::ilp_encoder::decimal;
use crate::encoding::ilp_encoder::push_decimal;
use crate::encoding::ilp_encoder::push_text;
use crate::common::common::load;
use crate::encoding::problem_encoding::one_hot_encoding::OneHot;
use crate::encoding::problem_encoding::one_hot_encoding::OneHotProblemEncoding;
use crate::encoding::problem_encoding::one_hot_encoding::decoded;
use crate::encoding::problem_encoding::one_hot_encoding::one_hot_clauses;
use crate::encoding::problem_encoding::one_hot_encoding::position_var;
use crate::encoding::problem_encoding::one_hot_encoding::rows_count;
use crate::encoding::problem_encoding::one_hot_encoding::true_vars;
use crate::problem_instance::partial_solution::PartialSolution;
use crate::problem_instance::problem_instance::ProblemInstance;
use crate::problem_instance::solution::Solution;

verus! {

/// The first index from `pos` on where `b` holds `c`, or the length of `b` if none.
pub open spec fn next_index(b: Seq<u8>, c: u8, pos: int) -> int
    decreases b.len() - pos,
{
    if pos >= b.len() {
        b.len() as int
    } else if b[pos] == c {
        pos
    } else {
        next_index(b, c, pos + 1)
    }
}

/// `next_index` finds the first `c` from `pos` on.
pub proof fn lemma_next_index(b: Seq<u8>, c: u8, pos: int)
    requires
        0 <= pos <= b.len(),
    ensures
        pos <= next_index(b, c, pos) <= b.len(),
        next_index(b, c, pos) < b.len() ==> b[next_index(b, c, pos)] == c,
        forall|k: int| pos <= k < next_index(b, c, pos) ==> b[k] != c,
    decreases b.len() - pos,
{
    if pos < b.len() && b[pos] != c {
        lemma_next_index(b, c, pos + 1);
    }
}

/// A line without the carriage return that ends it, if any.
pub open spec fn strip_cr(l: Seq<u8>) -> Seq<u8> {
    if l.len() > 0 && l.last() == 13 {
        l.drop_last()
    } else {
        l
    }
}

/// The lines of `b` from `pos` on, as `str::lines` gives them: split at each `\n`, a
/// `\r` before it dropped, and no empty line after a final `\n`.
pub open spec fn lines_from(b: Seq<u8>, pos: int) -> Seq<Seq<u8>>
    decreases b.len() - pos,
{
    if pos >= b.len() || pos < 0 {
        Seq::empty()
    } else {
        let j = next_index(b, 10, pos);
        proof {
            lemma_next_index(b, 10, pos);
        }
        if j >= b.len() {
            seq![b.subrange(pos, b.len() as int)]
        } else {
            seq![strip_cr(b.subrange(pos, j))] + lines_from(b, j + 1)
        }
    }
}

/// The pieces of `l` from `pos` on between single spaces, as `str::split(" ")` gives
/// them (an empty piece between two spaces, and after a final one).
pub open spec fn tokens_from(l: Seq<u8>, pos: int) -> Seq<Seq<u8>>
    decreases l.len() + 1 - pos,
{
    if pos > l.len() || pos < 0 {
        Seq::empty()
    } else {
        let j = next_index(l, 32, pos);
        proof {
            lemma_next_index(l, 32, pos);
        }
        if j >= l.len() {
            seq![l.subrange(pos, l.len() as int)]
        } else {
            seq![l.subrange(pos, j)] + tokens_from(l, j + 1)
        }
    }
}

/// A decimal digit.
pub open spec fn is_digit(c: u8) -> bool {
    48 <= c <= 57
}

/// One or more decimal digits.
pub open spec fn all_digits(d: Seq<u8>) -> bool {
    d.len() >= 1 && forall|i: int| 0 <= i < d.len() ==> is_digit(#[trigger] d[i])
}

/// The number that decimal digits spell.
pub open spec fn digits_value(d: Seq<u8>) -> int
    decreases d.len(),
{
    if d.len() == 0 {
        0
    } else {
        digits_value(d.drop_last()) * 10 + (d.last() - 48)
    }
}

/// What `i32::from_str` gives for `tok`: an optional `+` or `-`, then digits whose value
/// fits an `i32`.
pub open spec fn token_value(tok: Seq<u8>) -> Option<int> {
    if tok.len() > 0 && tok[0] == 45 {
        let d = tok.subrange(1, tok.len() as int);
        if all_digits(d) && digits_value(d) <= 0x8000_0000 {
            Some(-digits_value(d))
        } else {
            None
        }
    } else {
        let d = if tok.len() > 0 && tok[0] == 43 {
            tok.subrange(1, tok.len() as int)
        } else {
            tok
        };
        if all_digits(d) && digits_value(d) <= 0x7fff_ffff {
            Some(digits_value(d))
        } else {
            None
        }
    }
}

/// A literal that a clause can hold: not 0, and with a magnitude that an `i32` holds.
pub open spec fn usable_literal(v: int) -> bool {
    v != 0 && -0x7fff_ffff <= v <= 0x7fff_ffff
}

/// The literal that `tok` spells, if it spells a usable one.
pub open spec fn token_literal(tok: Seq<u8>) -> Option<i32> {
    match token_value(tok) {
        Some(v) => if usable_literal(v) {
            Some(v as i32)
        } else {
            None
        },
        None => None,
    }
}

/// The literals of the first `k` tokens, if each is a usable literal.
pub open spec fn literals(toks: Seq<Seq<u8>>, k: int) -> Option<Seq<i32>>
    decreases k,
{
    if k <= 0 {
        Some(Seq::empty())
    } else {
        match literals(toks, k - 1) {
            Some(ls) => match token_literal(toks[k - 1]) {
                Some(v) => Some(ls.push(v)),
                None => None,
            },
            None => None,
        }
    }
}

/// The clause that a line holds, if each of its pieces is a usable literal.
pub open spec fn line_clause(l: Seq<u8>) -> Option<Seq<i32>> {
    let toks = tokens_from(l, 0);
    literals(toks, toks.len() as int)
}

/// The clauses of the first `k` lines, if every line holds one.
pub open spec fn line_clauses(ls: Seq<Seq<u8>>, k: int) -> Option<Seq<Seq<i32>>>
    decreases k,
{
    if k <= 0 {
        Some(Seq::empty())
    } else {
        match line_clauses(ls, k - 1) {
            Some(cs) => match line_clause(ls[k - 1]) {
                Some(c) => Some(cs.push(c)),
                None => None,
            },
            None => None,
        }
    }
}

/// The clauses of a reply: one per line, if every line holds one.
pub open spec fn reply_clauses(b: Seq<u8>) -> Option<Seq<Seq<i32>>> {
    let ls = lines_from(b, 0);
    line_clauses(ls, ls.len() as int)
}

/// `literals` reads only the first `k` tokens.
proof fn lemma_literals_prefix(a: Seq<Seq<u8>>, b: Seq<Seq<u8>>, k: int)
    requires
        k <= a.len(),
        k <= b.len(),
        forall|i: int| 0 <= i < k ==> a[i] == b[i],
    ensures
        literals(a, k) == literals(b, k),
    decreases k,
{
    if k > 0 {
        lemma_literals_prefix(a, b, k - 1);
    }
}

/// `line_clauses` reads only the first `k` lines.
proof fn lemma_line_clauses_prefix(a: Seq<Seq<u8>>, b: Seq<Seq<u8>>, k: int)
    requires
        k <= a.len(),
        k <= b.len(),
        forall|i: int| 0 <= i < k ==> a[i] == b[i],
    ensures
        line_clauses(a, k) == line_clauses(b, k),
    decreases k,
{
    if k > 0 {
        lemma_line_clauses_prefix(a, b, k - 1);
    }
}

/// One digit more multiplies the value by ten and adds the digit.
proof fn lemma_digits_step(d: Seq<u8>, k: int)
    requires
        0 <= k < d.len(),
    ensures
        digits_value(d.subrange(0, k + 1)) == digits_value(d.subrange(0, k)) * 10 + (d[k] - 48),
{
    assert(d.subrange(0, k + 1).drop_last() =~= d.subrange(0, k));
}

/// The value of digits is at least that of any prefix of them.
proof fn lemma_digits_monotone(d: Seq<u8>, k: int, k2: int)
    requires
        0 <= k <= k2 <= d.len(),
        forall|i: int| 0 <= i < d.len() ==> is_digit(#[trigger] d[i]),
    ensures
        digits_value(d.subrange(0, k)) <= digits_value(d.subrange(0, k2)),
    decreases k2 - k,
{
    if k < k2 {
        lemma_digits_monotone(d, k, k2 - 1);
        lemma_digits_step(d, k2 - 1);
        assert(digits_value(d.subrange(0, k2 - 1)) >= 0) by {
            lemma_digits_nonneg(d.subrange(0, k2 - 1));
        }
    }
}

/// Digits spell a number of at least 0.
proof fn lemma_digits_nonneg(d: Seq<u8>)
    requires
        forall|i: int| 0 <= i < d.len() ==> is_digit(#[trigger] d[i]),
    ensures
        digits_value(d) >= 0,
    decreases d.len(),
{
    if d.len() > 0 {
        lemma_digits_nonneg(d.drop_last());
    }
}

/// The first index from `pos` on where `b` holds `c`, or its length.
fn find_byte(b: &Vec<u8>, c: u8, pos: usize) -> (j: usize)
    requires
        pos <= b.len(),
    ensures
        j == next_index(b@, c, pos as int),
{
    let mut j = pos;
    while j < b.len() && b[j] != c
        invariant
            pos <= j <= b.len(),
            next_index(b@, c, j as int) == next_index(b@, c, pos as int),
        decreases b.len() - j,
    {
        j = j + 1;
    }
    j
}

/// The bytes `from..to` of `b`.
fn copy_range(b: &Vec<u8>, from: usize, to: usize) -> (r: Vec<u8>)
    requires
        from <= to <= b.len(),
    ensures
        r@ == b@.subrange(from as int, to as int),
{
    let mut r: Vec<u8> = Vec::new();
    let mut i = from;
    while i < to
        invariant
            from <= i <= to <= b.len(),
            r@ == b@.subrange(from as int, i as int),
        decreases to - i,
    {
        r.push(b[i]);
        assert(r@ =~= b@.subrange(from as int, i + 1));
        i = i + 1;
    }
    r
}

/// The literal that `tok` spells, if it spells a usable one.
fn parse_token(tok: &Vec<u8>) -> (r: Option<i32>)
    ensures
        r == token_literal(tok@),
{
    let len = tok.len();
    let mut start: usize = 0;
    let mut neg = false;
    if len > 0 && tok[0] == 45 {
        neg = true;
        start = 1;
    } else if len > 0 && tok[0] == 43 {
        start = 1;
    }
    let ghost d = tok@.subrange(start as int, len as int);
    proof {
        if start == 0 {
            assert(d =~= tok@);
        }
    }
    if start >= len {
        assert(!all_digits(d));
        return None;
    }
    let mut acc: u64 = 0;
    let mut i = start;
    while i < len
        invariant
            start <= i <= len,
            len == tok.len(),
            d == tok@.subrange(start as int, len as int),
            start == 0 ==> d == tok@,
            neg == (len > 0 && tok@[0] == 45),
            (start == 1) == (len > 0 && (tok@[0] == 45 || tok@[0] == 43)),
            start <= 1,
            forall|k: int| 0 <= k < i - start ==> is_digit(#[trigger] d[k]),
            acc == digits_value(d.subrange(0, i - start)),
            acc <= 0x8000_0000,
        decreases len - i,
    {
        let c = tok[i];
        if c < 48 || c > 57 {
            assert(!is_digit(d[i - start]));
            assert(!all_digits(d));
            return None;
        }
        proof {
            lemma_digits_step(d, i - start);
        }
        acc = acc * 10 + (c - 48) as u64;
        i = i + 1;
        if acc > 0x8000_0000 {
            proof {
                if all_digits(d) {
                    lemma_digits_monotone(d, i - start, d.len() as int);
                    assert(d.subrange(0, d.len() as int) =~= d);
                }
            }
            return None;
        }
    }
    assert(d.subrange(0, i - start) =~= d);
    assert(all_digits(d));
    if acc == 0 || acc > 0x7fff_ffff {
        return None;
    }
    let v = acc as i32;
    if neg {
        Some(-v)
    } else {
        Some(v)
    }
}

/// The clause that the line `l` holds, if each of its pieces is a usable literal.
fn parse_line(l: &Vec<u8>) -> (r: Option<Vec<i32>>)
    ensures
        match r {
            Some(v) => line_clause(l@) == Some(v@),
            None => line_clause(l@) is None,
        },
{
    let ghost toks = tokens_from(l@, 0);
    let ghost mut done: Seq<Seq<u8>> = Seq::empty();
    let mut out: Vec<i32> = Vec::new();
    let mut pos: usize = 0;
    loop
        invariant
            pos <= l.len(),
            toks == tokens_from(l@, 0),
            toks == done + tokens_from(l@, pos as int),
            literals(done, done.len() as int) == Some(out@),
        decreases l.len() - pos,
    {
        let j = find_byte(l, 32, pos);
        proof {
            lemma_next_index(l@, 32, pos as int);
        }
        let tok = copy_range(l, pos, j);
        let ghost next_done = done.push(tok@);
        proof {
            lemma_literals_prefix(next_done, done, done.len() as int);
            lemma_literals_prefix(toks, next_done, next_done.len() as int);
            lemma_literals_prefix(toks, done, done.len() as int);
        }
        match parse_token(&tok) {
            Some(v) => {
                out.push(v);
                proof {
                    done = next_done;
                }
                if j >= l.len() {
                    assert(toks =~= done);
                    return Some(out);
                }
                assert(toks =~= done + tokens_from(l@, j + 1));
                pos = j + 1;
            },
            None => {
                proof {
                    assert(literals(next_done, next_done.len() as int) is None);
                    assert(toks[done.len() as int] == tok@);
                    assert(literals(toks, next_done.len() as int) is None);
                    lemma_literals_none_stays(toks, next_done.len() as int, toks.len() as int);
                }
                return None;
            },
        }
    }
}

/// Once a token fails, the literals of more tokens fail too.
proof fn lemma_literals_none_stays(toks: Seq<Seq<u8>>, k: int, k2: int)
    requires
        k <= k2,
        literals(toks, k) is None,
    ensures
        literals(toks, k2) is None,
    decreases k2 - k,
{
    if k < k2 {
        lemma_literals_none_stays(toks, k, k2 - 1);
    }
}

/// Once a line fails, the clauses of more lines fail too.
proof fn lemma_line_clauses_none_stays(ls: Seq<Seq<u8>>, k: int, k2: int)
    requires
        k <= k2,
        line_clauses(ls, k) is None,
    ensures
        line_clauses(ls, k2) is None,
    decreases k2 - k,
{
    if k < k2 {
        lemma_line_clauses_none_stays(ls, k, k2 - 1);
    }
}

/// The clauses of a reply, one per line, if every line holds one.
pub fn parse_reply(b: &Vec<u8>) -> (r: Option<Vec<Vec<i32>>>)
    ensures
        match r {
            Some(cs) => reply_clauses(b@) == Some(Seq::new(cs.len() as nat, |i: int| cs[i]@)),
            None => reply_clauses(b@) is None,
        },
{
    let ghost ls = lines_from(b@, 0);
    let ghost mut done: Seq<Seq<u8>> = Seq::empty();
    let mut out: Vec<Vec<i32>> = Vec::new();
    let mut pos: usize = 0;
    while pos < b.len()
        invariant
            pos <= b.len(),
            ls == lines_from(b@, 0),
            ls == done + lines_from(b@, pos as int),
            line_clauses(done, done.len() as int) == Some(Seq::new(out.len() as nat, |i: int| out[i]@)),
        decreases b.len() - pos,
    {
        let j = find_byte(b, 10, pos);
        proof {
            lemma_next_index(b@, 10, pos as int);
        }
        let end = if j < b.len() && j > pos && b[j - 1] == 13 {
            j - 1
        } else {
            j
        };
        let line = copy_range(b, pos, end);
        proof {
            if j < b.len() {
                assert(line@ =~= strip_cr(b@.subrange(pos as int, j as int)));
            } else {
                assert(line@ =~= b@.subrange(pos as int, b.len() as int));
            }
        }
        let ghost next_done = done.push(line@);
        proof {
            lemma_line_clauses_prefix(next_done, done, done.len() as int);
            lemma_line_clauses_prefix(ls, next_done, next_done.len() as int);
        }
        match parse_line(&line) {
            Some(c) => {
                let ghost before = Seq::new(out.len() as nat, |i: int| out[i]@);
                out.push(c);
                proof {
                    assert(Seq::new(out.len() as nat, |i: int| out[i]@) =~= before.push(c@));
                    done = next_done;
                }
                if j >= b.len() {
                    assert(ls =~= done);
                    pos = b.len();
                } else {
                    assert(ls =~= done + lines_from(b@, j + 1));
                    pos = j + 1;
                }
            },
            None => {
                proof {
                    assert(ls[done.len() as int] == line@);
                    assert(line_clauses(ls, next_done.len() as int) is None);
                    lemma_line_clauses_none_stays(ls, next_done.len() as int, ls.len() as int);
                }
                return None;
            },
        }
    }
    assert(lines_from(b@, pos as int) =~= Seq::<Seq<u8>>::empty());
    assert(ls =~= done);
    Some(out)
}

/// The sizes of the first `k` jobs, each followed by a space.
pub open spec fn size_list(sizes: Seq<usize>, k: int) -> Seq<char>
    decreases k,
{
    if k <= 0 {
        Seq::empty()
    } else {
        size_list(sizes, k - 1) + decimal(sizes[k - 1] as nat) + " "@
    }
}

/// The variable of a job on a processor, or 0 where it may not go there.
pub open spec fn var_or_zero(v: Option<usize>) -> nat {
    match v {
        Some(x) => x as nat,
        None => 0,
    }
}

/// The first `t` entries of a row of position variables, each followed by a space.
pub open spec fn var_row(row: Seq<Option<usize>>, t: int) -> Seq<char>
    decreases t,
{
    if t <= 0 {
        Seq::empty()
    } else {
        var_row(row, t - 1) + decimal(var_or_zero(row[t - 1])) + " "@
    }
}

/// The rows of the first `k` jobs, each on a line.
pub open spec fn var_rows(pv: Seq<Vec<Option<usize>>>, m: int, k: int) -> Seq<char>
    decreases k,
{
    if k <= 0 {
        Seq::empty()
    } else {
        var_rows(pv, m, k - 1) + var_row(pv[k - 1]@, m) + "\n"@
    }
}

/// The request: a line with the number of jobs, of processors, the next free variable and
/// the makespan; a line with the job sizes; then for each job the line of its position
/// variables on the processors.
pub open spec fn request_text(
    n: nat,
    m: nat,
    num_vars: nat,
    makespan: nat,
    sizes: Seq<usize>,
    pv: Seq<Vec<Option<usize>>>,
) -> Seq<char> {
    decimal(n) + " "@ + decimal(m) + " "@ + decimal(num_vars) + " "@ + decimal(makespan) + "\n"@
        + size_list(sizes, n as int) + "\n"@
        + var_rows(pv, m as int, n as int)
}

/// The largest magnitude among the first `t` literals of a clause, or 0.
pub open spec fn clause_max(c: Seq<i32>, t: int) -> int
    decreases t,
{
    if t <= 0 {
        0
    } else {
        let a = if c[t - 1] < 0 { -c[t - 1] } else { c[t - 1] as int };
        let rest = clause_max(c, t - 1);
        if rest >= a { rest } else { a }
    }
}

/// The largest magnitude of a literal in the first `k` clauses, or 0.
pub open spec fn clauses_max(cs: Seq<Seq<i32>>, k: int) -> int
    decreases k,
{
    if k <= 0 {
        0
    } else {
        let a = clause_max(cs[k - 1], cs[k - 1].len() as int);
        let rest = clauses_max(cs, k - 1);
        if rest >= a { rest } else { a }
    }
}

proof fn lemma_clause_max_bound(c: Seq<i32>, t: int)
    requires
        forall|i: int| 0 <= i < c.len() ==> usable_literal(#[trigger] c[i] as int),
        t <= c.len(),
    ensures
        0 <= clause_max(c, t) <= 0x7fff_ffff,
    decreases t,
{
    if t > 0 {
        lemma_clause_max_bound(c, t - 1);
    }
}

proof fn lemma_literals_usable(toks: Seq<Seq<u8>>, k: int)
    requires
        literals(toks, k) is Some,
    ensures
        forall|i: int| 0 <= i < literals(toks, k)->0.len() ==> usable_literal(#[trigger] literals(toks, k)->0[i] as int),
    decreases k,
{
    if k > 0 {
        lemma_literals_usable(toks, k - 1);
        let prev = literals(toks, k - 1)->0;
        let cur = literals(toks, k)->0;
        assert forall|i: int| 0 <= i < cur.len() implies usable_literal(#[trigger] cur[i] as int) by {
            if i < prev.len() {
                assert(cur[i] == prev[i]);
            }
        }
    }
}

proof fn lemma_line_clauses_usable(ls: Seq<Seq<u8>>, k: int)
    requires
        line_clauses(ls, k) is Some,
    ensures
        forall|i: int, t: int| 0 <= i < line_clauses(ls, k)->0.len() && 0 <= t < line_clauses(ls, k)->0[i].len()
            ==> usable_literal(#[trigger] line_clauses(ls, k)->0[i][t] as int),
    decreases k,
{
    if k > 0 {
        lemma_line_clauses_usable(ls, k - 1);
        let prev = line_clauses(ls, k - 1)->0;
        let cur = line_clauses(ls, k)->0;
        let toks = tokens_from(ls[k - 1], 0);
        lemma_literals_usable(toks, toks.len() as int);
        assert forall|i: int, t: int| 0 <= i < cur.len() && 0 <= t < cur[i].len() implies usable_literal(#[trigger] cur[i][t] as int) by {
            if i < prev.len() {
                assert(cur[i] == prev[i]);
            }
        }
    }
}

#[derive(Clone, Debug)]
pub struct PbPysatEncoder {
    one_hot: OneHotProblemEncoding,
    pub clauses: Clauses,
}

impl PbPysatEncoder {
    pub fn new() -> (e: PbPysatEncoder)
        ensures
            e.pending().wf(),
            e.pending()@ == Seq::<Seq<i32>>::empty(),
            e.one_hot().var_name_generator.spec_peek() == 1,
    {
        PbPysatEncoder { one_hot: OneHotProblemEncoding::new(), clauses: Clauses::new() }
    }

    /// The one-hot part of the encoding.
    pub closed spec fn one_hot(&self) -> OneHotProblemEncoding {
        self.one_hot
    }

    /// The clauses of the last reply, not yet handed out.
    pub closed spec fn pending(&self) -> Clauses {
        self.clauses
    }

    /// Encodes the one-hot part of `partial_solution` and writes the request for the
    /// tool that encodes the loads.
    pub fn request(&mut self, partial_solution: &PartialSolution, makespan: usize) -> (text: String)
        requires
            partial_solution.wf(),
            partial_solution.instance.num_jobs >= 1,
            1 + partial_solution.instance.num_jobs * partial_solution.instance.num_processors <= i32::MAX,
        ensures
            ({
                let pa = partial_solution.possible_allocations@;
                let m = partial_solution.instance.num_processors as int;
                let n = partial_solution.instance.num_jobs as int;
                let oh = final(self).one_hot();
                &&& oh.position_vars.len() == n
                &&& forall|i: int, j: int| 0 <= i < n && 0 <= j < m ==> (#[trigger] oh.position_vars[i]@[j]) == position_var(pa, m, i, j)
                &&& forall|i: int| 0 <= i < n ==> (#[trigger] oh.position_vars[i]).len() == m
                &&& oh.clauses.wf()
                &&& oh.clauses@ == one_hot_clauses(pa, m, n)
                &&& oh.var_name_generator.spec_peek() == 1 + rows_count(pa, m, n)
                &&& final(self).pending() == old(self).pending()
                &&& text@ == request_text(
                    n as nat,
                    m as nat,
                    oh.var_name_generator.spec_peek() as nat,
                    makespan as nat,
                    partial_solution.instance.job_sizes@,
                    oh.position_vars@,
                )
            }),
    {
        self.one_hot.encode(partial_solution);
        let n = partial_solution.instance.num_jobs;
        let m = partial_solution.instance.num_processors;
        let mut text = String::new();
        push_decimal(&mut text, n);
        push_text(&mut text, " ");
        push_decimal(&mut text, m);
        push_text(&mut text, " ");
        push_decimal(&mut text, self.one_hot.var_name_generator.peek());
        push_text(&mut text, " ");
        push_decimal(&mut text, makespan);
        push_text(&mut text, "\n");
        let ghost head = text@;
        let mut job: usize = 0;
        while job < n
            invariant
                partial_solution.wf(),
                n == partial_solution.instance.num_jobs,
                job <= n,
                text@ == head + size_list(partial_solution.instance.job_sizes@, job as int),
            decreases n - job,
        {
            push_decimal(&mut text, partial_solution.instance.job_sizes[job]);
            push_text(&mut text, " ");
            assert(text@ =~= head + size_list(partial_solution.instance.job_sizes@, job + 1));
            job = job + 1;
        }
        push_text(&mut text, "\n");
        let ghost mid = text@;
        let mut job: usize = 0;
        while job < n
            invariant
                n == self.one_hot.position_vars.len(),
                forall|i: int| 0 <= i < n ==> (#[trigger] self.one_hot.position_vars[i]).len() == m,
                job <= n,
                text@ == mid + var_rows(self.one_hot.position_vars@, m as int, job as int),
            decreases n - job,
        {
            let ghost start = text@;
            let mut p: usize = 0;
            while p < m
                invariant
                    n == self.one_hot.position_vars.len(),
                    forall|i: int| 0 <= i < n ==> (#[trigger] self.one_hot.position_vars[i]).len() == m,
                    job < n,
                    p <= m,
                    text@ == start + var_row(self.one_hot.position_vars@[job as int]@, p as int),
                decreases m - p,
            {
                let v = match self.one_hot.position_vars[job][p] {
                    Some(x) => x,
                    None => 0,
                };
                push_decimal(&mut text, v);
                push_text(&mut text, " ");
                assert(text@ =~= start + var_row(self.one_hot.position_vars@[job as int]@, p + 1));
                p = p + 1;
            }
            push_text(&mut text, "\n");
            assert(text@ =~= mid + var_rows(self.one_hot.position_vars@, m as int, job + 1));
            job = job + 1;
        }
        assert(text@ =~= request_text(
            n as nat,
            m as nat,
            self.one_hot.var_name_generator.spec_peek() as nat,
            makespan as nat,
            partial_solution.instance.job_sizes@,
            self.one_hot.position_vars@,
        ));
        text
    }

    /// Reads the tool's reply: on success its clauses become the pending ones and the
    /// next free variable comes after both the largest literal of the reply and the
    /// one-hot variables. A reply with a line that is not a clause of usable literals
    /// leaves the encoder as it was.
    pub fn accept_reply(&mut self, reply: &Vec<u8>) -> (r: bool)
        requires
            old(self).one_hot().var_name_generator.spec_peek() <= i32::MAX,
        ensures
            r == reply_clauses(reply@) is Some,
            !r ==> *final(self) == *old(self),
            r ==> {
                let cs = reply_clauses(reply@)->0;
                let top = clauses_max(cs, cs.len() as int);
                let before = old(self).one_hot().var_name_generator.spec_peek() as int;
                &&& final(self).pending().wf()
                &&& final(self).pending()@ == cs
                &&& final(self).one_hot().position_vars == old(self).one_hot().position_vars
                &&& final(self).one_hot().clauses == old(self).one_hot().clauses
                &&& final(self).one_hot().var_name_generator.spec_peek() == (if top >= before { top } else { before }) + 1
            },
    {
        let parsed = parse_reply(reply);
        let cs = match parsed {
            Some(cs) => cs,
            None => {
                return false;
            },
        };
        let ghost all = reply_clauses(reply@)->0;
        proof {
            let ls = lines_from(reply@, 0);
            lemma_line_clauses_usable(ls, ls.len() as int);
        }
        let mut clauses = Clauses::new();
        let mut max: usize = 0;
        let mut k: usize = 0;
        while k < cs.len()
            invariant
                all == Seq::new(cs.len() as nat, |i: int| cs[i]@),
                forall|i: int, t: int| 0 <= i < all.len() && 0 <= t < all[i].len() ==> usable_literal(#[trigger] all[i][t] as int),
                k <= cs.len(),
                clauses.wf(),
                clauses@ == all.take(k as int),
                max == clauses_max(all, k as int),
                max <= 0x7fff_ffff,
            decreases cs.len() - k,
        {
            let ghost c = all[k as int];
            assert(cs[k as int]@ == c);
            let mut t: usize = 0;
            let mut line_max: usize = 0;
            while t < cs[k].len()
                invariant
                    k < cs.len(),
                    c == cs[k as int]@,
                    forall|t2: int| 0 <= t2 < c.len() ==> usable_literal(#[trigger] c[t2] as int),
                    t <= c.len(),
                    line_max == clause_max(c, t as int),
                    line_max <= 0x7fff_ffff,
                decreases c.len() - t,
            {
                let l = cs[k][t];
                assert(usable_literal(c[t as int] as int));
                let a: usize = if l < 0 {
                    (-l) as usize
                } else {
                    l as usize
                };
                if a > line_max {
                    line_max = a;
                }
                t = t + 1;
            }
            if line_max > max {
                max = line_max;
            }
            proof {
                assert forall|t2: int| 0 <= t2 < c.len() implies #[trigger] c[t2] != 0 by {
                    assert(usable_literal(c[t2] as int));
                }
            }
            let ghost before = clauses@;
            clauses.add_clause(Clause { vars: cs[k].clone() });
            assert(clauses@ =~= all.take(k + 1));
            k = k + 1;
        }
        assert(all.take(k as int) =~= all);
        let num_vars = self.one_hot.var_name_generator.peek();
        if num_vars > max {
            max = num_vars;
        }
        self.one_hot.var_name_generator.jump_to(max + 1);
        self.clauses = clauses;
        true
    }

    /// The clauses of the reply followed by the one-hot clauses; the encoder keeps none
    /// of them.
    pub fn output(&mut self) -> (out: Clauses)
        requires
            old(self).pending().wf(),
            old(self).one_hot().clauses.wf(),
        ensures
            out.wf(),
            out@ == old(self).pending()@ + old(self).one_hot().clauses@,
    {
        let mut out = Clauses::new();
        std::mem::swap(&mut out, &mut self.clauses);
        out.add_many_clauses(&mut self.one_hot.clauses);
        out
    }

    /// The schedule that a model of the clauses describes: each job on the processor whose
    /// position variable is true.
    pub fn decode(&self, instance: &ProblemInstance, var_assignment: &Vec<i32>) -> (s: Solution)
        requires
            self.one_hot().fits(instance),
            instance.wf(),
            decoded(self.one_hot().position_vars@, true_vars(var_assignment@), self.one_hot().position_vars.len() as int).len()
                == self.one_hot().position_vars.len(),
            forall|p: int| 0 <= p < instance.num_processors ==> #[trigger] load(instance.job_sizes@,
                decoded(self.one_hot().position_vars@, true_vars(var_assignment@), self.one_hot().position_vars.len() as int),
                p, instance.num_jobs as int) <= usize::MAX,
        ensures
            s.assignment@ == decoded(self.one_hot().position_vars@, true_vars(var_assignment@), self.one_hot().position_vars.len() as int),
    {
        self.one_hot.decode(instance, var_assignment)
    }

    /// The number of the next free variable.
    pub fn get_num_vars(&self) -> (n: usize)
        ensures
            n == self.one_hot().var_name_generator.spec_peek(),
    {
        self.one_hot.var_name_generator.peek()
    }
}

impl OneHot for PbPysatEncoder {
    closed spec fn has_position(&self, job_num: usize, proc_num: usize) -> bool {
        self.one_hot.has_position(job_num, proc_num)
    }

    fn get_position_var(&self, job_num: usize, proc_num: usize) -> (r: Option<usize>)
        ensures
            r == self.one_hot().position_vars[job_num as int]@[proc_num as int],
    {
        self.one_hot.get_position_var(job_num, proc_num)
    }
}

} // verus!
