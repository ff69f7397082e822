//! Numbers written in binary with one SAT variable per bit, and clause encodings
//! of comparisons, sums and membership over them.
use vstd::prelude::*;
use vstd::arithmetic::power2::{pow2, lemma_pow2_pos, lemma_pow2_unfold, lemma_pow2_strictly_increases, lemma2_to64};
use vstd::arithmetic::div_mod::{lemma_small_mod, lemma_fundamental_div_mod, lemma_basic_div};
use vstd::bits::{lemma_usize_shl_is_mul, lemma_usize_shr_is_div};
use crate::encoding::encoder::{VarNameGenerator, Clause, Clauses, all_valid, valid_var, pos, neg, lit_true, clause_sat, all_sat, zero_free, proper_lit, lemma_pos_neg, lemma_neg_lit, lemma_all_sat_append, lemma_all_sat_push, lemma_clause_sat_append, lemma_clause_sat_push};

verus! {

/// The value of a little-endian sequence of bits.
pub open spec fn val(b: Seq<bool>) -> nat
    decreases b.len(),
{
    if b.len() == 0 {
        0
    } else {
        val(b.drop_last()) + if b.last() {
            pow2((b.len() - 1) as nat)
        } else {
            0
        }
    }
}

/// The bits that assignment `a` gives to the variables `vars`.
pub open spec fn bits_of(a: spec_fn(int) -> bool, vars: Seq<usize>) -> Seq<bool> {
    Seq::new(vars.len(), |i: int| a(vars[i] as int))
}

/// The number that assignment `a` gives to the variables `vars`, least significant first.
pub open spec fn value(a: spec_fn(int) -> bool, vars: Seq<usize>) -> nat {
    val(bits_of(a, vars))
}

/// The number of bits of the shortest binary form of `k` (at least one).
pub open spec fn spec_bitlength(k: nat) -> nat
    decreases k,
{
    if k <= 1 {
        1
    } else {
        1 + spec_bitlength(k / 2)
    }
}

/// Bit `i` of `k`.
pub open spec fn bit(k: nat, i: nat) -> bool {
    (k / pow2(i)) % 2 == 1
}

/// The shortest binary form of `k`, least significant bit first.
pub open spec fn spec_to_binary(k: nat) -> Seq<bool> {
    Seq::new(spec_bitlength(k), |i: int| bit(k, i as nat))
}

pub proof fn lemma_val_bound(b: Seq<bool>)
    ensures
        val(b) < pow2(b.len()),
    decreases b.len(),
{
    if b.len() == 0 {
        lemma2_to64();
    } else {
        lemma_val_bound(b.drop_last());
        lemma_pow2_unfold(b.len());
    }
}

pub proof fn lemma_bitlength_bounds(k: nat)
    ensures
        spec_bitlength(k) >= 1,
        k < pow2(spec_bitlength(k)),
        k >= 1 ==> pow2((spec_bitlength(k) - 1) as nat) <= k,
    decreases k,
{
    lemma2_to64();
    if k > 1 {
        lemma_bitlength_bounds(k / 2);
        let b = spec_bitlength(k / 2);
        lemma_pow2_unfold(b + 1);
        lemma_pow2_unfold(b);
        assert(pow2((spec_bitlength(k) - 1) as nat) == pow2(b));
    }
}

/// The bit length is the only `b` with `2^(b-1) <= k < 2^b` (for `k >= 1`).
pub proof fn lemma_bitlength_unique(k: nat, b: nat)
    requires
        k >= 1,
        b >= 1,
        pow2((b - 1) as nat) <= k < pow2(b),
    ensures
        spec_bitlength(k) == b,
{
    lemma_bitlength_bounds(k);
    let c = spec_bitlength(k);
    if c < b {
        if c <= (b - 1) as nat {
            if c < (b - 1) as nat {
                lemma_pow2_strictly_increases(c, (b - 1) as nat);
            }
        }
    } else if c > b {
        if b < (c - 1) as nat {
            lemma_pow2_strictly_increases(b, (c - 1) as nat);
        }
    }
}

/// The bits of `k` below position `l` have the value `k % 2^l`.
pub proof fn lemma_val_of_bits(k: nat, l: nat)
    ensures
        val(Seq::new(l, |i: int| bit(k, i as nat))) == k % pow2(l),
    decreases l,
{
    let s = Seq::new(l, |i: int| bit(k, i as nat));
    lemma_pow2_pos(l);
    if l == 0 {
        lemma2_to64();
    } else {
        let p = pow2((l - 1) as nat);
        lemma_pow2_pos((l - 1) as nat);
        assert(s.drop_last() =~= Seq::new((l - 1) as nat, |i: int| bit(k, i as nat)));
        lemma_val_of_bits(k, (l - 1) as nat);
        lemma_pow2_unfold(l);
        // k % (2p) == k % p + p * ((k / p) % 2)
        let q = k / p;
        lemma_fundamental_div_mod(k as int, p as int);
        lemma_fundamental_div_mod(q as int, 2);
        lemma_fundamental_div_mod(k as int, (2 * p) as int);
        assert(k == p * q + k % p);
        assert(q == 2 * (q / 2) + q % 2);
        assert(k == (2 * p) * (q / 2) + (p * (q % 2) + k % p)) by (nonlinear_arith)
            requires
                k == p * q + k % p,
                q == 2 * (q / 2) + q % 2,
        ;
        assert(0 <= p * (q % 2) + k % p < 2 * p) by (nonlinear_arith)
            requires
                0 <= k % p < p,
                0 <= q % 2 < 2,
        ;
        vstd::arithmetic::div_mod::lemma_fundamental_div_mod_converse(
            k as int,
            (2 * p) as int,
            (q / 2) as int,
            (p * (q % 2) + k % p) as int,
        );
        assert(k % pow2(l) == p * (q % 2) + k % p);
        assert(s.last() == bit(k, (l - 1) as nat));
        assert(val(s) == val(s.drop_last()) + if s.last() { p } else { 0 });
        assert((if s.last() { p } else { 0 }) == p * (q % 2)) by {
            if q % 2 == 1 {
                assert(p * 1 == p);
            } else {
                assert(q % 2 == 0);
                assert(p * 0 == 0);
            }
        }
    }
}

pub proof fn lemma_val_to_binary(k: nat)
    ensures
        val(spec_to_binary(k)) == k,
        spec_to_binary(k).len() == spec_bitlength(k),
{
    lemma_val_of_bits(k, spec_bitlength(k));
    lemma_bitlength_bounds(k);
    lemma_small_mod(k, pow2(spec_bitlength(k)));
}

/// The bit length grows with the number.
pub proof fn lemma_bitlength_monotone(a: nat, b: nat)
    requires
        a <= b,
    ensures
        spec_bitlength(a) <= spec_bitlength(b),
    decreases b,
{
    lemma_bitlength_bounds(b);
    if a > 1 {
        lemma_bitlength_monotone(a / 2, b / 2);
    }
}

/// A sum has at most one bit more than its larger part.
pub proof fn lemma_bitlength_sum(a: nat, b: nat)
    ensures
        spec_bitlength(a + b) <= spec_bitlength(if a >= b { a } else { b }) + 1,
{
    let x: nat = if a >= b { a } else { b };
    lemma_bitlength_monotone(a + b, 2 * x);
    if x == 0 {
        assert(spec_bitlength(0) == 1);
    } else {
        assert((2 * x) / 2 == x);
        assert(spec_bitlength(2 * x) == 1 + spec_bitlength(x));
    }
}

/// Capping a number at `2^mb - 1` caps its bit length at `mb`.
pub proof fn lemma_bitlength_cap(s: nat, mb: nat)
    requires
        mb >= 1,
    ensures
        spec_bitlength(if s <= pow2(mb) - 1 { s } else { (pow2(mb) - 1) as nat }) == if spec_bitlength(s) <= mb {
            spec_bitlength(s)
        } else {
            mb
        },
{
    lemma_bitlength_bounds(s);
    lemma_pow2_pos(mb);
    lemma_pow2_unfold(mb);
    let c = spec_bitlength(s);
    if c <= mb {
        if c < mb {
            lemma_pow2_strictly_increases(c, mb);
        }
    } else {
        lemma_pow2_pos((mb - 1) as nat);
        if mb < (c - 1) as nat {
            lemma_pow2_strictly_increases(mb, (c - 1) as nat);
        }
        let capped = (pow2(mb) - 1) as nat;
        assert(pow2((mb - 1) as nat) <= capped < pow2(mb));
        if capped == 0 {
            assert(mb == 1) by {
                if mb > 1 {
                    lemma_pow2_strictly_increases(0, (mb - 1) as nat);
                    lemma2_to64();
                }
            }
        } else {
            lemma_bitlength_unique(capped, mb);
        }
    }
}

/// A number of at most half the `usize` range has fewer bits than a `usize`.
pub proof fn lemma_bitlength_half(x: nat)
    requires
        x <= usize::MAX / 2,
    ensures
        spec_bitlength(x) < usize::BITS,
        usize::BITS <= 64,
{
    vstd::layout::unsigned_int_max_values();
    lemma2_to64();
    lemma_bitlength_bounds(x);
    let b = spec_bitlength(x);
    if b >= usize::BITS {
        if x >= 1 {
            if usize::BITS - 1 < b - 1 {
                lemma_pow2_strictly_increases((usize::BITS - 1) as nat, (b - 1) as nat);
            }
            lemma_pow2_unfold(usize::BITS as nat);
            assert(pow2(usize::BITS as nat) == 2 * pow2((usize::BITS - 1) as nat));
        } else {
            assert(b == 1);
        }
    }
}

/// Copies a number: the same variables, bound and length.
pub fn copy_number(b: &BinaryNumber) -> (r: BinaryNumber)
    ensures
        r.vars@ == b.vars@,
        r.max == b.max,
        r.bit_length == b.bit_length,
{
    let mut vars: Vec<usize> = Vec::new();
    let mut i: usize = 0;
    while i < b.vars.len()
        invariant
            i <= b.vars.len(),
            vars@ == b.vars@.take(i as int),
        decreases b.vars.len() - i,
    {
        vars.push(b.vars[i]);
        i = i + 1;
        proof {
            assert(vars@ =~= b.vars@.take(i as int));
        }
    }
    proof {
        assert(b.vars@.take(b.vars.len() as int) =~= b.vars@);
    }
    BinaryNumber { vars, max: b.max, bit_length: b.bit_length }
}

/// `1 << i` is `2^i` for every position that fits in a `usize`.
pub proof fn lemma_one_shl(i: usize)
    requires
        i < usize::BITS,
    ensures
        (1usize << i) == pow2(i as nat),
        pow2(i as nat) <= usize::MAX,
{
    vstd::layout::unsigned_int_max_values();
    lemma_pow2_strictly_increases(i as nat, usize::BITS as nat);
    lemma_usize_shl_is_mul(1, i);
}

pub fn number_bitlength(k: usize) -> (r: usize)
    requires
        k <= usize::MAX / 2,
    ensures
        r == spec_bitlength(k as nat),
        1 <= r < usize::BITS,
{
    proof {
        vstd::layout::unsigned_int_max_values();
        lemma2_to64();
    }
    if k == 0 {
        return 1;
    }
    let mut bitlength: usize = 1;
    proof {
        lemma_one_shl(1);
        assert(usize::BITS == 32 || usize::BITS == 64);
    }
    while (1usize << bitlength) <= k
        invariant
            1 <= bitlength < usize::BITS,
            pow2((bitlength - 1) as nat) <= k,
            k <= usize::MAX / 2,
            usize::MAX == pow2(usize::BITS as nat) - 1,
        decreases usize::BITS - bitlength,
    {
        proof {
            lemma_one_shl(bitlength);
            lemma_pow2_unfold(usize::BITS as nat);
            if bitlength + 1 >= usize::BITS {
                assert(bitlength == usize::BITS - 1);
                assert(pow2(bitlength as nat) * 2 == pow2(usize::BITS as nat)) by {
                    lemma_pow2_unfold(usize::BITS as nat);
                }
            }
        }
        bitlength = bitlength + 1;
    }
    proof {
        lemma_one_shl(bitlength);
        lemma_bitlength_unique(k as nat, bitlength as nat);
    }
    bitlength
}

pub fn to_binary(k: usize) -> (result: Vec<bool>)
    requires
        k <= usize::MAX / 2,
    ensures
        result@ == spec_to_binary(k as nat),
{
    let bit_length = number_bitlength(k);
    let mut result: Vec<bool> = Vec::new();
    let mut i: usize = 0;
    while i < bit_length
        invariant
            bit_length == spec_bitlength(k as nat),
            bit_length < usize::BITS,
            i <= bit_length,
            result@ =~= Seq::new(i as nat, |j: int| bit(k as nat, j as nat)),
        decreases bit_length - i,
    {
        proof {
            lemma_one_shl(i);
            lemma_usize_shr_is_div(k, i);
            assert(((k & (1usize << i)) > 0) == (((k >> i) % 2) == 1)) by (bit_vector)
                requires
                    i < usize::BITS,
            ;
        }
        result.push((k & (1usize << i)) > 0);
        i = i + 1;
    }
    result
}

/// A number in binary, one variable per bit, least significant first.
#[derive(Debug, Clone)]
pub struct BinaryNumber {
    /// the sat variable representation of a number
    pub vars: Vec<usize>,
    /// max is inclusive. The represented number can be == max
    pub max: usize,
    /// the number of bits used to represent this number
    pub bit_length: usize,
}

impl BinaryNumber {
    /// Well formed: one valid variable per bit.
    pub open spec fn wf(&self) -> bool {
        &&& self.vars.len() == self.bit_length
        &&& all_valid(self.vars@)
    }

    pub fn new(max: usize, name_generator: &mut VarNameGenerator) -> (n: BinaryNumber)
        requires
            max <= usize::MAX / 2,
            old(name_generator).spec_peek() + spec_bitlength(max as nat) <= i32::MAX + 1,
            old(name_generator).spec_peek() >= 1,
        ensures
            n.wf(),
            n.max == max,
            n.bit_length == spec_bitlength(max as nat),
            n.vars@ == Seq::new(n.bit_length as nat, |i: int| (old(name_generator).spec_peek() + i) as usize),
            final(name_generator).spec_peek() == old(name_generator).spec_peek() + n.bit_length,
    {
        let bit_length = number_bitlength(max);
        let ghost start = name_generator.spec_peek();
        let mut vars: Vec<usize> = Vec::new();
        let mut i: usize = 0;
        while i < bit_length
            invariant
                i <= bit_length,
                start + bit_length <= i32::MAX + 1,
                start >= 1,
                name_generator.spec_peek() == start + i,
                vars@ =~= Seq::new(i as nat, |j: int| (start + j) as usize),
            decreases bit_length - i,
        {
            let v = name_generator.next();
            vars.push(v);
            i = i + 1;
        }
        BinaryNumber { vars, max, bit_length }
    }

    pub fn new_from_vec(vars: Vec<usize>, max: usize) -> (n: BinaryNumber)
        ensures
            n.vars@ == vars@,
            n.max == max,
            n.bit_length == vars.len(),
    {
        let bit_length = vars.len();
        BinaryNumber { vars, max, bit_length }
    }
}

/// Bits of `k` at or above its bit length are zero.
pub proof fn lemma_high_bit_zero(k: nat, i: nat)
    requires
        i >= spec_bitlength(k),
    ensures
        !bit(k, i),
{
    lemma_bitlength_bounds(k);
    if i > spec_bitlength(k) {
        lemma_pow2_strictly_increases(spec_bitlength(k), i);
    }
    lemma_pow2_pos(i);
    lemma_basic_div(k as int, pow2(i) as int);
}

/// Two bit sequences of one length with one value are equal.
pub proof fn lemma_val_injective(x: Seq<bool>, y: Seq<bool>)
    requires
        x.len() == y.len(),
        val(x) == val(y),
    ensures
        x == y,
    decreases x.len(),
{
    if x.len() > 0 {
        lemma_val_bound(x.drop_last());
        lemma_val_bound(y.drop_last());
        lemma_val_injective(x.drop_last(), y.drop_last());
        assert(x =~= x.drop_last().push(x.last()));
        assert(y =~= y.drop_last().push(y.last()));
    } else {
        assert(x =~= y);
    }
}

/// The value of a concatenation.
pub proof fn lemma_val_append(x: Seq<bool>, h: Seq<bool>)
    ensures
        val(x + h) == val(x) + pow2(x.len()) * val(h),
    decreases h.len(),
{
    if h.len() == 0 {
        assert(x + h =~= x);
    } else {
        lemma_val_append(x, h.drop_last());
        assert((x + h).drop_last() =~= x + h.drop_last());
        assert((x + h).last() == h.last());
        lemma_pow2_adds_local(x.len(), (h.len() - 1) as nat);
        let p = pow2(x.len());
        let q = pow2((h.len() - 1) as nat);
        let v = val(h.drop_last());
        let t: nat = if h.last() { q } else { 0 };
        assert(val(h) == v + t);
        assert(val(x + h) == val(x + h.drop_last()) + if h.last() { pow2((x.len() + h.len() - 1) as nat) } else { 0 });
        assert((x.len() + h.len() - 1) as nat == x.len() + (h.len() - 1) as nat);
        assert(p * (v + t) == p * v + p * t) by (nonlinear_arith);
        assert(p * t == if h.last() { p * q } else { 0 }) by (nonlinear_arith)
            requires
                t == if h.last() { q } else { 0 },
        ;
    }
}

proof fn lemma_pow2_adds_local(a: nat, b: nat)
    ensures
        pow2(a) * pow2(b) == pow2(a + b),
{
    vstd::arithmetic::power2::lemma_pow2_adds(a, b);
}

/// A sequence of false bits has value zero, and only those.
pub proof fn lemma_val_zero(h: Seq<bool>)
    ensures
        (val(h) == 0) == (forall|i: int| 0 <= i < h.len() ==> !#[trigger] h[i]),
    decreases h.len(),
{
    if h.len() > 0 {
        lemma_val_zero(h.drop_last());
        lemma_pow2_pos((h.len() - 1) as nat);
        if forall|i: int| 0 <= i < h.len() ==> !#[trigger] h[i] {
            assert forall|i: int| 0 <= i < h.drop_last().len() implies !#[trigger] h.drop_last()[i] by {
                assert(h.drop_last()[i] == h[i]);
            }
        }
        if val(h) == 0 {
            assert forall|i: int| 0 <= i < h.len() implies !#[trigger] h[i] by {
                if i < h.len() - 1 {
                    assert(h.drop_last()[i] == h[i]);
                }
            }
        }
    }
}

/// Reading `x <= y` from the most significant differing bit: every bit where `x` has a
/// one and `y` a zero is outranked by a higher bit where `y` has a one and `x` a zero.
pub open spec fn le_witness(x: Seq<bool>, y: Seq<bool>) -> bool {
    forall|i: int|
        0 <= i < x.len() && #[trigger] x[i] && !y[i] ==> exists|j: int|
            i < j < x.len() && #[trigger] y[j] && !x[j]
}

pub proof fn lemma_le_witness(x: Seq<bool>, y: Seq<bool>)
    requires
        x.len() == y.len(),
    ensures
        le_witness(x, y) == (val(x) <= val(y)),
    decreases x.len(),
{
    if x.len() > 0 {
        let t = x.len() - 1;
        let x1 = x.drop_last();
        let y1 = y.drop_last();
        lemma_le_witness(x1, y1);
        lemma_val_bound(x1);
        lemma_val_bound(y1);
        if x[t] == y[t] {
            if le_witness(x, y) {
                assert forall|i: int| 0 <= i < x1.len() && #[trigger] x1[i] && !y1[i] implies exists|j: int|
                    i < j < x1.len() && #[trigger] y1[j] && !x1[j] by {
                    assert(x[i] && !y[i]);
                    let j = choose|j: int| i < j < x.len() && #[trigger] y[j] && !x[j];
                    assert(j != t);
                    assert(y1[j] && !x1[j]);
                }
            }
            if le_witness(x1, y1) {
                assert forall|i: int| 0 <= i < x.len() && #[trigger] x[i] && !y[i] implies exists|j: int|
                    i < j < x.len() && #[trigger] y[j] && !x[j] by {
                    assert(i != t);
                    assert(x1[i] && !y1[i]);
                    let j = choose|j: int| i < j < x1.len() && #[trigger] y1[j] && !x1[j];
                    assert(y[j] && !x[j]);
                }
            }
        } else if x[t] {
            assert(x[t] && !y[t]);
            if le_witness(x, y) {
                let j = choose|j: int| t < j < x.len() && #[trigger] y[j] && !x[j];
                assert(false);
            }
        } else {
            assert forall|i: int| 0 <= i < x.len() && #[trigger] x[i] && !y[i] implies exists|j: int|
                i < j < x.len() && #[trigger] y[j] && !x[j] by {
                assert(i != t);
                assert(y[t] && !x[t]);
            }
        }
    }
}

/// Positions of the bits of `k`, read as a flag per position below `len`.
pub open spec fn bits_upto(k: nat, len: nat) -> Seq<bool> {
    Seq::new(len, |i: int| bit(k, i as nat))
}

/// The bits of `k` written out to `len >= bitlength(k)` positions have value `k`.
pub proof fn lemma_val_bits_upto(k: nat, len: nat)
    requires
        len >= spec_bitlength(k),
    ensures
        val(bits_upto(k, len)) == k,
{
    lemma_val_of_bits(k, len);
    lemma_bitlength_bounds(k);
    if len > spec_bitlength(k) {
        lemma_pow2_strictly_increases(spec_bitlength(k), len);
    }
    lemma_small_mod(k, pow2(len));
}

/// A clause of one literal.
pub open spec fn unit(l: i32) -> Seq<i32> {
    seq![l]
}

pub fn at_least_one_encoding(variables: Vec<i32>) -> (c: Clause)
    ensures
        c.vars@ == variables@,
{
    Clause { vars: variables }
}

/// The clauses `[-v_i, -v_k]` for `i < k < j`, in order of `k`.
pub open spec fn amo_row(v: Seq<i32>, i: int, j: int) -> Seq<Seq<i32>>
    decreases j - i,
{
    if j <= i + 1 {
        Seq::empty()
    } else {
        amo_row(v, i, j - 1).push(seq![(-v[i]) as i32, (-v[j - 1]) as i32])
    }
}

/// The rows of all pairs whose first index is below `i`.
pub open spec fn amo_rows(v: Seq<i32>, i: int) -> Seq<Seq<i32>>
    decreases i,
{
    if i <= 0 {
        Seq::empty()
    } else {
        amo_rows(v, i - 1) + amo_row(v, i - 1, v.len() as int)
    }
}

/// Both literals `v[i]` and `v[k]` are true.
pub open spec fn both_true(a: spec_fn(int) -> bool, v: Seq<i32>, i: int, k: int) -> bool {
    lit_true(a, v[i]) && lit_true(a, v[k])
}

pub open spec fn all_proper(v: Seq<i32>) -> bool {
    forall|i: int| 0 <= i < v.len() ==> proper_lit(#[trigger] v[i])
}

proof fn lemma_amo_row_sat(a: spec_fn(int) -> bool, v: Seq<i32>, i: int, j: int)
    requires
        all_proper(v),
        0 <= i < v.len(),
        j <= v.len(),
    ensures
        all_sat(a, amo_row(v, i, j)) == (forall|k: int| i < k < j ==> !#[trigger] both_true(a, v, i, k)),
    decreases j - i,
{
    if j > i + 1 {
        lemma_amo_row_sat(a, v, i, j - 1);
        let c = seq![(-v[i]) as i32, (-v[j - 1]) as i32];
        lemma_all_sat_push(a, amo_row(v, i, j - 1), c);
        lemma_neg_lit(a, v[i]);
        lemma_neg_lit(a, v[j - 1]);
        lemma_clause_sat_push(a, seq![(-v[i]) as i32], (-v[j - 1]) as i32);
        assert(c =~= seq![(-v[i]) as i32].push((-v[j - 1]) as i32));
        lemma_clause_sat_push(a, Seq::<i32>::empty(), (-v[i]) as i32);
        assert(seq![(-v[i]) as i32] =~= Seq::<i32>::empty().push((-v[i]) as i32));
        assert(!clause_sat(a, Seq::<i32>::empty()));
        assert(clause_sat(a, c) == !both_true(a, v, i, j - 1));
        if all_sat(a, amo_row(v, i, j)) {
            assert forall|k: int| i < k < j implies !#[trigger] both_true(a, v, i, k) by {
                if k < j - 1 {
                }
            }
        }
        if forall|k: int| i < k < j ==> !#[trigger] both_true(a, v, i, k) {
            assert(forall|k: int| i < k < j - 1 ==> !#[trigger] both_true(a, v, i, k));
            assert(!both_true(a, v, i, j - 1));
        }
    }
}

proof fn lemma_amo_rows_sat(a: spec_fn(int) -> bool, v: Seq<i32>, i: int)
    requires
        all_proper(v),
        0 <= i <= v.len(),
    ensures
        all_sat(a, amo_rows(v, i)) == (forall|i1: int, k: int|
            0 <= i1 < i && i1 < k < v.len() ==> !#[trigger] both_true(a, v, i1, k)),
    decreases i,
{
    if i > 0 {
        lemma_amo_rows_sat(a, v, i - 1);
        lemma_amo_row_sat(a, v, i - 1, v.len() as int);
        lemma_all_sat_append(a, amo_rows(v, i - 1), amo_row(v, i - 1, v.len() as int));
    }
}

pub fn pairwise_encoded_at_most_one(variables: &Vec<i32>) -> (clauses: Clauses)
    requires
        all_proper(variables@),
    ensures
        clauses.wf(),
        clauses@ == amo_rows(variables@, variables.len() as int),
{
    let mut clauses: Clauses = Clauses::new();
    let n = variables.len();
    let mut i: usize = 0;
    while i < n
        invariant
            n == variables.len(),
            all_proper(variables@),
            i <= n,
            clauses.wf(),
            clauses@ == amo_rows(variables@, i as int),
        decreases n - i,
    {
        let mut j: usize = i + 1;
        while j < n
            invariant
                n == variables.len(),
                all_proper(variables@),
                i < n,
                i + 1 <= j <= n,
                clauses.wf(),
                clauses@ == amo_rows(variables@, i as int) + amo_row(variables@, i as int, j as int),
            decreases n - j,
        {
            assert(proper_lit(variables@[i as int]) && proper_lit(variables@[j as int]));
            let li = -variables[i];
            let lj = -variables[j];
            let c = Clause { vars: vec![li, lj] };
            assert(c.vars@ =~= seq![(-variables@[i as int]) as i32, (-variables@[j as int]) as i32]);
            clauses.add_clause(c);
            assert(clauses@ =~= amo_rows(variables@, i as int) + amo_row(variables@, i as int, j + 1));
            j = j + 1;
        }
        assert(amo_rows(variables@, i + 1) == amo_rows(variables@, i as int) + amo_row(variables@, i as int, n as int));
        i = i + 1;
    }
    clauses
}

/// The pairwise encoding holds exactly when at most one of the literals is true.
pub proof fn lemma_pairwise_at_most_one(a: spec_fn(int) -> bool, v: Seq<i32>)
    requires
        all_proper(v),
    ensures
        all_sat(a, amo_rows(v, v.len() as int)) == (forall|i: int, k: int|
            0 <= i < k < v.len() ==> !#[trigger] both_true(a, v, i, k)),
{
    lemma_amo_rows_sat(a, v, v.len() as int);
}

/// The literals of the clause that is false exactly when `nv` holds the value `k`.
pub open spec fn ne_lits(nv: Seq<usize>, k: nat) -> Seq<i32> {
    Seq::new(nv.len(), |i: int| if bit(k, i as nat) { neg(nv[i]) } else { pos(nv[i]) })
}

pub fn not_equals_constant_encoding(n: &BinaryNumber, k: usize) -> (c: Clause)
    requires
        n.wf(),
        k <= usize::MAX / 2,
        spec_bitlength(k as nat) <= n.bit_length,
    ensures
        c.vars@ == ne_lits(n.vars@, k as nat),
        zero_free(c.vars@),
{
    let kb = to_binary(k);
    let mut out: Vec<i32> = Vec::new();
    let mut i: usize = 0;
    while i < n.bit_length
        invariant
            n.wf(),
            kb@ == spec_to_binary(k as nat),
            kb.len() <= n.bit_length,
            i <= n.bit_length,
            out@ =~= ne_lits(n.vars@, k as nat).take(i as int),
        decreases n.bit_length - i,
    {
        let v = n.vars[i];
        assert(valid_var(v as int));
        if i >= kb.len() {
            proof {
                lemma_high_bit_zero(k as nat, i as nat);
            }
        }
        if i < kb.len() && kb[i] == true {
            out.push(-(v as i32));
        } else {
            out.push(v as i32);
        }
        i = i + 1;
    }
    assert(ne_lits(n.vars@, k as nat).take(n.bit_length as int) =~= ne_lits(n.vars@, k as nat));
    Clause { vars: out }
}

/// The clause of `not_equals_constant_encoding` holds exactly when `n` is not `k`.
pub proof fn lemma_not_equals_constant(a: spec_fn(int) -> bool, nv: Seq<usize>, k: nat)
    requires
        all_valid(nv),
        spec_bitlength(k) <= nv.len(),
    ensures
        clause_sat(a, ne_lits(nv, k)) == (value(a, nv) != k),
{
    let c = ne_lits(nv, k);
    let b = bits_of(a, nv);
    let kb = bits_upto(k, nv.len());
    lemma_val_bits_upto(k, nv.len());
    assert forall|i: int| 0 <= i < nv.len() implies lit_true(a, #[trigger] c[i]) == (b[i] != kb[i]) by {
        lemma_pos_neg(a, nv[i]);
    }
    if clause_sat(a, c) {
        let i = choose|i: int| 0 <= i < c.len() && lit_true(a, #[trigger] c[i]);
        if value(a, nv) == k {
            lemma_val_injective(b, kb);
            assert(b[i] == kb[i]);
        }
    } else {
        assert forall|i: int| 0 <= i < nv.len() implies #[trigger] b[i] == kb[i] by {
            if b[i] != kb[i] {
                assert(lit_true(a, c[i]));
            }
        }
        assert(b =~= kb);
    }
}

/// The unit clauses that fix `nv` to the value `k`.
pub open spec fn eq_units(nv: Seq<usize>, k: nat) -> Seq<Seq<i32>> {
    Seq::new(nv.len(), |i: int| unit(if bit(k, i as nat) { pos(nv[i]) } else { neg(nv[i]) }))
}

pub fn _equals_constant_encoding(n: &BinaryNumber, k: usize) -> (clauses: Clauses)
    requires
        n.wf(),
        k <= usize::MAX / 2,
        spec_bitlength(k as nat) <= n.bit_length,
    ensures
        clauses.wf(),
        clauses@ == eq_units(n.vars@, k as nat),
{
    let kb = to_binary(k);
    let mut clauses: Clauses = Clauses::new();
    let mut i: usize = 0;
    while i < n.bit_length
        invariant
            n.wf(),
            kb@ == spec_to_binary(k as nat),
            kb.len() <= n.bit_length,
            i <= n.bit_length,
            clauses.wf(),
            clauses@ =~= eq_units(n.vars@, k as nat).take(i as int),
        decreases n.bit_length - i,
    {
        let v = n.vars[i];
        assert(valid_var(v as int));
        if i >= kb.len() {
            proof {
                lemma_high_bit_zero(k as nat, i as nat);
            }
        }
        if i < kb.len() && kb[i] == true {
            let c = Clause { vars: vec![v as i32] };
            assert(c.vars@ =~= unit(pos(v)));
            clauses.add_clause(c);
        } else {
            let l = -(v as i32);
            let c = Clause { vars: vec![l] };
            assert(c.vars@ =~= unit(neg(v)));
            clauses.add_clause(c);
        }
        assert(eq_units(n.vars@, k as nat).take(i + 1) =~= eq_units(n.vars@, k as nat).take(i as int).push(
            eq_units(n.vars@, k as nat)[i as int],
        ));
        i = i + 1;
    }
    assert(eq_units(n.vars@, k as nat).take(n.bit_length as int) =~= eq_units(n.vars@, k as nat));
    clauses
}

/// The units of `_equals_constant_encoding` hold exactly when `n` is `k`.
pub proof fn lemma_equals_constant(a: spec_fn(int) -> bool, nv: Seq<usize>, k: nat)
    requires
        all_valid(nv),
        spec_bitlength(k) <= nv.len(),
    ensures
        all_sat(a, eq_units(nv, k)) == (value(a, nv) == k),
{
    let cs = eq_units(nv, k);
    let b = bits_of(a, nv);
    let kb = bits_upto(k, nv.len());
    lemma_val_bits_upto(k, nv.len());
    assert forall|i: int| 0 <= i < nv.len() implies clause_sat(a, #[trigger] cs[i]) == (b[i] == kb[i]) by {
        lemma_pos_neg(a, nv[i]);
        assert(cs[i][0] == cs[i].last());
        if clause_sat(a, cs[i]) {
            let j = choose|j: int| 0 <= j < cs[i].len() && lit_true(a, #[trigger] cs[i][j]);
            assert(j == 0);
        }
        if b[i] == kb[i] {
            assert(lit_true(a, cs[i][0]));
        }
    }
    if all_sat(a, cs) {
        assert forall|i: int| 0 <= i < nv.len() implies #[trigger] b[i] == kb[i] by {
            assert(clause_sat(a, cs[i]));
        }
        assert(b =~= kb);
    }
    if value(a, nv) == k {
        lemma_val_injective(b, kb);
        assert forall|j: int| 0 <= j < cs.len() implies clause_sat(a, #[trigger] cs[j]) by {
            assert(b[j] == kb[j]);
        }
    }
}

/// The negated variables `nv[j]` for `lo <= j < hi` where `kb[j]` is set.
pub open spec fn amk_tail(nv: Seq<usize>, kb: Seq<bool>, lo: int, hi: int) -> Seq<i32>
    decreases hi - lo,
{
    if hi <= lo {
        Seq::empty()
    } else {
        amk_tail(nv, kb, lo, hi - 1) + if kb[hi - 1] {
            seq![neg(nv[hi - 1])]
        } else {
            Seq::<i32>::empty()
        }
    }
}

/// For a zero bit `i` of `k`: bit `i` of `n` is set only if some higher one bit of `k` is unset in `n`.
pub open spec fn amk_clause(nv: Seq<usize>, kb: Seq<bool>, i: int) -> Seq<i32> {
    seq![neg(nv[i])] + amk_tail(nv, kb, i + 1, kb.len() as int)
}

/// The clauses for the zero bits of `k` below `hi`.
pub open spec fn amk_main(nv: Seq<usize>, kb: Seq<bool>, hi: int) -> Seq<Seq<i32>>
    decreases hi,
{
    if hi <= 0 {
        Seq::empty()
    } else {
        amk_main(nv, kb, hi - 1) + if !kb[hi - 1] {
            seq![amk_clause(nv, kb, hi - 1)]
        } else {
            Seq::<Seq<i32>>::empty()
        }
    }
}

/// The unit clauses `[-nv[i]]` for `lo <= i < hi`.
pub open spec fn unit_negs(nv: Seq<usize>, lo: int, hi: int) -> Seq<Seq<i32>>
    decreases hi - lo,
{
    if hi <= lo {
        Seq::empty()
    } else {
        unit_negs(nv, lo, hi - 1).push(unit(neg(nv[hi - 1])))
    }
}

/// The clauses of `at_most_k_encoding`.
pub open spec fn spec_at_most_k(nv: Seq<usize>, k: nat) -> Seq<Seq<i32>> {
    let kb = spec_to_binary(k);
    if nv.len() < kb.len() {
        Seq::empty()
    } else {
        amk_main(nv, kb, kb.len() as int) + unit_negs(nv, kb.len() as int, nv.len() as int)
    }
}

pub fn at_most_k_encoding(n: &BinaryNumber, k: usize) -> (output: Clauses)
    requires
        n.wf(),
        k <= usize::MAX / 2,
    ensures
        output.wf(),
        output@ == spec_at_most_k(n.vars@, k as nat),
{
    // get the binary representation of k
    let kb = to_binary(k);
    let ghost nv = n.vars@;
    if n.bit_length < kb.len() {
        // since we have a minimal representation of k, we know that in this case, n cannot be larger than k
        return Clauses::new();
    }
    let mut output: Clauses = Clauses::new();
    let kl = kb.len();
    let mut i: usize = 0;
    while i < kl
        invariant
            n.wf(),
            nv == n.vars@,
            kl == kb.len(),
            kl <= n.bit_length,
            i <= kl,
            output.wf(),
            output@ == amk_main(nv, kb@, i as int),
        decreases kl - i,
    {
        // encode if k_i == 0: n_i => !n_i' for at least one i' > i where k_i' == 1
        if kb[i] == false {
            assert(valid_var(n.vars@[i as int] as int));
            let first = -(n.vars[i] as i32);
            let mut vars: Vec<i32> = vec![first];
            let mut j: usize = i + 1;
            while j < kl
                invariant
                    n.wf(),
                    nv == n.vars@,
                    kl == kb.len(),
                    kl <= n.bit_length,
                    i < kl,
                    i + 1 <= j <= kl,
                    vars@ == seq![neg(nv[i as int])] + amk_tail(nv, kb@, i + 1, j as int),
                    zero_free(vars@),
                decreases kl - j,
            {
                if kb[j] == true {
                    assert(valid_var(n.vars@[j as int] as int));
                    let l = -(n.vars[j] as i32);
                    vars.push(l);
                    assert(vars@ =~= seq![neg(nv[i as int])] + amk_tail(nv, kb@, i + 1, j + 1));
                } else {
                    assert(amk_tail(nv, kb@, i + 1, j + 1) =~= amk_tail(nv, kb@, i + 1, j as int));
                }
                j = j + 1;
            }
            let c = Clause { vars };
            output.add_clause(c);
            assert(output@ =~= amk_main(nv, kb@, i + 1));
        } else {
            assert(amk_main(nv, kb@, i + 1) =~= amk_main(nv, kb@, i as int));
        }
        i = i + 1;
    }
    // we also need to make sure that if n is longer than k, that the trailing variables are obviously false
    let ghost main = output@;
    let mut i: usize = kl;
    while i < n.bit_length
        invariant
            n.wf(),
            nv == n.vars@,
            kl <= i <= n.bit_length,
            output.wf(),
            output@ == main + unit_negs(nv, kl as int, i as int),
        decreases n.bit_length - i,
    {
        assert(valid_var(n.vars@[i as int] as int));
        let l = -(n.vars[i] as i32);
        let c = Clause { vars: vec![l] };
        assert(c.vars@ =~= unit(neg(nv[i as int])));
        output.add_clause(c);
        assert(output@ =~= main + unit_negs(nv, kl as int, i + 1));
        i = i + 1;
    }
    output
}

proof fn lemma_amk_tail_sat(a: spec_fn(int) -> bool, nv: Seq<usize>, kb: Seq<bool>, lo: int, hi: int)
    requires
        all_valid(nv),
        0 <= lo,
        hi <= kb.len() <= nv.len(),
    ensures
        clause_sat(a, amk_tail(nv, kb, lo, hi)) == (exists|j: int|
            lo <= j < hi && #[trigger] kb[j] && !a(nv[j] as int)),
    decreases hi - lo,
{
    if hi > lo {
        lemma_amk_tail_sat(a, nv, kb, lo, hi - 1);
        let t = if kb[hi - 1] { seq![neg(nv[hi - 1])] } else { Seq::<i32>::empty() };
        lemma_clause_sat_append(a, amk_tail(nv, kb, lo, hi - 1), t);
        lemma_pos_neg(a, nv[hi - 1]);
        if kb[hi - 1] {
            assert(clause_sat(a, t) == !a(nv[hi - 1] as int)) by {
                assert(t[0] == neg(nv[hi - 1]));
            }
        }
        if exists|j: int| lo <= j < hi && #[trigger] kb[j] && !a(nv[j] as int) {
            let j = choose|j: int| lo <= j < hi && #[trigger] kb[j] && !a(nv[j] as int);
            if j < hi - 1 {
                assert(exists|j2: int| lo <= j2 < hi - 1 && #[trigger] kb[j2] && !a(nv[j2] as int));
            }
        }
    } else {
        assert(amk_tail(nv, kb, lo, hi) =~= Seq::<i32>::empty());
    }
}

proof fn lemma_amk_main_sat(a: spec_fn(int) -> bool, nv: Seq<usize>, kb: Seq<bool>, hi: int)
    requires
        all_valid(nv),
        hi <= kb.len() <= nv.len(),
    ensures
        all_sat(a, amk_main(nv, kb, hi)) == (forall|i: int|
            0 <= i < hi && #[trigger] a(nv[i] as int) && !kb[i] ==> exists|j: int|
                i < j < kb.len() && #[trigger] kb[j] && !a(nv[j] as int)),
    decreases hi,
{
    if hi > 0 {
        let i = hi - 1;
        lemma_amk_main_sat(a, nv, kb, hi - 1);
        let t = if !kb[i] { seq![amk_clause(nv, kb, i)] } else { Seq::<Seq<i32>>::empty() };
        lemma_all_sat_append(a, amk_main(nv, kb, hi - 1), t);
        lemma_amk_tail_sat(a, nv, kb, i + 1, kb.len() as int);
        lemma_clause_sat_append(a, seq![neg(nv[i])], amk_tail(nv, kb, i + 1, kb.len() as int));
        lemma_pos_neg(a, nv[i]);
        assert(clause_sat(a, seq![neg(nv[i])]) == !a(nv[i] as int)) by {
            assert(seq![neg(nv[i])][0] == neg(nv[i]));
        }
        if !kb[i] {
            assert(all_sat(a, t) == clause_sat(a, amk_clause(nv, kb, i))) by {
                assert(t[0] == amk_clause(nv, kb, i));
            }
        }
    }
}

proof fn lemma_unit_negs_sat(a: spec_fn(int) -> bool, nv: Seq<usize>, lo: int, hi: int)
    requires
        all_valid(nv),
        0 <= lo,
        hi <= nv.len(),
    ensures
        all_sat(a, unit_negs(nv, lo, hi)) == (forall|i: int| lo <= i < hi ==> !#[trigger] a(nv[i] as int)),
    decreases hi - lo,
{
    if hi > lo {
        lemma_unit_negs_sat(a, nv, lo, hi - 1);
        lemma_all_sat_push(a, unit_negs(nv, lo, hi - 1), unit(neg(nv[hi - 1])));
        lemma_pos_neg(a, nv[hi - 1]);
        assert(clause_sat(a, unit(neg(nv[hi - 1]))) == !a(nv[hi - 1] as int)) by {
            assert(unit(neg(nv[hi - 1]))[0] == neg(nv[hi - 1]));
        }
    }
}

/// The clauses of `at_most_k_encoding` hold exactly when `n <= k`.
#[verifier::spinoff_prover]
pub proof fn lemma_at_most_k(a: spec_fn(int) -> bool, nv: Seq<usize>, k: nat)
    requires
        all_valid(nv),
    ensures
        all_sat(a, spec_at_most_k(nv, k)) == (value(a, nv) <= k),
{
    let kb = spec_to_binary(k);
    let kl = kb.len();
    let b = bits_of(a, nv);
    lemma_val_to_binary(k);
    lemma_bitlength_bounds(k);
    lemma_val_bound(b);
    if nv.len() < kl {
        assert(all_sat(a, Seq::<Seq<i32>>::empty()));
        if kl >= 2 {
            assert(k >= 1);
            if nv.len() < (kl - 1) as nat {
                lemma_pow2_strictly_increases(nv.len(), (kl - 1) as nat);
            }
        } else {
            assert(nv.len() == 0);
            assert(b.len() == 0);
        }
    } else {
        let x = b.take(kl as int);
        let h = b.skip(kl as int);
        assert(b =~= x + h);
        lemma_val_append(x, h);
        lemma_val_zero(h);
        lemma_le_witness(x, kb);
        lemma_amk_main_sat(a, nv, kb, kl as int);
        lemma_unit_negs_sat(a, nv, kl as int, nv.len() as int);
        lemma_all_sat_append(a, amk_main(nv, kb, kl as int), unit_negs(nv, kl as int, nv.len() as int));
        lemma_pow2_pos(kl);
        // the high bits vanish exactly when the unit clauses hold
        assert((forall|i: int| kl <= i < nv.len() ==> !#[trigger] a(nv[i] as int)) == (forall|i: int|
            0 <= i < h.len() ==> !#[trigger] h[i])) by {
            if forall|i: int| kl <= i < nv.len() ==> !#[trigger] a(nv[i] as int) {
                assert forall|i: int| 0 <= i < h.len() implies !#[trigger] h[i] by {
                    assert(h[i] == a(nv[kl + i] as int));
                }
            }
            if forall|i: int| 0 <= i < h.len() ==> !#[trigger] h[i] {
                assert forall|i: int| kl <= i < nv.len() implies !#[trigger] a(nv[i] as int) by {
                    assert(h[i - kl] == a(nv[i] as int));
                }
            }
        }
        // the main clauses are the comparison of the low bits with k
        assert((forall|i: int|
            0 <= i < kl && #[trigger] a(nv[i] as int) && !kb[i] ==> exists|j: int|
                i < j < kb.len() && #[trigger] kb[j] && !a(nv[j] as int)) == le_witness(x, kb)) by {
            assert forall|i: int| 0 <= i < kl implies #[trigger] x[i] == a(nv[i] as int) by {}
            if le_witness(x, kb) {
                assert forall|i: int|
                    0 <= i < kl && #[trigger] a(nv[i] as int) && !kb[i] implies exists|j: int|
                        i < j < kb.len() && #[trigger] kb[j] && !a(nv[j] as int) by {
                    assert(x[i] && !kb[i]);
                    let j = choose|j: int| i < j < x.len() && #[trigger] kb[j] && !x[j];
                    assert(!a(nv[j] as int));
                }
            }
            if forall|i: int|
                0 <= i < kl && #[trigger] a(nv[i] as int) && !kb[i] ==> exists|j: int|
                    i < j < kb.len() && #[trigger] kb[j] && !a(nv[j] as int) {
                assert forall|i: int|
                    0 <= i < x.len() && #[trigger] x[i] && !kb[i] implies exists|j: int|
                        i < j < x.len() && #[trigger] kb[j] && !x[j] by {
                    assert(a(nv[i] as int));
                    let j = choose|j: int| i < j < kb.len() && #[trigger] kb[j] && !a(nv[j] as int);
                    assert(!x[j]);
                }
            }
        }
        lemma_val_bound(x);
        if val(h) > 0 {
            assert(pow2(kl) * val(h) >= pow2(kl)) by (nonlinear_arith)
                requires
                    val(h) > 0,
            ;
        }
    }
}

/// A copy of a list of literals.
pub fn copy_lits(v: &Vec<i32>) -> (r: Vec<i32>)
    ensures
        r@ == v@,
{
    let mut r: Vec<i32> = Vec::new();
    let mut i: usize = 0;
    while i < v.len()
        invariant
            i <= v.len(),
            r@ =~= v@.take(i as int),
        decreases v.len() - i,
    {
        r.push(v[i]);
        i = i + 1;
    }
    assert(v@.take(v.len() as int) =~= v@);
    r
}

/// The positive literal of a valid variable.
pub fn lit_pos(v: usize) -> (l: i32)
    requires
        valid_var(v as int),
    ensures
        l == pos(v),
        proper_lit(l),
{
    v as i32
}

/// The negative literal of a valid variable.
pub fn lit_neg(v: usize) -> (l: i32)
    requires
        valid_var(v as int),
    ensures
        l == neg(v),
        proper_lit(l),
{
    -(v as i32)
}

/// Whether `x` occurs in `v`.
pub fn vec_contains(v: &Vec<i32>, x: i32) -> (r: bool)
    ensures
        r == v@.contains(x),
{
    let mut i: usize = 0;
    while i < v.len()
        invariant
            i <= v.len(),
            forall|j: int| 0 <= j < i ==> v@[j] != x,
        decreases v.len() - i,
    {
        if v[i] == x {
            return true;
        }
        i = i + 1;
    }
    false
}

/// The assignment that a model (a list of true literals) stands for.
pub open spec fn model_assignment(model: Seq<i32>) -> spec_fn(int) -> bool {
    |x: int| model.contains(x as i32)
}

impl BinaryNumber {
    /// The number that the model `assignment` (its true literals) gives this number.
    pub fn _from_assignment(&self, assignment: &Vec<i32>) -> (total: usize)
        requires
            self.wf(),
            self.bit_length < usize::BITS,
        ensures
            total == value(model_assignment(assignment@), self.vars@),
    {
        let ghost a = model_assignment(assignment@);
        let mut total: usize = 0;
        let mut bit: usize = 0;
        while bit < self.bit_length
            invariant
                self.wf(),
                self.bit_length < usize::BITS,
                a == model_assignment(assignment@),
                bit <= self.bit_length,
                total == val(bits_of(a, self.vars@).take(bit as int)),
            decreases self.bit_length - bit,
        {
            let ghost b = bits_of(a, self.vars@);
            proof {
                assert(b.take(bit + 1).drop_last() =~= b.take(bit as int));
                lemma_val_bound(b.take(bit as int));
                lemma_one_shl(bit);
                vstd::layout::unsigned_int_max_values();
                lemma_pow2_strictly_increases((bit + 1) as nat, usize::BITS as nat);
                lemma_pow2_unfold((bit + 1) as nat);
                assert(valid_var(self.vars@[bit as int] as int));
                assert(b.take(bit + 1).last() == b[bit as int]);
                assert(b[bit as int] == a(self.vars@[bit as int] as int));
            }
            let x = self.vars[bit] as i32;
            let present = vec_contains(assignment, x);
            proof {
                let v = self.vars@[bit as int];
                assert((v as int) as i32 == x);
                assert(b[bit as int] == a(v as int));
                assert(a == model_assignment(assignment@));
                assert(model_assignment(assignment@)(v as int) == assignment@.contains((v as int) as i32));
                assert(present == b[bit as int]);
                assert(val(b.take(bit + 1)) == val(b.take(bit as int)) + if b[bit as int] { pow2(bit as nat) } else { 0 });
            }
            if present {
                total = total + (1usize << bit);
            }
            bit = bit + 1;
        }
        proof {
            assert(bits_of(a, self.vars@).take(self.bit_length as int) =~= bits_of(a, self.vars@));
        }
        total
    }
}

/// The literal `v` if `b`, else `-v`.
pub open spec fn signed(v: usize, b: bool) -> i32 {
    if b {
        pos(v)
    } else {
        neg(v)
    }
}

/// The literals saying that bit `j` of `m` differs from `kb[j]`, for `lo <= j < hi`.
pub open spec fn differ_lits(nv: Seq<usize>, kb: Seq<bool>, lo: int, hi: int) -> Seq<i32>
    decreases hi - lo,
{
    if hi <= lo {
        Seq::empty()
    } else {
        differ_lits(nv, kb, lo, hi - 1).push(signed(nv[hi - 1], !kb[hi - 1]))
    }
}

/// The clauses `i < hi` of `at_most_k_exact_encoding`.
pub open spec fn amke_main(nv: Seq<usize>, kb: Seq<bool>, out: usize, hi: int) -> Seq<Seq<i32>>
    decreases hi,
{
    if hi <= 0 {
        Seq::empty()
    } else {
        let i = hi - 1;
        amke_main(nv, kb, out, hi - 1).push(
            seq![signed(nv[i], kb[i]), signed(out, kb[i])] + differ_lits(nv, kb, i + 1, kb.len() as int),
        )
    }
}

/// The clauses of `at_most_k_exact_encoding` with output variable `out`.
pub open spec fn spec_at_most_k_exact(nv: Seq<usize>, k: nat, out: usize) -> Seq<Seq<i32>> {
    let kb = spec_to_binary(k);
    if nv.len() < kb.len() {
        seq![unit(pos(out))]
    } else {
        amke_main(nv, kb, out, kb.len() as int) + unit_negs(nv, kb.len() as int, nv.len() as int)
    }
}

pub fn at_most_k_exact_encoding(
    n: &BinaryNumber,
    k: usize,
    var_name_generator: &mut VarNameGenerator,
) -> (res: (Clauses, usize))
    requires
        n.wf(),
        k <= usize::MAX / 2,
        1 <= old(var_name_generator).spec_peek() < i32::MAX,
    ensures
        res.0.wf(),
        res.1 == old(var_name_generator).spec_peek(),
        final(var_name_generator).spec_peek() == old(var_name_generator).spec_peek() + 1,
        res.0@ == spec_at_most_k_exact(n.vars@, k as nat, res.1),
{
    // get the binary representation of k
    let kb = to_binary(k);
    let mut clauses = Clauses::new();
    let out_var = var_name_generator.next();
    let ghost nv = n.vars@;
    if n.bit_length < kb.len() {
        // since we have a minimal representation of k, we know that in this case, n cannot be larger than k
        let l = lit_pos(out_var);
        let c = Clause { vars: vec![l] };
        assert(c.vars@ =~= unit(pos(out_var)));
        clauses.add_clause(c);
        assert(clauses@ =~= seq![unit(pos(out_var))]);
        return (clauses, out_var);
    }
    let kl = kb.len();
    let mut i: usize = 0;
    while i < kl
        invariant
            n.wf(),
            nv == n.vars@,
            kl == kb.len(),
            kl <= n.bit_length,
            valid_var(out_var as int),
            i <= kl,
            clauses.wf(),
            clauses@ == amke_main(nv, kb@, out_var, i as int),
        decreases kl - i,
    {
        assert(valid_var(n.vars@[i as int] as int));
        // encode if k_i == 0: n_i => !n_i' for at least one i' > i where k_i' == 1
        let mut vars: Vec<i32> = if kb[i] == true {
            let a = lit_pos(n.vars[i]);
            let b = lit_pos(out_var);
            vec![a, b]
        } else {
            let a = lit_neg(n.vars[i]);
            let b = lit_neg(out_var);
            vec![a, b]
        };
        let mut j: usize = i + 1;
        while j < kl
            invariant
                n.wf(),
                nv == n.vars@,
                kl == kb.len(),
                kl <= n.bit_length,
                valid_var(out_var as int),
                i < kl,
                i + 1 <= j <= kl,
                vars@ == seq![signed(nv[i as int], kb@[i as int]), signed(out_var, kb@[i as int])] + differ_lits(
                    nv,
                    kb@,
                    i + 1,
                    j as int,
                ),
                zero_free(vars@),
            decreases kl - j,
        {
            assert(valid_var(n.vars@[j as int] as int));
            if kb[j] == true {
                let l = lit_neg(n.vars[j]);
                vars.push(l);
            } else {
                let l = lit_pos(n.vars[j]);
                vars.push(l);
            }
            assert(vars@ =~= seq![signed(nv[i as int], kb@[i as int]), signed(out_var, kb@[i as int])]
                + differ_lits(nv, kb@, i + 1, j + 1));
            j = j + 1;
        }
        clauses.add_clause(Clause { vars });
        i = i + 1;
    }
    // we also need to make sure that if n is longer than k, that the trailing variables are obviously false
    let ghost main = clauses@;
    let mut i: usize = kl;
    while i < n.bit_length
        invariant
            n.wf(),
            nv == n.vars@,
            kl <= i <= n.bit_length,
            clauses.wf(),
            clauses@ == main + unit_negs(nv, kl as int, i as int),
        decreases n.bit_length - i,
    {
        assert(valid_var(n.vars@[i as int] as int));
        let l = lit_neg(n.vars[i]);
        let c = Clause { vars: vec![l] };
        assert(c.vars@ =~= unit(neg(nv[i as int])));
        clauses.add_clause(c);
        assert(clauses@ =~= main + unit_negs(nv, kl as int, i + 1));
        i = i + 1;
    }
    (clauses, out_var)
}

/// Each clause of `cs` with the literal `l` added.
pub open spec fn with_lit(cs: Seq<Seq<i32>>, l: i32) -> Seq<Seq<i32>> {
    Seq::new(cs.len(), |i: int| cs[i].push(l))
}

/// Adding literal `l` to every clause: the clauses hold exactly when `l` is true or the
/// clauses held before.
pub proof fn lemma_with_lit(a: spec_fn(int) -> bool, cs: Seq<Seq<i32>>, l: i32)
    ensures
        all_sat(a, with_lit(cs, l)) == (lit_true(a, l) || all_sat(a, cs)),
{
    let w = with_lit(cs, l);
    if lit_true(a, l) {
        assert forall|j: int| 0 <= j < w.len() implies clause_sat(a, #[trigger] w[j]) by {
            assert(w[j][w[j].len() - 1] == l);
        }
    }
    if all_sat(a, cs) {
        assert forall|j: int| 0 <= j < w.len() implies clause_sat(a, #[trigger] w[j]) by {
            assert(clause_sat(a, cs[j]));
            let t = choose|t: int| 0 <= t < cs[j].len() && lit_true(a, #[trigger] cs[j][t]);
            assert(w[j][t] == cs[j][t]);
        }
    }
    if all_sat(a, w) && !lit_true(a, l) {
        assert forall|j: int| 0 <= j < cs.len() implies clause_sat(a, #[trigger] cs[j]) by {
            assert(clause_sat(a, w[j]));
            let t = choose|t: int| 0 <= t < w[j].len() && lit_true(a, #[trigger] w[j][t]);
            if t < cs[j].len() {
                assert(w[j][t] == cs[j][t]);
            } else {
                assert(w[j][t] == l);
            }
        }
    }
}

/// The clauses of `greater_than_logical_encoding` hold exactly when its output variable is
/// true or the number is at most `k`: the output is forced true whenever the number is
/// above `k`.
pub proof fn lemma_greater_than(a: spec_fn(int) -> bool, nv: Seq<usize>, k: nat, out: usize)
    requires
        all_valid(nv),
        valid_var(out as int),
    ensures
        all_sat(a, with_lit(spec_at_most_k(nv, k), pos(out))) == (a(out as int) || value(a, nv) <= k),
{
    lemma_with_lit(a, spec_at_most_k(nv, k), pos(out));
    lemma_at_most_k(a, nv, k);
    lemma_pos_neg(a, out);
}

pub fn greater_than_logical_encoding(
    n: &BinaryNumber,
    k: usize,
    var_name_generator: &mut VarNameGenerator,
) -> (res: (Clauses, usize))
    requires
        n.wf(),
        k <= usize::MAX / 2,
        1 <= old(var_name_generator).spec_peek() < i32::MAX,
    ensures
        res.0.wf(),
        res.1 == old(var_name_generator).spec_peek(),
        final(var_name_generator).spec_peek() == old(var_name_generator).spec_peek() + 1,
        res.0@ == with_lit(spec_at_most_k(n.vars@, k as nat), pos(res.1)),
{
    let clauses = at_most_k_encoding(n, k);
    let out_var = var_name_generator.next();
    let out_lit = lit_pos(out_var);
    let mut out_clauses = Clauses::new();
    let list = clauses.unflatten();
    let ghost cs = clauses@;
    proof {
        crate::encoding::encoder::lemma_split_zero_free(clauses.flat(), Seq::empty());
    }
    let mut i: usize = 0;
    while i < list.len()
        invariant
            list.len() == cs.len(),
            forall|j: int| 0 <= j < list.len() ==> (#[trigger] list[j]).vars@ == cs[j],
            forall|j: int| 0 <= j < cs.len() ==> zero_free(#[trigger] cs[j]),
            proper_lit(out_lit),
            i <= list.len(),
            out_clauses.wf(),
            out_clauses@ == with_lit(cs, out_lit).take(i as int),
        decreases list.len() - i,
    {
        let mut clause = Clause { vars: copy_lits(&list[i].vars) };
        clause.vars.push(out_lit);
        assert(zero_free(clause.vars@)) by {
            assert(zero_free(cs[i as int]));
        }
        out_clauses.add_clause(clause);
        assert(out_clauses@ =~= with_lit(cs, out_lit).take(i + 1));
        i = i + 1;
    }
    assert(with_lit(cs, out_lit).take(list.len() as int) =~= with_lit(cs, out_lit));
    (out_clauses, out_var)
}

pub fn greater_than_exact_logical_encoding(
    n: &BinaryNumber,
    k: usize,
    var_name_generator: &mut VarNameGenerator,
) -> (res: (Clauses, usize))
    requires
        n.wf(),
        k <= usize::MAX / 2,
        1 <= old(var_name_generator).spec_peek(),
        old(var_name_generator).spec_peek() + 1 < i32::MAX,
    ensures
        res.0.wf(),
        res.1 == old(var_name_generator).spec_peek() + 1,
        final(var_name_generator).spec_peek() == old(var_name_generator).spec_peek() + 2,
        res.0@ == spec_at_most_k_exact(n.vars@, k as nat, (res.1 - 1) as usize).push(
            seq![neg(res.1), neg((res.1 - 1) as usize)],
        ).push(seq![pos(res.1), pos((res.1 - 1) as usize)]),
{
    let (mut clauses, leq_var) = at_most_k_exact_encoding(n, k, var_name_generator);
    let gt_var = var_name_generator.next();
    let a = lit_neg(gt_var);
    let b = lit_neg(leq_var);
    clauses.add_clause(Clause { vars: vec![a, b] });
    let a = lit_pos(gt_var);
    let b = lit_pos(leq_var);
    clauses.add_clause(Clause { vars: vec![a, b] });
    (clauses, gt_var)
}

/// The clauses of `equals_encoding` for the shorter number `a` and the longer `b`.
pub open spec fn spec_equals(av: Seq<usize>, bv: Seq<usize>, out: usize) -> Seq<Seq<i32>> {
    Seq::new(av.len(), |i: int| seq![seq![pos(av[i]), neg(bv[i]), neg(out)], seq![neg(av[i]), pos(bv[i]), neg(out)]]).flatten()
        + Seq::new((bv.len() - av.len()) as nat, |i: int| seq![neg(bv[av.len() + i]), neg(out)])
}

/// The shorter and the longer of two numbers, as `equals_encoding` orders them.
pub open spec fn ordered_pair(n1: BinaryNumber, n2: BinaryNumber) -> (BinaryNumber, BinaryNumber) {
    if n1.bit_length < n2.bit_length {
        (n1, n2)
    } else {
        (n2, n1)
    }
}

pub fn equals_encoding(
    number1: &BinaryNumber,
    number2: &BinaryNumber,
    name_generator: &mut VarNameGenerator,
) -> (res: (Clauses, usize))
    requires
        number1.wf(),
        number2.wf(),
        1 <= old(name_generator).spec_peek() < i32::MAX,
    ensures
        res.0.wf(),
        res.1 == old(name_generator).spec_peek(),
        final(name_generator).spec_peek() == old(name_generator).spec_peek() + 1,
        res.0@ == spec_equals(ordered_pair(*number1, *number2).0.vars@, ordered_pair(*number1, *number2).1.vars@, res.1),
{
    let out = name_generator.next();
    let (number1, number2) = if number1.bit_length < number2.bit_length {
        (number1, number2)
    } else {
        (number2, number1)
    };
    let ghost av = number1.vars@;
    let ghost bv = number2.vars@;
    let ghost pairs = Seq::new(av.len(), |i: int| seq![seq![pos(av[i]), neg(bv[i]), neg(out)], seq![neg(av[i]), pos(bv[i]), neg(out)]]);
    let ghost tail = Seq::new((bv.len() - av.len()) as nat, |i: int| seq![neg(bv[av.len() + i]), neg(out)]);
    let mut clauses = Clauses::new();
    let mut i: usize = 0;
    while i < number1.bit_length
        invariant
            number1.wf(),
            number2.wf(),
            av == number1.vars@,
            bv == number2.vars@,
            number1.bit_length <= number2.bit_length,
            valid_var(out as int),
            pairs == Seq::new(av.len(), |i: int| seq![seq![pos(av[i]), neg(bv[i]), neg(out)], seq![neg(av[i]), pos(bv[i]), neg(out)]]),
            i <= number1.bit_length,
            clauses.wf(),
            clauses@ == pairs.take(i as int).flatten(),
        decreases number1.bit_length - i,
    {
        assert(valid_var(av[i as int] as int) && valid_var(bv[i as int] as int));
        let x = lit_pos(number1.vars[i]);
        let y = lit_neg(number2.vars[i]);
        let z = lit_neg(out);
        clauses.add_clause(Clause { vars: vec![x, y, z] });
        let x = lit_neg(number1.vars[i]);
        let y = lit_pos(number2.vars[i]);
        let z = lit_neg(out);
        clauses.add_clause(Clause { vars: vec![x, y, z] });
        proof {
            assert(pairs.take(i + 1) =~= pairs.take(i as int).push(pairs[i as int]));
            pairs.take(i as int).lemma_flatten_push(pairs[i as int]);
            assert(pairs[i as int] =~= seq![seq![pos(av[i as int]), neg(bv[i as int]), neg(out)], seq![neg(av[i as int]), pos(bv[i as int]), neg(out)]]);
            assert(clauses@ =~= pairs.take(i + 1).flatten());
        }
        i = i + 1;
    }
    assert(pairs.take(number1.bit_length as int) =~= pairs);
    let ghost first = clauses@;
    let mut i: usize = number1.bit_length;
    while i < number2.bit_length
        invariant
            number1.wf(),
            number2.wf(),
            av == number1.vars@,
            bv == number2.vars@,
            number1.bit_length <= i <= number2.bit_length,
            valid_var(out as int),
            tail == Seq::new((bv.len() - av.len()) as nat, |i: int| seq![neg(bv[av.len() + i]), neg(out)]),
            clauses.wf(),
            clauses@ == first + tail.take(i - av.len()),
        decreases number2.bit_length - i,
    {
        assert(valid_var(bv[i as int] as int));
        let x = lit_neg(number2.vars[i]);
        let z = lit_neg(out);
        clauses.add_clause(Clause { vars: vec![x, z] });
        proof {
            assert(tail.take(i + 1 - av.len()) =~= tail.take(i - av.len()).push(tail[i - av.len()]));
            assert(tail[i - av.len()] =~= seq![neg(bv[i as int]), neg(out)]);
            assert(clauses@ =~= first + tail.take(i + 1 - av.len()));
        }
        i = i + 1;
    }
    assert(tail.take(bv.len() - av.len()) =~= tail);
    (clauses, out)
}

/// The clauses that `exact_equals_encoding` adds after those of `equals_encoding`.
pub open spec fn spec_exact_equals_extra(av: Seq<usize>, bv: Seq<usize>, hv: Seq<usize>, out: usize) -> Seq<Seq<i32>> {
    Seq::new(av.len(), |i: int| seq![seq![neg(av[i]), neg(bv[i]), neg(hv[i])], seq![pos(av[i]), pos(bv[i]), neg(hv[i])]]).flatten()
        .push(Seq::new(hv.len(), |i: int| pos(hv[i])).push(pos(out)))
}

pub fn exact_equals_encoding(
    number1: &BinaryNumber,
    number2: &BinaryNumber,
    name_generator: &mut VarNameGenerator,
) -> (res: (Clauses, usize))
    requires
        number1.wf(),
        number2.wf(),
        1 <= old(name_generator).spec_peek(),
        old(name_generator).spec_peek() + 1 + number1.bit_length + number2.bit_length <= i32::MAX,
    ensures
        res.0.wf(),
        res.1 == old(name_generator).spec_peek(),
        final(name_generator).spec_peek() == old(name_generator).spec_peek() + 1 + ordered_pair(*number1, *number2).0.bit_length,
        ({
            let (a, b) = ordered_pair(*number1, *number2);
            let hv = Seq::new(a.bit_length as nat, |i: int| (res.1 + 1 + i) as usize) + b.vars@.skip(a.bit_length as int);
            res.0@ == spec_equals(a.vars@, b.vars@, res.1) + spec_exact_equals_extra(a.vars@, b.vars@, hv, res.1)
        }),
{
    let (mut clauses, out) = equals_encoding(number1, number2, name_generator);
    let (number1, number2) = if number1.bit_length < number2.bit_length {
        (number1, number2)
    } else {
        (number2, number1)
    };
    let ghost start = name_generator.spec_peek();
    let ghost av = number1.vars@;
    let ghost bv = number2.vars@;
    let mut helper_vars: Vec<usize> = Vec::new();
    let mut i: usize = 0;
    while i < number1.bit_length
        invariant
            number1.wf(),
            number2.wf(),
            number1.bit_length <= number2.bit_length,
            start + number1.bit_length + number2.bit_length <= i32::MAX,
            start >= 1,
            i <= number1.bit_length,
            name_generator.spec_peek() == start + i,
            helper_vars@ =~= Seq::new(i as nat, |j: int| (start + j) as usize),
        decreases number1.bit_length - i,
    {
        let v = name_generator.next();
        helper_vars.push(v);
        i = i + 1;
    }
    let mut i: usize = number1.bit_length;
    while i < number2.bit_length
        invariant
            number1.wf(),
            number2.wf(),
            number1.bit_length <= i <= number2.bit_length,
            helper_vars@ =~= Seq::new(number1.bit_length as nat, |j: int| (start + j) as usize)
                + number2.vars@.subrange(number1.bit_length as int, i as int),
        decreases number2.bit_length - i,
    {
        helper_vars.push(number2.vars[i]);
        i = i + 1;
    }
    let ghost hv = helper_vars@;
    assert(number2.vars@.subrange(number1.bit_length as int, number2.bit_length as int) =~= number2.vars@.skip(
        number1.bit_length as int,
    ));
    assert(all_valid(hv)) by {
        assert forall|j: int| 0 <= j < hv.len() implies valid_var(#[trigger] hv[j] as int) by {
            if j >= number1.bit_length {
                assert(hv[j] == number2.vars@[j]);
            }
        }
    }
    let ghost base = clauses@;
    let ghost pairs = Seq::new(av.len(), |i: int| seq![seq![neg(av[i]), neg(bv[i]), neg(hv[i])], seq![pos(av[i]), pos(bv[i]), neg(hv[i])]]);
    let mut i: usize = 0;
    while i < number1.bit_length
        invariant
            number1.wf(),
            number2.wf(),
            av == number1.vars@,
            bv == number2.vars@,
            hv == helper_vars@,
            all_valid(hv),
            hv.len() == bv.len(),
            number1.bit_length <= number2.bit_length,
            pairs == Seq::new(av.len(), |i: int| seq![seq![neg(av[i]), neg(bv[i]), neg(hv[i])], seq![pos(av[i]), pos(bv[i]), neg(hv[i])]]),
            i <= number1.bit_length,
            clauses.wf(),
            clauses@ == base + pairs.take(i as int).flatten(),
        decreases number1.bit_length - i,
    {
        assert(valid_var(av[i as int] as int) && valid_var(bv[i as int] as int) && valid_var(hv[i as int] as int));
        let x = lit_neg(number1.vars[i]);
        let y = lit_neg(number2.vars[i]);
        let z = lit_neg(helper_vars[i]);
        clauses.add_clause(Clause { vars: vec![x, y, z] });
        let x = lit_pos(number1.vars[i]);
        let y = lit_pos(number2.vars[i]);
        let z = lit_neg(helper_vars[i]);
        clauses.add_clause(Clause { vars: vec![x, y, z] });
        proof {
            assert(pairs.take(i + 1) =~= pairs.take(i as int).push(pairs[i as int]));
            pairs.take(i as int).lemma_flatten_push(pairs[i as int]);
            assert(pairs[i as int] =~= seq![seq![neg(av[i as int]), neg(bv[i as int]), neg(hv[i as int])], seq![pos(av[i as int]), pos(bv[i as int]), neg(hv[i as int])]]);
            assert(clauses@ =~= base + pairs.take(i + 1).flatten());
        }
        i = i + 1;
    }
    assert(pairs.take(number1.bit_length as int) =~= pairs);
    let mut final_clause: Vec<i32> = Vec::new();
    let mut i: usize = 0;
    while i < helper_vars.len()
        invariant
            hv == helper_vars@,
            all_valid(hv),
            i <= hv.len(),
            final_clause@ =~= Seq::new(i as nat, |j: int| pos(hv[j])),
            zero_free(final_clause@),
        decreases hv.len() - i,
    {
        assert(valid_var(hv[i as int] as int));
        let l = lit_pos(helper_vars[i]);
        final_clause.push(l);
        i = i + 1;
    }
    let l = lit_pos(out);
    final_clause.push(l);
    clauses.add_clause(Clause { vars: final_clause });
    (clauses, out)
}

/// Option `o` of `js` written in binary over `len` bits.
pub open spec fn option_bits(js: Seq<usize>, len: nat, o: int) -> Seq<bool> {
    bits_upto(js[o] as nat, len)
}

/// Bit `d` separates option `cur` from the options that share its first `d` bits, and
/// no earlier option shares them.
pub open spec fn is_relevant_bit(js: Seq<usize>, len: nat, cur: int, d: int) -> bool {
    forall|o: int| 0 <= o < js.len() ==> #[trigger] option_ok(js, len, cur, d, o)
}

/// Option `o` does not share the first `d` bits of option `cur`, or it agrees with it on
/// bit `d` and comes no earlier.
pub open spec fn option_ok(js: Seq<usize>, len: nat, cur: int, d: int, o: int) -> bool {
    option_bits(js, len, o).take(d) == option_bits(js, len, cur).take(d) ==> (option_bits(js, len, o)[d]
        == option_bits(js, len, cur)[d] && o >= cur)
}

/// The clause that fixes bit `d` of `m` for option `cur` once the lower bits match it.
pub open spec fn option_clause(mv: Seq<usize>, js: Seq<usize>, cur: int, d: int, tail: Seq<i32>) -> Seq<i32> {
    let b = option_bits(js, mv.len(), cur);
    Seq::new(d as nat, |i: int| signed(mv[i], !b[i])).push(signed(mv[d], b[d])) + tail
}

/// The clauses of option `cur` for the bits below `hi`.
pub open spec fn option_clauses(mv: Seq<usize>, js: Seq<usize>, cur: int, tail: Seq<i32>, hi: int) -> Seq<Seq<i32>>
    decreases hi,
{
    if hi <= 0 {
        Seq::empty()
    } else {
        option_clauses(mv, js, cur, tail, hi - 1) + if is_relevant_bit(js, mv.len(), cur, hi - 1) {
            seq![option_clause(mv, js, cur, hi - 1, tail)]
        } else {
            Seq::<Seq<i32>>::empty()
        }
    }
}

/// The clauses of the options below `hi`.
pub open spec fn all_option_clauses(mv: Seq<usize>, js: Seq<usize>, tail: Seq<i32>, hi: int) -> Seq<Seq<i32>>
    decreases hi,
{
    if hi <= 0 {
        Seq::empty()
    } else {
        all_option_clauses(mv, js, tail, hi - 1) + option_clauses(mv, js, hi - 1, tail, mv.len() as int)
    }
}

/// Whether the first `d` entries of two sequences agree.
fn prefix_eq(x: &Vec<bool>, y: &Vec<bool>, d: usize) -> (r: bool)
    requires
        d <= x.len(),
        d <= y.len(),
    ensures
        r == (x@.take(d as int) == y@.take(d as int)),
{
    let mut i: usize = 0;
    while i < d
        invariant
            d <= x.len(),
            d <= y.len(),
            i <= d,
            x@.take(i as int) == y@.take(i as int),
        decreases d - i,
    {
        if x[i] != y[i] {
            assert(x@.take(d as int)[i as int] != y@.take(d as int)[i as int]);
            return false;
        }
        assert(x@.take(i + 1) =~= x@.take(i as int).push(x@[i as int]));
        assert(y@.take(i + 1) =~= y@.take(i as int).push(y@[i as int]));
        i = i + 1;
    }
    true
}

pub fn n_equals_i_implies_m_in_j_encoding(
    n: &BinaryNumber,
    i: usize,
    m: &BinaryNumber,
    j: &Vec<usize>,
) -> (clauses: Clauses)
    requires
        n.wf(),
        m.wf(),
        i <= usize::MAX / 2,
        spec_bitlength(i as nat) <= n.bit_length,
        forall|o: int| 0 <= o < j.len() ==> #[trigger] j@[o] <= usize::MAX / 2 && spec_bitlength(j@[o] as nat) <= m.bit_length,
    ensures
        clauses.wf(),
        clauses@ == all_option_clauses(m.vars@, j@, ne_lits(n.vars@, i as nat), j.len() as int),
{
    let mut clauses: Clauses = Clauses::new();
    // we encode n==i ==> m \in j as n!=i | m \in j
    let n_not_equals_i: Clause = not_equals_constant_encoding(&n, i);
    let ghost tail = n_not_equals_i.vars@;
    let ghost mv = m.vars@;
    let ghost js = j@;
    let ghost len = m.bit_length as nat;

    // we take all the binary representations of all of the numbers, padded to the length of m
    let mut binary_j: Vec<Vec<bool>> = Vec::new();
    let mut o: usize = 0;
    while o < j.len()
        invariant
            js == j@,
            len == m.bit_length,
            forall|o: int| 0 <= o < j.len() ==> #[trigger] j@[o] <= usize::MAX / 2 && spec_bitlength(j@[o] as nat) <= m.bit_length,
            o <= j.len(),
            binary_j.len() == o,
            forall|p: int| 0 <= p < o ==> (#[trigger] binary_j@[p])@ == option_bits(js, len, p),
        decreases j.len() - o,
    {
        let mut b = to_binary(j[o]);
        let ghost k = j@[o as int] as nat;
        while b.len() < m.bit_length
            invariant
                spec_bitlength(k) <= b.len() <= m.bit_length,
                b@ =~= bits_upto(k, b.len() as nat),
            decreases m.bit_length - b.len(),
        {
            proof {
                lemma_high_bit_zero(k, b.len() as nat);
            }
            b.push(false);
        }
        binary_j.push(b);
        o = o + 1;
    }

    let mut current_option: usize = 0;
    while current_option < binary_j.len()
        invariant
            n.wf(),
            m.wf(),
            mv == m.vars@,
            js == j@,
            len == m.bit_length,
            binary_j.len() == js.len(),
            forall|p: int| 0 <= p < binary_j.len() ==> (#[trigger] binary_j@[p])@ == option_bits(js, len, p),
            tail == n_not_equals_i.vars@,
            zero_free(tail),
            current_option <= binary_j.len(),
            clauses.wf(),
            clauses@ == all_option_clauses(mv, js, tail, current_option as int),
        decreases binary_j.len() - current_option,
    {
        let ghost before = clauses@;
        let cur_len = binary_j[current_option].len();
        assert(cur_len == m.bit_length);
        let mut current_bit_depth: usize = 0;
        while current_bit_depth < cur_len
            invariant
                n.wf(),
                m.wf(),
                mv == m.vars@,
                js == j@,
                len == m.bit_length,
                cur_len == m.bit_length,
                binary_j.len() == js.len(),
                forall|p: int| 0 <= p < binary_j.len() ==> (#[trigger] binary_j@[p])@ == option_bits(js, len, p),
                tail == n_not_equals_i.vars@,
                zero_free(tail),
                current_option < binary_j.len(),
                current_bit_depth <= cur_len,
                clauses.wf(),
                clauses@ == before + option_clauses(mv, js, current_option as int, tail, current_bit_depth as int),
            decreases cur_len - current_bit_depth,
        {
            let d = current_bit_depth;
            let ghost cb = option_bits(js, len, current_option as int);
            assert(binary_j@[current_option as int]@ == cb);
            let mut relevant_bit: bool = true;
            let mut other_option: usize = 0;
            while other_option < binary_j.len()
                invariant_except_break
                    relevant_bit,
                    forall|o: int| 0 <= o < other_option ==> #[trigger] option_ok(js, len, current_option as int, d as int, o),
                invariant
                    binary_j.len() == js.len(),
                    forall|p: int| 0 <= p < binary_j.len() ==> (#[trigger] binary_j@[p])@ == option_bits(js, len, p),
                    len == m.bit_length,
                    current_option < binary_j.len(),
                    cb == option_bits(js, len, current_option as int),
                    d < len,
                    other_option <= binary_j.len(),
                ensures
                    relevant_bit ==> forall|o: int| 0 <= o < binary_j.len() ==> #[trigger] option_ok(js, len, current_option as int, d as int, o),
                    !relevant_bit ==> other_option < binary_j.len() && !option_ok(js, len, current_option as int, d as int, other_option as int),
                decreases binary_j.len() - other_option,
            {
                assert(binary_j@[other_option as int]@ == option_bits(js, len, other_option as int));
                if binary_j[other_option].len() <= d {
                    other_option = other_option + 1;
                    continue;
                }
                let same_prefix = prefix_eq(&binary_j[current_option], &binary_j[other_option], d);
                if same_prefix {
                    if binary_j[current_option][d] != binary_j[other_option][d] {
                        relevant_bit = false;
                        break;
                    } else if other_option < current_option {
                        relevant_bit = false;
                        break;
                    }
                }
                proof {
                    let o = other_option as int;
                    assert(same_prefix == (option_bits(js, len, o).take(d as int) == cb.take(d as int)));
                    assert(option_ok(js, len, current_option as int, d as int, o));
                }
                other_option = other_option + 1;
            }
            proof {
                if !relevant_bit {
                    assert(!option_ok(js, len, current_option as int, d as int, other_option as int));
                    assert(!is_relevant_bit(js, len, current_option as int, d as int));
                } else {
                    assert(is_relevant_bit(js, len, current_option as int, d as int));
                }
            }
            if relevant_bit {
                // now we know that the current bit uniquely identifies this option from at least one other option
                let mut clause: Vec<i32> = Vec::new();
                let mut b: usize = 0;
                while b < d
                    invariant
                        m.wf(),
                        mv == m.vars@,
                        d < m.bit_length,
                        binary_j.len() == js.len(),
                        current_option < binary_j.len(),
                        binary_j@[current_option as int]@ == cb,
                        cb.len() == m.bit_length,
                        b <= d,
                        clause@ =~= Seq::new(b as nat, |i: int| signed(mv[i], !cb[i])),
                        zero_free(clause@),
                    decreases d - b,
                {
                    assert(valid_var(mv[b as int] as int));
                    if binary_j[current_option][b] == true {
                        let l = lit_neg(m.vars[b]);
                        clause.push(l);
                    } else {
                        let l = lit_pos(m.vars[b]);
                        clause.push(l);
                    }
                    b = b + 1;
                }
                assert(valid_var(mv[d as int] as int));
                let last = if binary_j[current_option][d] == true {
                    lit_pos(m.vars[d])
                } else {
                    lit_neg(m.vars[d])
                };
                clause.push(last);
                let mut rest = copy_lits(&n_not_equals_i.vars);
                clause.append(&mut rest);
                assert(clause@ =~= option_clause(mv, js, current_option as int, d as int, tail));
                assert(zero_free(clause@)) by {
                    assert forall|q: int| 0 <= q < clause@.len() implies #[trigger] clause@[q] != 0 by {
                        if q > d {
                            assert(clause@[q] == tail[q - d - 1]);
                        } else if q < d {
                            assert(proper_lit(signed(mv[q], !cb[q])));
                        }
                    }
                }
                // now we have a clause ensuring the sign of this bit, we can then move on to the next bit
                clauses.add_clause(Clause { vars: clause });
            }
            assert(clauses@ =~= before + option_clauses(mv, js, current_option as int, tail, d + 1));
            current_bit_depth = current_bit_depth + 1;
        }
        assert(clauses@ =~= all_option_clauses(mv, js, tail, current_option + 1));
        current_option = current_option + 1;
    }
    clauses
}

pub fn n_implies_m_in_j_encoding(n: usize, m: &BinaryNumber, j: &Vec<usize>) -> (clauses: Clauses)
    requires
        valid_var(n as int),
        m.wf(),
        forall|o: int| 0 <= o < j.len() ==> #[trigger] j@[o] <= usize::MAX / 2 && spec_bitlength(j@[o] as nat) <= m.bit_length,
    ensures
        clauses.wf(),
        clauses@ == all_option_clauses(m.vars@, j@, ne_lits(seq![n], 1), j.len() as int),
{
    let single = BinaryNumber { vars: vec![n], max: 1, bit_length: 1 };
    assert(single.vars@ =~= seq![n]);
    proof {
        reveal_with_fuel(spec_bitlength, 2);
    }
    n_equals_i_implies_m_in_j_encoding(&single, 1, m, j)
}

/// The bits of `m` below `hi` match those of `k` under every assignment that satisfies the
/// clauses of the single option `k` and makes no literal of `tail` true.
proof fn lemma_single_option_bits(a: spec_fn(int) -> bool, mv: Seq<usize>, k: usize, tail: Seq<i32>, hi: int)
    requires
        all_valid(mv),
        0 <= hi <= mv.len(),
        forall|t: int| 0 <= t < tail.len() ==> !lit_true(a, #[trigger] tail[t]),
        all_sat(a, option_clauses(mv, seq![k], 0, tail, hi)),
    ensures
        forall|i: int| 0 <= i < hi ==> a(#[trigger] mv[i] as int) == bits_upto(k as nat, mv.len())[i],
    decreases hi,
{
    if hi > 0 {
        let js = seq![k];
        let d = hi - 1;
        let b = option_bits(js, mv.len(), 0);
        assert(b =~= bits_upto(k as nat, mv.len()));
        assert forall|o: int| 0 <= o < js.len() implies #[trigger] option_ok(js, mv.len(), 0, d, o) by {
            assert(o == 0);
        }
        assert(is_relevant_bit(js, mv.len(), 0, d));
        let c = option_clause(mv, js, 0, d, tail);
        let front = option_clauses(mv, js, 0, tail, d);
        assert(option_clauses(mv, js, 0, tail, hi) == front + seq![c]);
        lemma_all_sat_append(a, front, seq![c]);
        assert(seq![c][0] == c);
        assert(clause_sat(a, c));
        lemma_single_option_bits(a, mv, k, tail, d);
        let t = choose|t: int| 0 <= t < c.len() && lit_true(a, #[trigger] c[t]);
        if t < d {
            assert(c[t] == signed(mv[t], !b[t]));
            lemma_pos_neg(a, mv[t]);
            assert(a(mv[t] as int) == b[t]);
            assert(false);
        } else if t == d {
            assert(c[t] == signed(mv[d], b[d]));
            lemma_pos_neg(a, mv[d]);
        } else {
            assert(c[t] == tail[t - d - 1]);
            assert(false);
        }
    }
}

/// With the single option `k`, the clauses of `n_implies_m_in_j_encoding` give `m` the
/// value `k` under every satisfying assignment that makes the variable `v` true.
pub proof fn lemma_implies_single(a: spec_fn(int) -> bool, v: usize, mv: Seq<usize>, k: usize)
    requires
        valid_var(v as int),
        all_valid(mv),
        spec_bitlength(k as nat) <= mv.len(),
        a(v as int),
        all_sat(a, all_option_clauses(mv, seq![k], ne_lits(seq![v], 1), 1)),
    ensures
        value(a, mv) == k,
{
    let tail = ne_lits(seq![v], 1);
    let js = seq![k];
    assert(all_option_clauses(mv, js, tail, 0) == Seq::<Seq<i32>>::empty());
    assert(all_option_clauses(mv, js, tail, 1) =~= option_clauses(mv, js, 0, tail, mv.len() as int));
    assert(bit(1, 0)) by {
        lemma2_to64();
    }
    assert(tail =~= seq![neg(v)]);
    lemma_pos_neg(a, v);
    assert forall|t: int| 0 <= t < tail.len() implies !lit_true(a, #[trigger] tail[t]) by {
        assert(t == 0);
    }
    lemma_single_option_bits(a, mv, k, tail, mv.len() as int);
    assert(bits_of(a, mv) =~= bits_upto(k as nat, mv.len()));
    lemma_val_bits_upto(k as nat, mv.len());
}

/// The sum-bit clauses of a half adder `s = x xor y`.
pub open spec fn half_sum(s: usize, x: usize, y: usize) -> Seq<Seq<i32>> {
    seq![
        seq![neg(s), pos(x), pos(y)],
        seq![pos(s), neg(x), pos(y)],
        seq![pos(s), pos(x), neg(y)],
        seq![neg(s), neg(x), neg(y)],
    ]
}

/// The carry clauses of a half adder `c = x and y`.
pub open spec fn half_carry(c: usize, x: usize, y: usize) -> Seq<Seq<i32>> {
    seq![seq![neg(c), pos(x)], seq![neg(c), pos(y)], seq![pos(c), neg(x), neg(y)]]
}

/// The sum-bit clauses of a full adder `s = x xor y xor c`.
pub open spec fn full_sum(s: usize, x: usize, y: usize, c: usize) -> Seq<Seq<i32>> {
    seq![
        seq![neg(s), pos(x), pos(y), pos(c)],
        seq![pos(s), neg(x), pos(y), pos(c)],
        seq![pos(s), pos(x), neg(y), pos(c)],
        seq![neg(s), neg(x), neg(y), pos(c)],
        seq![pos(s), pos(x), pos(y), neg(c)],
        seq![neg(s), neg(x), pos(y), neg(c)],
        seq![neg(s), pos(x), neg(y), neg(c)],
        seq![pos(s), neg(x), neg(y), neg(c)],
    ]
}

/// The carry clauses of a full adder `co = majority(x, y, c)`.
pub open spec fn full_carry(co: usize, x: usize, y: usize, c: usize) -> Seq<Seq<i32>> {
    seq![
        seq![neg(co), pos(x), pos(y)],
        seq![neg(co), pos(x), pos(c)],
        seq![neg(co), pos(y), pos(c)],
        seq![pos(co), neg(x), neg(y)],
        seq![pos(co), neg(x), neg(c)],
        seq![pos(co), neg(y), neg(c)],
    ]
}

/// The clauses for output bit `i >= 1` of the sum of `nv` (the longer) and `mv`.
pub open spec fn adder_step(sv: Seq<usize>, nv: Seq<usize>, mv: Seq<usize>, cv: Seq<usize>, i: int) -> Seq<Seq<i32>> {
    if i < mv.len() {
        full_sum(sv[i], nv[i], mv[i], cv[i - 1]) + full_carry(cv[i], nv[i], mv[i], cv[i - 1])
    } else if i < nv.len() {
        half_sum(sv[i], nv[i], cv[i - 1]) + half_carry(cv[i], nv[i], cv[i - 1])
    } else {
        Seq::empty()
    }
}

/// The adder clauses for the output bits below `hi` (at least bit 0).
pub open spec fn adder_clauses(sv: Seq<usize>, nv: Seq<usize>, mv: Seq<usize>, cv: Seq<usize>, hi: int) -> Seq<Seq<i32>>
    decreases hi,
{
    if hi <= 1 {
        half_sum(sv[0], nv[0], mv[0]) + half_carry(cv[0], nv[0], mv[0])
    } else {
        adder_clauses(sv, nv, mv, cv, hi - 1) + adder_step(sv, nv, mv, cv, hi - 1)
    }
}

/// The order in which `bounded_sum_encoding` takes its operands: the one with the larger
/// maximum first.
pub open spec fn sum_order(n: BinaryNumber, m: BinaryNumber) -> (BinaryNumber, BinaryNumber) {
    if n.max > m.max {
        (n, m)
    } else {
        (m, n)
    }
}

pub open spec fn spec_min(a: int, b: int) -> int {
    if a <= b {
        a
    } else {
        b
    }
}

/// The number of output bits of `bounded_sum_encoding`.
pub open spec fn sum_out_bits(n: BinaryNumber, m: BinaryNumber, max_bitlength: usize) -> int {
    spec_min(max_bitlength as int, spec_bitlength((n.max + m.max) as nat) as int)
}

/// Variables `start, start + 1, ...`, `len` of them.
pub open spec fn fresh_range(start: int, len: nat) -> Seq<usize> {
    Seq::new(len, |i: int| (start + i) as usize)
}

/// The clauses of `bounded_sum_encoding` for sum variables `sv` and carries `cv`.
pub open spec fn spec_bounded_sum(nv: Seq<usize>, mv: Seq<usize>, sv: Seq<usize>, cv: Seq<usize>) -> Seq<Seq<i32>> {
    let body = adder_clauses(sv, nv, mv, cv, sv.len() as int);
    if cv.len() == sv.len() {
        body.push(unit(neg(cv[sv.len() - 1])))
    } else {
        body
    }
}

/// The output bits of `bounded_sum_encoding`: the fresh sum variables, except that a bit
/// beyond the longer operand is its last carry.
pub open spec fn sum_out_vars(nv: Seq<usize>, sv: Seq<usize>, cv: Seq<usize>) -> Seq<usize> {
    Seq::new(sv.len(), |i: int| if i >= nv.len() { cv[i - 1] } else { sv[i] })
}

fn add_lits2(clauses: &mut Clauses, a: i32, b: i32)
    requires
        old(clauses).wf(),
        proper_lit(a),
        proper_lit(b),
    ensures
        final(clauses).wf(),
        final(clauses)@ == old(clauses)@.push(seq![a, b]),
{
    let c = Clause { vars: vec![a, b] };
    assert(c.vars@ =~= seq![a, b]);
    clauses.add_clause(c);
}

fn add_lits3(clauses: &mut Clauses, a: i32, b: i32, c: i32)
    requires
        old(clauses).wf(),
        proper_lit(a),
        proper_lit(b),
        proper_lit(c),
    ensures
        final(clauses).wf(),
        final(clauses)@ == old(clauses)@.push(seq![a, b, c]),
{
    let cl = Clause { vars: vec![a, b, c] };
    assert(cl.vars@ =~= seq![a, b, c]);
    clauses.add_clause(cl);
}

fn add_lits4(clauses: &mut Clauses, a: i32, b: i32, c: i32, d: i32)
    requires
        old(clauses).wf(),
        proper_lit(a),
        proper_lit(b),
        proper_lit(c),
        proper_lit(d),
    ensures
        final(clauses).wf(),
        final(clauses)@ == old(clauses)@.push(seq![a, b, c, d]),
{
    let cl = Clause { vars: vec![a, b, c, d] };
    assert(cl.vars@ =~= seq![a, b, c, d]);
    clauses.add_clause(cl);
}

/// Adds the sum-bit clauses of a half adder `s = x xor y`.
pub(crate) fn add_half_sum(clauses: &mut Clauses, s: usize, x: usize, y: usize)
    requires
        old(clauses).wf(),
        valid_var(s as int),
        valid_var(x as int),
        valid_var(y as int),
    ensures
        final(clauses).wf(),
        final(clauses)@ == old(clauses)@ + half_sum(s, x, y),
{
    add_lits3(clauses, lit_neg(s), lit_pos(x), lit_pos(y));
    add_lits3(clauses, lit_pos(s), lit_neg(x), lit_pos(y));
    add_lits3(clauses, lit_pos(s), lit_pos(x), lit_neg(y));
    add_lits3(clauses, lit_neg(s), lit_neg(x), lit_neg(y));
    assert(final(clauses)@ =~= old(clauses)@ + half_sum(s, x, y));
}

/// Adds the carry clauses of a half adder `c = x and y`.
pub(crate) fn add_half_carry(clauses: &mut Clauses, c: usize, x: usize, y: usize)
    requires
        old(clauses).wf(),
        valid_var(c as int),
        valid_var(x as int),
        valid_var(y as int),
    ensures
        final(clauses).wf(),
        final(clauses)@ == old(clauses)@ + half_carry(c, x, y),
{
    add_lits2(clauses, lit_neg(c), lit_pos(x));
    add_lits2(clauses, lit_neg(c), lit_pos(y));
    add_lits3(clauses, lit_pos(c), lit_neg(x), lit_neg(y));
    assert(final(clauses)@ =~= old(clauses)@ + half_carry(c, x, y));
}

pub(crate) fn add_half_adder(clauses: &mut Clauses, s: usize, c: usize, x: usize, y: usize)
    requires
        old(clauses).wf(),
        valid_var(s as int),
        valid_var(c as int),
        valid_var(x as int),
        valid_var(y as int),
    ensures
        final(clauses).wf(),
        final(clauses)@ == old(clauses)@ + half_sum(s, x, y) + half_carry(c, x, y),
{
    add_half_sum(clauses, s, x, y);
    add_half_carry(clauses, c, x, y);
}

pub(crate) fn add_full_adder(clauses: &mut Clauses, s: usize, co: usize, x: usize, y: usize, c: usize)
    requires
        old(clauses).wf(),
        valid_var(s as int),
        valid_var(co as int),
        valid_var(x as int),
        valid_var(y as int),
        valid_var(c as int),
    ensures
        final(clauses).wf(),
        final(clauses)@ == old(clauses)@ + (full_sum(s, x, y, c) + full_carry(co, x, y, c)),
{
    add_lits4(clauses, lit_neg(s), lit_pos(x), lit_pos(y), lit_pos(c));
    add_lits4(clauses, lit_pos(s), lit_neg(x), lit_pos(y), lit_pos(c));
    add_lits4(clauses, lit_pos(s), lit_pos(x), lit_neg(y), lit_pos(c));
    add_lits4(clauses, lit_neg(s), lit_neg(x), lit_neg(y), lit_pos(c));
    add_lits4(clauses, lit_pos(s), lit_pos(x), lit_pos(y), lit_neg(c));
    add_lits4(clauses, lit_neg(s), lit_neg(x), lit_pos(y), lit_neg(c));
    add_lits4(clauses, lit_neg(s), lit_pos(x), lit_neg(y), lit_neg(c));
    add_lits4(clauses, lit_pos(s), lit_neg(x), lit_neg(y), lit_neg(c));
    add_lits3(clauses, lit_neg(co), lit_pos(x), lit_pos(y));
    add_lits3(clauses, lit_neg(co), lit_pos(x), lit_pos(c));
    add_lits3(clauses, lit_neg(co), lit_pos(y), lit_pos(c));
    add_lits3(clauses, lit_pos(co), lit_neg(x), lit_neg(y));
    add_lits3(clauses, lit_pos(co), lit_neg(x), lit_neg(c));
    add_lits3(clauses, lit_pos(co), lit_neg(y), lit_neg(c));
    assert(final(clauses)@ =~= old(clauses)@ + (full_sum(s, x, y, c) + full_carry(co, x, y, c)));
}

/// Fresh variables from the generator, `count` of them.
pub fn fresh_vars(count: usize, var_name_generator: &mut VarNameGenerator) -> (vars: Vec<usize>)
    requires
        1 <= old(var_name_generator).spec_peek(),
        old(var_name_generator).spec_peek() + count <= i32::MAX + 1,
    ensures
        vars@ == fresh_range(old(var_name_generator).spec_peek() as int, count as nat),
        all_valid(vars@),
        final(var_name_generator).spec_peek() == old(var_name_generator).spec_peek() + count,
{
    let ghost start = var_name_generator.spec_peek();
    let mut vars: Vec<usize> = Vec::new();
    let mut i: usize = 0;
    while i < count
        invariant
            i <= count,
            start + count <= i32::MAX + 1,
            start >= 1,
            var_name_generator.spec_peek() == start + i,
            vars@ =~= fresh_range(start as int, i as nat),
        decreases count - i,
    {
        let v = var_name_generator.next();
        vars.push(v);
        i = i + 1;
    }
    vars
}

pub fn bounded_sum_encoding(
    n: &BinaryNumber,
    m: &BinaryNumber,
    max_bitlength: usize,
    var_name_generator: &mut VarNameGenerator,
) -> (res: (BinaryNumber, Clauses))
    requires
        n.wf(),
        m.wf(),
        1 <= sum_order(*n, *m).1.bit_length <= sum_order(*n, *m).0.bit_length,
        1 <= max_bitlength < usize::BITS,
        n.max + m.max <= usize::MAX / 2,
        sum_out_bits(*n, *m, max_bitlength) <= sum_order(*n, *m).0.bit_length + 1,
        1 <= old(var_name_generator).spec_peek(),
        old(var_name_generator).spec_peek() + sum_out_bits(*n, *m, max_bitlength) + sum_order(*n, *m).0.bit_length
            <= i32::MAX + 1,
    ensures
        ({
            let (big, small) = sum_order(*n, *m);
            let start = old(var_name_generator).spec_peek() as int;
            let out = sum_out_bits(*n, *m, max_bitlength);
            let sv = fresh_range(start, out as nat);
            let cv = fresh_range(start + out, big.bit_length as nat);
            &&& final(var_name_generator).spec_peek() == start + out + big.bit_length
            &&& res.1.wf()
            &&& res.1@ == spec_bounded_sum(big.vars@, small.vars@, sv, cv)
            &&& res.0.wf()
            &&& res.0.vars@ == sum_out_vars(big.vars@, sv, cv)
            &&& res.0.bit_length == out
            &&& res.0.max == spec_min(n.max + m.max, pow2(max_bitlength as nat) - 1)
        }),
{
    // w.l.o.g. n >= m
    let (n, m) = if n.max > m.max {
        (n, m)
    } else {
        (m, n)
    };
    let ghost nv = n.vars@;
    let ghost mv = m.vars@;
    let num_output_bits: usize = number_bitlength(n.max + m.max);
    let num_output_bits: usize = if max_bitlength <= num_output_bits {
        max_bitlength
    } else {
        num_output_bits
    };
    let mut sum_bits: Vec<usize> = fresh_vars(num_output_bits, var_name_generator);
    // the number of carry bits is equal to the bitlength of the longer number
    let carry_bits: Vec<usize> = fresh_vars(n.bit_length, var_name_generator);
    let ghost sv = sum_bits@;
    let ghost cv = carry_bits@;
    let mut assertions: Clauses = Clauses::new();

    assert(valid_var(nv[0] as int) && valid_var(mv[0] as int));
    // we encode the first sum bit and the first carry bit
    add_half_adder(&mut assertions, sum_bits[0], carry_bits[0], n.vars[0], m.vars[0]);
    assert(assertions@ =~= adder_clauses(sv, nv, mv, cv, 1));

    let mut i: usize = 1;
    while i < num_output_bits
        invariant
            n.wf(),
            m.wf(),
            nv == n.vars@,
            mv == m.vars@,
            1 <= m.bit_length <= n.bit_length,
            num_output_bits <= n.bit_length + 1,
            sv.len() == num_output_bits,
            all_valid(sv),
            all_valid(cv),
            cv == carry_bits@,
            cv.len() == n.bit_length,
            sum_bits.len() == num_output_bits,
            1 <= i <= num_output_bits,
            forall|j: int| 0 <= j < num_output_bits ==> #[trigger] sum_bits@[j] == if j >= nv.len() && j < i {
                cv[j - 1]
            } else {
                sv[j]
            },
            assertions.wf(),
            assertions@ == adder_clauses(sv, nv, mv, cv, i as int),
        decreases num_output_bits - i,
    {
        // remember that w.l.o.g. n >= m
        if i < m.bit_length {
            assert(valid_var(sv[i as int] as int) && valid_var(cv[i as int] as int) && valid_var(cv[i - 1] as int));
            assert(valid_var(nv[i as int] as int) && valid_var(mv[i as int] as int));
            add_full_adder(&mut assertions, sum_bits[i], carry_bits[i], n.vars[i], m.vars[i], carry_bits[i - 1]);
        } else if i < n.bit_length {
            // in this case, we only need to focus on adding n to the carry bits
            assert(valid_var(sv[i as int] as int) && valid_var(cv[i as int] as int) && valid_var(cv[i - 1] as int));
            assert(valid_var(nv[i as int] as int));
            add_half_adder(&mut assertions, sum_bits[i], carry_bits[i], n.vars[i], carry_bits[i - 1]);
            assert(assertions@ =~= adder_clauses(sv, nv, mv, cv, i + 1));
        } else {
            // this is the case if the result is one bit longer than n, here we need to calculate the last bit
            // in this case, the last bit is equal to the previous carry bit
            sum_bits.set(i, carry_bits[i - 1]);
            assert(assertions@ =~= adder_clauses(sv, nv, mv, cv, i + 1));
        }
        i = i + 1;
    }
    let bit_length = sum_bits.len();
    // lastly, make sure that you don't cause an overflow
    if carry_bits.len() == bit_length {
        assert(valid_var(cv[bit_length - 1] as int));
        let l = lit_neg(carry_bits[bit_length - 1]);
        let c = Clause { vars: vec![l] };
        assert(c.vars@ =~= unit(neg(cv[bit_length - 1])));
        assertions.add_clause(c);
    }
    proof {
        lemma_one_shl(max_bitlength);
        lemma_pow2_pos(max_bitlength as nat);
        assert(sum_bits@ =~= sum_out_vars(nv, sv, cv));
        assert forall|j: int| 0 <= j < sum_bits@.len() implies valid_var(#[trigger] sum_bits@[j] as int) by {
            if j >= nv.len() {
                assert(sum_bits@[j] == cv[j - 1]);
            } else {
                assert(sum_bits@[j] == sv[j]);
            }
        }
    }
    let limit = (1usize << max_bitlength) - 1;
    let total = n.max + m.max;
    let max = if total <= limit {
        total
    } else {
        limit
    };
    (BinaryNumber { vars: sum_bits, max, bit_length }, assertions)
}

/// A truth value as 0 or 1.
pub open spec fn b2i(b: bool) -> int {
    if b {
        1
    } else {
        0
    }
}

/// The clauses of a half adder make its sum bit and carry add up to its two inputs:
/// `s + 2 * c == x + y`.
proof fn lemma_half_adder_sat(a: spec_fn(int) -> bool, s: usize, c: usize, x: usize, y: usize)
    requires
        valid_var(s as int),
        valid_var(c as int),
        valid_var(x as int),
        valid_var(y as int),
        all_sat(a, half_sum(s, x, y) + half_carry(c, x, y)),
    ensures
        b2i(a(s as int)) + 2 * b2i(a(c as int)) == b2i(a(x as int)) + b2i(a(y as int)),
{
    let cs = half_sum(s, x, y) + half_carry(c, x, y);
    lemma_pos_neg(a, s);
    lemma_pos_neg(a, c);
    lemma_pos_neg(a, x);
    lemma_pos_neg(a, y);
    assert(clause_sat(a, cs[0]));
    assert(clause_sat(a, cs[1]));
    assert(clause_sat(a, cs[2]));
    assert(clause_sat(a, cs[3]));
    assert(clause_sat(a, cs[4]));
    assert(clause_sat(a, cs[5]));
    assert(clause_sat(a, cs[6]));
}

/// The clauses of a full adder make its sum bit and carry add up to its three inputs:
/// `s + 2 * co == x + y + c`.
proof fn lemma_full_adder_sat(a: spec_fn(int) -> bool, s: usize, co: usize, x: usize, y: usize, c: usize)
    requires
        valid_var(s as int),
        valid_var(co as int),
        valid_var(x as int),
        valid_var(y as int),
        valid_var(c as int),
        all_sat(a, full_sum(s, x, y, c) + full_carry(co, x, y, c)),
    ensures
        b2i(a(s as int)) + 2 * b2i(a(co as int)) == b2i(a(x as int)) + b2i(a(y as int)) + b2i(a(c as int)),
{
    let cs = full_sum(s, x, y, c) + full_carry(co, x, y, c);
    lemma_pos_neg(a, s);
    lemma_pos_neg(a, co);
    lemma_pos_neg(a, x);
    lemma_pos_neg(a, y);
    lemma_pos_neg(a, c);
    assert(clause_sat(a, cs[0]));
    assert(clause_sat(a, cs[1]));
    assert(clause_sat(a, cs[2]));
    assert(clause_sat(a, cs[3]));
    assert(clause_sat(a, cs[4]));
    assert(clause_sat(a, cs[5]));
    assert(clause_sat(a, cs[6]));
    assert(clause_sat(a, cs[7]));
    assert(clause_sat(a, cs[8]));
    assert(clause_sat(a, cs[9]));
    assert(clause_sat(a, cs[10]));
    assert(clause_sat(a, cs[11]));
    assert(clause_sat(a, cs[12]));
    assert(clause_sat(a, cs[13]));
}

/// The bits of `mv` under `a`, read to `k` places with zeros past its end.
pub open spec fn ext_bits(a: spec_fn(int) -> bool, mv: Seq<usize>, k: int) -> Seq<bool> {
    Seq::new(k as nat, |i: int| i < mv.len() && a(mv[i] as int))
}

/// One more bit adds its place value.
proof fn lemma_val_take_step(b: Seq<bool>, k: int)
    requires
        1 <= k <= b.len(),
    ensures
        val(b.take(k)) == val(b.take(k - 1)) + pow2((k - 1) as nat) * b2i(b[k - 1]),
{
    assert(b.take(k).drop_last() =~= b.take(k - 1));
}

/// The bits of the sum up to place `k`, with the carry out of place `k - 1` at place `k`,
/// are worth the bits of the two operands up to place `k`.
proof fn lemma_adder_prefix(a: spec_fn(int) -> bool, sv: Seq<usize>, nv: Seq<usize>, mv: Seq<usize>, cv: Seq<usize>, k: int)
    requires
        1 <= mv.len() <= nv.len(),
        1 <= k <= nv.len(),
        k <= sv.len(),
        cv.len() == nv.len(),
        all_valid(sv),
        all_valid(nv),
        all_valid(mv),
        all_valid(cv),
        all_sat(a, adder_clauses(sv, nv, mv, cv, k)),
    ensures
        val(bits_of(a, sv).take(k)) + pow2(k as nat) * b2i(a(cv[k - 1] as int)) == val(bits_of(a, nv).take(k)) + val(ext_bits(a, mv, k)),
    decreases k,
{
    let sb = bits_of(a, sv);
    let nb = bits_of(a, nv);
    let mb = ext_bits(a, mv, k);
    lemma_val_take_step(sb, k);
    lemma_val_take_step(nb, k);
    let mb_prev = ext_bits(a, mv, k - 1);
    assert(mb.drop_last() =~= mb_prev);
    lemma_pow2_unfold(k as nat);
    let p = pow2((k - 1) as nat);
    if k == 1 {
        lemma_half_adder_sat(a, sv[0], cv[0], nv[0], mv[0]);
        assert(sb.take(0) =~= Seq::<bool>::empty());
        assert(nb.take(0) =~= Seq::<bool>::empty());
        assert(mb_prev =~= Seq::<bool>::empty());
        assert(p == 1) by {
            lemma2_to64();
        }
    } else {
        let i = k - 1;
        lemma_all_sat_append(a, adder_clauses(sv, nv, mv, cv, i), adder_step(sv, nv, mv, cv, i));
        lemma_adder_prefix(a, sv, nv, mv, cv, i);
        let s_i = b2i(a(sv[i] as int));
        let c_i = b2i(a(cv[i] as int));
        let c_p = b2i(a(cv[i - 1] as int));
        let n_i = b2i(a(nv[i] as int));
        let m_i = b2i(mb[i]);
        if i < mv.len() {
            lemma_full_adder_sat(a, sv[i], cv[i], nv[i], mv[i], cv[i - 1]);
        } else {
            lemma_half_adder_sat(a, sv[i], cv[i], nv[i], cv[i - 1]);
        }
        assert(s_i + 2 * c_i == n_i + m_i + c_p);
        let vs = val(sb.take(i));
        let vn = val(nb.take(i));
        let vm = val(mb_prev);
        assert(vs + p * c_p == vn + vm);
        assert(p * s_i + (2 * p) * c_i == p * n_i + p * m_i + p * c_p) by (nonlinear_arith)
            requires
                s_i + 2 * c_i == n_i + m_i + c_p,
        ;
        assert(val(mb) == vm + p * m_i) by {
            if mb.last() {
            } else {
            }
        }
    }
}

/// The sum that `bounded_sum_encoding` encodes: under every assignment that satisfies its
/// clauses, where the output has at least as many bits as the longer operand, the output
/// is worth the two operands together.
pub proof fn lemma_bounded_sum(a: spec_fn(int) -> bool, nv: Seq<usize>, mv: Seq<usize>, sv: Seq<usize>, cv: Seq<usize>)
    requires
        1 <= mv.len() <= nv.len(),
        cv.len() == nv.len(),
        nv.len() <= sv.len() <= nv.len() + 1,
        all_valid(sv),
        all_valid(nv),
        all_valid(mv),
        all_valid(cv),
        all_sat(a, spec_bounded_sum(nv, mv, sv, cv)),
    ensures
        value(a, sum_out_vars(nv, sv, cv)) == value(a, nv) + value(a, mv),
{
    let n = nv.len() as int;
    let body = adder_clauses(sv, nv, mv, cv, sv.len() as int);
    if cv.len() == sv.len() {
        lemma_all_sat_push(a, body, unit(neg(cv[sv.len() - 1])));
    }
    assert(all_sat(a, body));
    if sv.len() == n + 1 {
        lemma_all_sat_append(a, adder_clauses(sv, nv, mv, cv, n), adder_step(sv, nv, mv, cv, n));
    }
    lemma_adder_prefix(a, sv, nv, mv, cv, n);
    let sb = bits_of(a, sv);
    let ob = bits_of(a, sum_out_vars(nv, sv, cv));
    let c = a(cv[n - 1] as int);
    if sv.len() == n + 1 {
        assert(ob =~= sb.take(n).push(c));
        assert(ob.drop_last() =~= sb.take(n));
        assert(ob.last() == c);
        assert(val(ob) == val(sb.take(n)) + pow2(n as nat) * b2i(c));
    } else {
        assert(clause_sat(a, unit(neg(cv[n - 1]))));
        lemma_pos_neg(a, cv[n - 1]);
        assert(!c);
        assert(ob =~= sb.take(n));
    }
    assert(bits_of(a, nv).take(n) =~= bits_of(a, nv));
    // the second operand read past its end
    let mb = bits_of(a, mv);
    let zeros = Seq::new((n - mv.len()) as nat, |i: int| false);
    assert(ext_bits(a, mv, n) =~= mb + zeros);
    lemma_val_append(mb, zeros);
    lemma_val_zero(zeros);
    assert(val(zeros) == 0);
    assert(pow2(mb.len()) * val(zeros) == 0) by (nonlinear_arith)
        requires
            val(zeros) == 0,
    ;
    assert(val(mb + zeros) == val(mb));
    assert(val(ext_bits(a, mv, n)) == val(mb));
    assert(val(ob) == val(bits_of(a, nv)) + val(mb));
}

/// The carry out of place `i` when `nv` and `mv` (zeros past its end) are added under `a`.
pub open spec fn carry_bit(a: spec_fn(int) -> bool, nv: Seq<usize>, mv: Seq<usize>, i: int) -> bool
    decreases i,
{
    let x = a(nv[i] as int);
    let y = i < mv.len() && a(mv[i] as int);
    if i <= 0 {
        x && y
    } else {
        let c = carry_bit(a, nv, mv, i - 1);
        (x && y) || (x && c) || (y && c)
    }
}

/// The sum bit at place `i` when `nv` and `mv` are added under `a`.
pub open spec fn sum_bit(a: spec_fn(int) -> bool, nv: Seq<usize>, mv: Seq<usize>, i: int) -> bool {
    let x = a(nv[i] as int);
    let y = i < mv.len() && a(mv[i] as int);
    let c = i > 0 && carry_bit(a, nv, mv, i - 1);
    (x != y) != c
}

/// `a`, with the sum bits on the variables from `start` and the carries on the `nv.len()`
/// variables after the `out` sum variables.
pub open spec fn adder_model(a: spec_fn(int) -> bool, nv: Seq<usize>, mv: Seq<usize>, start: int, out: int) -> spec_fn(int) -> bool {
    |v: int| if start <= v < start + out {
        sum_bit(a, nv, mv, v - start)
    } else if start + out <= v < start + out + nv.len() {
        carry_bit(a, nv, mv, v - start - out)
    } else {
        a(v)
    }
}

/// A half adder whose sum is the exclusive or, and whose carry the conjunction, of its
/// inputs satisfies its clauses.
proof fn lemma_half_adder_holds(a: spec_fn(int) -> bool, s: usize, c: usize, x: usize, y: usize)
    requires
        valid_var(s as int),
        valid_var(c as int),
        valid_var(x as int),
        valid_var(y as int),
        a(s as int) == (a(x as int) != a(y as int)),
        a(c as int) == (a(x as int) && a(y as int)),
    ensures
        all_sat(a, half_sum(s, x, y) + half_carry(c, x, y)),
{
    let cs = half_sum(s, x, y) + half_carry(c, x, y);
    lemma_pos_neg(a, s);
    lemma_pos_neg(a, c);
    lemma_pos_neg(a, x);
    lemma_pos_neg(a, y);
    assert forall|j: int| 0 <= j < cs.len() implies clause_sat(a, #[trigger] cs[j]) by {
        let cl = cs[j];
        if cl.len() == 2 {
            assert(lit_true(a, cl[0]) || lit_true(a, cl[1]));
        } else {
            assert(lit_true(a, cl[0]) || lit_true(a, cl[1]) || lit_true(a, cl[2]));
        }
    }
}

/// A full adder whose sum is the parity, and whose carry the majority, of its inputs
/// satisfies its clauses.
proof fn lemma_full_adder_holds(a: spec_fn(int) -> bool, s: usize, co: usize, x: usize, y: usize, c: usize)
    requires
        valid_var(s as int),
        valid_var(co as int),
        valid_var(x as int),
        valid_var(y as int),
        valid_var(c as int),
        a(s as int) == ((a(x as int) != a(y as int)) != a(c as int)),
        a(co as int) == ((a(x as int) && a(y as int)) || (a(x as int) && a(c as int)) || (a(y as int) && a(c as int))),
    ensures
        all_sat(a, full_sum(s, x, y, c) + full_carry(co, x, y, c)),
{
    let cs = full_sum(s, x, y, c) + full_carry(co, x, y, c);
    lemma_pos_neg(a, s);
    lemma_pos_neg(a, co);
    lemma_pos_neg(a, x);
    lemma_pos_neg(a, y);
    lemma_pos_neg(a, c);
    assert forall|j: int| 0 <= j < cs.len() implies clause_sat(a, #[trigger] cs[j]) by {
        let cl = cs[j];
        if cl.len() == 3 {
            assert(lit_true(a, cl[0]) || lit_true(a, cl[1]) || lit_true(a, cl[2]));
        } else {
            assert(lit_true(a, cl[0]) || lit_true(a, cl[1]) || lit_true(a, cl[2]) || lit_true(a, cl[3]));
        }
    }
}

/// The operands' variables lie below `start`, and the fresh variables from `start` on fit in
/// a literal.
pub open spec fn adder_layout(nv: Seq<usize>, mv: Seq<usize>, start: int, out: int) -> bool {
    &&& 1 <= mv.len() <= nv.len()
    &&& nv.len() <= out <= nv.len() + 1
    &&& all_valid(nv)
    &&& all_valid(mv)
    &&& forall|i: int| 0 <= i < nv.len() ==> #[trigger] nv[i] < start
    &&& forall|i: int| 0 <= i < mv.len() ==> #[trigger] mv[i] < start
    &&& 1 <= start
    &&& start + out + nv.len() <= i32::MAX + 1
}

/// The adder model satisfies the adder clauses of the output places below `hi`.
proof fn lemma_adder_model_clauses(a: spec_fn(int) -> bool, nv: Seq<usize>, mv: Seq<usize>, start: int, out: int, hi: int)
    requires
        adder_layout(nv, mv, start, out),
        1 <= hi <= out,
    ensures
        all_sat(adder_model(a, nv, mv, start, out), adder_clauses(fresh_range(start, out as nat), nv, mv,
            fresh_range(start + out, nv.len()), hi)),
    decreases hi,
{
    let b = adder_model(a, nv, mv, start, out);
    let sv = fresh_range(start, out as nat);
    let cv = fresh_range(start + out, nv.len());
    let i = hi - 1;
    if hi == 1 {
        assert(b(nv[0] as int) == a(nv[0] as int));
        assert(b(mv[0] as int) == a(mv[0] as int));
        lemma_half_adder_holds(b, sv[0], cv[0], nv[0], mv[0]);
    } else {
        lemma_adder_model_clauses(a, nv, mv, start, out, hi - 1);
        lemma_all_sat_append(b, adder_clauses(sv, nv, mv, cv, i), adder_step(sv, nv, mv, cv, i));
        if i < mv.len() {
            assert(b(nv[i] as int) == a(nv[i] as int));
            assert(b(mv[i] as int) == a(mv[i] as int));
            lemma_full_adder_holds(b, sv[i], cv[i], nv[i], mv[i], cv[i - 1]);
        } else if i < nv.len() {
            assert(b(nv[i] as int) == a(nv[i] as int));
            lemma_half_adder_holds(b, sv[i], cv[i], nv[i], cv[i - 1]);
        } else {
            assert(adder_step(sv, nv, mv, cv, i) =~= Seq::<Seq<i32>>::empty());
        }
    }
}

/// Every pair of operand values whose sum fits the output has a model of the clauses of
/// `bounded_sum_encoding`: the sum bits and the carries of the addition, the operands left
/// as they are.
pub proof fn lemma_bounded_sum_model(a: spec_fn(int) -> bool, nv: Seq<usize>, mv: Seq<usize>, start: int, out: int)
    requires
        adder_layout(nv, mv, start, out),
        out == nv.len() ==> value(a, nv) + value(a, mv) < pow2(nv.len()),
    ensures
        all_sat(adder_model(a, nv, mv, start, out), spec_bounded_sum(nv, mv, fresh_range(start, out as nat),
            fresh_range(start + out, nv.len()))),
        forall|v: int| v < start ==> #[trigger] adder_model(a, nv, mv, start, out)(v) == a(v),
{
    let b = adder_model(a, nv, mv, start, out);
    let sv = fresh_range(start, out as nat);
    let cv = fresh_range(start + out, nv.len());
    let n = nv.len() as int;
    lemma_adder_model_clauses(a, nv, mv, start, out, out);
    let body = adder_clauses(sv, nv, mv, cv, out);
    if cv.len() == sv.len() {
        // the carry out of the top place is 0 when the sum fits
        assert forall|i: int| 0 <= i < sv.len() implies valid_var(#[trigger] sv[i] as int) by {
        }
        assert forall|i: int| 0 <= i < cv.len() implies valid_var(#[trigger] cv[i] as int) by {
        }
        lemma_adder_prefix(b, sv, nv, mv, cv, n);
        assert(bits_of(b, nv) =~= bits_of(a, nv));
        assert(ext_bits(b, mv, n) =~= ext_bits(a, mv, n));
        assert(bits_of(b, nv).take(n) =~= bits_of(b, nv));
        let mb = bits_of(a, mv);
        let zeros = Seq::new((n - mv.len()) as nat, |i: int| false);
        assert(ext_bits(a, mv, n) =~= mb + zeros);
        lemma_val_append(mb, zeros);
        lemma_val_zero(zeros);
        assert(pow2(mb.len()) * val(zeros) == 0) by (nonlinear_arith)
            requires
                val(zeros) == 0,
        ;
        lemma_val_bound(bits_of(b, sv).take(n));
        lemma_val_bound(bits_of(b, sv).take(n));
        let top = b(cv[n - 1] as int);
        if top {
            assert(pow2(n as nat) * b2i(top) == pow2(n as nat));
        }
        lemma_pos_neg(b, cv[n - 1]);
        assert(lit_true(b, unit(neg(cv[n - 1]))[0]));
        lemma_all_sat_push(b, body, unit(neg(cv[n - 1])));
    }
}

} // verus!
