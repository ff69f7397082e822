//! The first form of the binary arithmetic: numbers of SAT variables, with the clauses
//! handed back as a list of `Clause`s.
use vstd::prelude::*;
use vstd::arithmetic::power2::{pow2, lemma_pow2_pos};
use crate::encoding::encoder::Clause;
use crate::encoding::encoder::Clauses;
use crate::encoding::encoder::VarNameGenerator;
use crate::encoding::encoder::all_valid;
use crate::encoding::encoder::neg;
use crate::encoding::encoder::valid_var;
use crate::encoding::sat_encoding::binary_arithmetic as current;
use crate::encoding::sat_encoding::binary_arithmetic::add_full_adder;
use crate::encoding::sat_encoding::binary_arithmetic::add_half_adder;
use crate::encoding::sat_encoding::binary_arithmetic::add_half_carry;
use crate::encoding::sat_encoding::binary_arithmetic::add_half_sum;
use crate::encoding::sat_encoding::binary_arithmetic::eq_units;
use crate::encoding::sat_encoding::binary_arithmetic::fresh_range;
use crate::encoding::sat_encoding::binary_arithmetic::fresh_vars;
use crate::encoding::sat_encoding::binary_arithmetic::full_carry;
use crate::encoding::sat_encoding::binary_arithmetic::full_sum;
use crate::encoding::sat_encoding::binary_arithmetic::half_carry;
use crate::encoding::sat_encoding::binary_arithmetic::half_sum;
use crate::encoding::sat_encoding::binary_arithmetic::lemma_one_shl;
use crate::encoding::sat_encoding::binary_arithmetic::lit_neg;
use crate::encoding::sat_encoding::binary_arithmetic::ne_lits;
use crate::encoding::sat_encoding::binary_arithmetic::spec_at_most_k;
use crate::encoding::sat_encoding::binary_arithmetic::spec_bitlength;
use crate::encoding::sat_encoding::binary_arithmetic::spec_min;
use crate::encoding::sat_encoding::binary_arithmetic::spec_to_binary;
use crate::encoding::sat_encoding::binary_arithmetic::sum_out_vars;
use crate::encoding::sat_encoding::binary_arithmetic::unit;

verus! {

#[derive(Debug)]
pub struct BinaryNumber {
    /// the sat variable representation of a number
    pub vars: Vec<usize>,
    /// max is inclusive. The represented number can be == max
    pub max: usize,
    /// the number of bits used to represent this number
    pub bit_length: usize,
}

/// The literal lists of a list of clauses.
pub open spec fn clause_list(cs: Seq<Clause>) -> Seq<Seq<i32>> {
    Seq::new(cs.len(), |i: int| cs[i].vars@)
}

impl BinaryNumber {
    /// Well formed: one valid variable per bit.
    pub open spec fn wf(&self) -> bool {
        &&& self.vars.len() == self.bit_length
        &&& all_valid(self.vars@)
    }

    /// `bit_length(max)` fresh variables from the generator.
    pub fn new(max: usize, name_generator: &mut VarNameGenerator) -> (n: BinaryNumber)
        requires
            max <= usize::MAX / 2,
            old(name_generator).spec_peek() + spec_bitlength(max as nat) <= i32::MAX + 1,
            old(name_generator).spec_peek() >= 1,
        ensures
            n.wf(),
            n.max == max,
            n.bit_length == spec_bitlength(max as nat),
            n.vars@ == Seq::new(n.bit_length as nat, |i: int| (old(name_generator).spec_peek() + i) as usize),
            final(name_generator).spec_peek() == old(name_generator).spec_peek() + n.bit_length,
    {
        let b = current::BinaryNumber::new(max, name_generator);
        BinaryNumber { vars: b.vars, max: b.max, bit_length: b.bit_length }
    }

    /// The same number in the current form.
    fn to_current(&self) -> (b: current::BinaryNumber)
        ensures
            b.vars@ == self.vars@,
            b.max == self.max,
            b.bit_length == self.bit_length,
    {
        current::BinaryNumber { vars: self.vars.clone(), max: self.max, bit_length: self.bit_length }
    }
}

/// The clauses of a clause set, as a list.
fn listed(c: &Clauses) -> (out: Vec<Clause>)
    ensures
        clause_list(out@) == c@,
{
    let out = c.unflatten();
    assert(clause_list(out@) =~= c@);
    out
}

/// The number of bits of `k`: 1 for 0, else the position of its highest set bit plus 1.
pub fn number_bitlength(k: usize) -> (r: usize)
    requires
        k <= usize::MAX / 2,
    ensures
        r == spec_bitlength(k as nat),
        1 <= r < usize::BITS,
{
    current::number_bitlength(k)
}

/// The bits of `k`, lowest first, `number_bitlength(k)` of them.
pub fn to_binary(k: usize) -> (result: Vec<bool>)
    requires
        k <= usize::MAX / 2,
    ensures
        result@ == spec_to_binary(k as nat),
{
    current::to_binary(k)
}

/// Clauses that hold exactly when the number `n` is at most `k`.
pub fn at_most_k_encoding(n: &BinaryNumber, k: usize) -> (output: Vec<Clause>)
    requires
        n.wf(),
        k <= usize::MAX / 2,
    ensures
        clause_list(output@) == spec_at_most_k(n.vars@, k as nat),
{
    let c = current::at_most_k_encoding(&n.to_current(), k);
    listed(&c)
}

/// One unit clause per bit of `n`, fixing `n` to `k`.
pub fn equals_constant_encoding(n: &BinaryNumber, k: usize) -> (clauses: Vec<Clause>)
    requires
        n.wf(),
        k <= usize::MAX / 2,
        spec_bitlength(k as nat) <= n.bit_length,
    ensures
        clause_list(clauses@) == eq_units(n.vars@, k as nat),
{
    let c = current::_equals_constant_encoding(&n.to_current(), k);
    listed(&c)
}

/// The clause "`n` is not `k`".
pub fn not_equals_constant_encoding(n: &BinaryNumber, k: usize) -> (c: Clause)
    requires
        n.wf(),
        k <= usize::MAX / 2,
        spec_bitlength(k as nat) <= n.bit_length,
    ensures
        c.vars@ == ne_lits(n.vars@, k as nat),
{
    current::not_equals_constant_encoding(&n.to_current(), k)
}

/// The clauses for output bit `i >= 1`: a full adder while both operands have bits; past
/// the shorter one, the sum bit is tied to `n`'s bit and the carry out of this bit, and
/// the carry to `n`'s bit and the carry into it.
pub open spec fn first_adder_step(sv: Seq<usize>, nv: Seq<usize>, mv: Seq<usize>, cv: Seq<usize>, i: int) -> Seq<Seq<i32>> {
    if i < mv.len() {
        full_sum(sv[i], nv[i], mv[i], cv[i - 1]) + full_carry(cv[i], nv[i], mv[i], cv[i - 1])
    } else if i < nv.len() {
        half_sum(sv[i], nv[i], cv[i]) + half_carry(cv[i], nv[i], cv[i - 1])
    } else {
        Seq::empty()
    }
}

/// The adder clauses for the output bits below `hi` (at least bit 0).
pub open spec fn first_adder_clauses(sv: Seq<usize>, nv: Seq<usize>, mv: Seq<usize>, cv: Seq<usize>, hi: int) -> Seq<Seq<i32>>
    decreases hi,
{
    if hi <= 1 {
        half_sum(sv[0], nv[0], mv[0]) + half_carry(cv[0], nv[0], mv[0])
    } else {
        first_adder_clauses(sv, nv, mv, cv, hi - 1) + first_adder_step(sv, nv, mv, cv, hi - 1)
    }
}

/// The clauses of `bounded_sum_encoding`: the adder, and, when there are as many carries
/// as `max_bitlength`, the unit clause that the last carry is false.
pub open spec fn first_bounded_sum(
    nv: Seq<usize>,
    mv: Seq<usize>,
    sv: Seq<usize>,
    cv: Seq<usize>,
    max_bitlength: int,
) -> Seq<Seq<i32>> {
    let body = first_adder_clauses(sv, nv, mv, cv, sv.len() as int);
    if cv.len() == max_bitlength {
        body.push(unit(neg(cv[max_bitlength - 1])))
    } else {
        body
    }
}

/// The order in which `bounded_sum_encoding` takes its operands: the one with the larger
/// maximum first.
pub open spec fn sum_order(n: BinaryNumber, m: BinaryNumber) -> (BinaryNumber, BinaryNumber) {
    if n.max > m.max {
        (n, m)
    } else {
        (m, n)
    }
}

/// The number of output bits of `bounded_sum_encoding`.
pub open spec fn sum_out_bits(n: BinaryNumber, m: BinaryNumber, max_bitlength: usize) -> int {
    spec_min(max_bitlength as int, spec_bitlength((n.max + m.max) as nat) as int)
}

/// Fresh sum bits and carry bits, the adder clauses over them, and a number whose bits
/// are the sum bits (a bit beyond the longer operand being its last carry) and whose
/// maximum is `n.max + m.max`, capped at `2^max_bitlength - 1`.
pub fn bounded_sum_encoding(
    n: &BinaryNumber,
    m: &BinaryNumber,
    max_bitlength: usize,
    var_name_generator: &mut VarNameGenerator,
) -> (res: (BinaryNumber, Vec<Clause>))
    requires
        n.wf(),
        m.wf(),
        1 <= sum_order(*n, *m).1.bit_length <= sum_order(*n, *m).0.bit_length,
        1 <= max_bitlength < usize::BITS,
        n.max + m.max <= usize::MAX / 2,
        sum_out_bits(*n, *m, max_bitlength) <= sum_order(*n, *m).0.bit_length + 1,
        1 <= old(var_name_generator).spec_peek(),
        old(var_name_generator).spec_peek() + sum_out_bits(*n, *m, max_bitlength) + sum_order(*n, *m).0.bit_length
            <= i32::MAX + 1,
    ensures
        ({
            let (big, small) = sum_order(*n, *m);
            let start = old(var_name_generator).spec_peek() as int;
            let out = sum_out_bits(*n, *m, max_bitlength);
            let sv = fresh_range(start, out as nat);
            let cv = fresh_range(start + out, big.bit_length as nat);
            &&& final(var_name_generator).spec_peek() == start + out + big.bit_length
            &&& clause_list(res.1@) == first_bounded_sum(big.vars@, small.vars@, sv, cv, max_bitlength as int)
            &&& res.0.wf()
            &&& res.0.vars@ == sum_out_vars(big.vars@, sv, cv)
            &&& res.0.bit_length == out
            &&& res.0.max == spec_min(n.max + m.max, pow2(max_bitlength as nat) - 1)
        }),
{
    // w.l.o.g. n >= m
    let (n, m) = if n.max > m.max {
        (n, m)
    } else {
        (m, n)
    };
    let ghost nv = n.vars@;
    let ghost mv = m.vars@;
    let num_output_bits: usize = number_bitlength(n.max + m.max);
    let num_output_bits: usize = if max_bitlength <= num_output_bits {
        max_bitlength
    } else {
        num_output_bits
    };
    let mut sum_bits: Vec<usize> = fresh_vars(num_output_bits, var_name_generator);
    // the number of carry bits is equal to the bitlength of the longer number
    let carry_bits: Vec<usize> = fresh_vars(n.bit_length, var_name_generator);
    let ghost sv = sum_bits@;
    let ghost cv = carry_bits@;
    let mut assertions: Clauses = Clauses::new();

    assert(valid_var(nv[0] as int) && valid_var(mv[0] as int));
    // we encode the first sum bit and the first carry bit
    add_half_adder(&mut assertions, sum_bits[0], carry_bits[0], n.vars[0], m.vars[0]);
    assert(assertions@ =~= first_adder_clauses(sv, nv, mv, cv, 1));

    let mut i: usize = 1;
    while i < num_output_bits
        invariant
            n.wf(),
            m.wf(),
            nv == n.vars@,
            mv == m.vars@,
            1 <= m.bit_length <= n.bit_length,
            num_output_bits <= n.bit_length + 1,
            sv.len() == num_output_bits,
            all_valid(sv),
            all_valid(cv),
            cv == carry_bits@,
            cv.len() == n.bit_length,
            sum_bits.len() == num_output_bits,
            1 <= i <= num_output_bits,
            forall|j: int| 0 <= j < num_output_bits ==> #[trigger] sum_bits@[j] == if j >= nv.len() && j < i {
                cv[j - 1]
            } else {
                sv[j]
            },
            assertions.wf(),
            assertions@ == first_adder_clauses(sv, nv, mv, cv, i as int),
        decreases num_output_bits - i,
    {
        // remember that w.l.o.g. n >= m
        if i < m.bit_length {
            assert(valid_var(sv[i as int] as int) && valid_var(cv[i as int] as int) && valid_var(cv[i - 1] as int));
            assert(valid_var(nv[i as int] as int) && valid_var(mv[i as int] as int));
            add_full_adder(&mut assertions, sum_bits[i], carry_bits[i], n.vars[i], m.vars[i], carry_bits[i - 1]);
        } else if i < n.bit_length {
            // the sum bit takes n's bit and this bit's own carry
            assert(valid_var(sv[i as int] as int) && valid_var(cv[i as int] as int) && valid_var(cv[i - 1] as int));
            assert(valid_var(nv[i as int] as int));
            add_half_sum(&mut assertions, sum_bits[i], n.vars[i], carry_bits[i]);
            add_half_carry(&mut assertions, carry_bits[i], n.vars[i], carry_bits[i - 1]);
            assert(assertions@ =~= first_adder_clauses(sv, nv, mv, cv, i + 1));
        } else {
            // the bit beyond n is the previous carry
            sum_bits.set(i, carry_bits[i - 1]);
            assert(assertions@ =~= first_adder_clauses(sv, nv, mv, cv, i + 1));
        }
        i = i + 1;
    }
    let bit_length = sum_bits.len();
    // lastly, make sure that you don't cause an overflow
    if carry_bits.len() == max_bitlength {
        assert(valid_var(cv[max_bitlength - 1] as int));
        let l = lit_neg(carry_bits[max_bitlength - 1]);
        let c = Clause { vars: vec![l] };
        assert(c.vars@ =~= unit(neg(cv[max_bitlength - 1])));
        assertions.add_clause(c);
    }
    proof {
        lemma_one_shl(max_bitlength);
        lemma_pow2_pos(max_bitlength as nat);
        assert(sum_bits@ =~= sum_out_vars(nv, sv, cv));
        assert forall|j: int| 0 <= j < sum_bits@.len() implies valid_var(#[trigger] sum_bits@[j] as int) by {
            if j >= nv.len() {
                assert(sum_bits@[j] == cv[j - 1]);
            } else {
                assert(sum_bits@[j] == sv[j]);
            }
        }
    }
    let limit = (1usize << max_bitlength) - 1;
    let total = n.max + m.max;
    let max = if total <= limit {
        total
    } else {
        limit
    };
    (BinaryNumber { vars: sum_bits, max, bit_length }, listed(&assertions))
}

} // verus!
