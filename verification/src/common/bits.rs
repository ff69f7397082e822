//! A vector of bits from the `bitvec` crate, seen as a sequence of booleans.
use vstd::prelude::*;
use bitvec::vec::BitVec;

verus! {

/// A `bitvec` bit-vector, held opaque.
#[verifier::external_body]
pub struct Bits {
    inner: BitVec,
}

/// The bits that a bit-vector holds, in order.
pub uninterp spec fn bits_view(b: Bits) -> Seq<bool>;

/// Calls `BitVec::repeat(false, len)`: `len` bits, all clear. The crate panics above
/// `usize::MAX >> 3` bits, which the requirement leaves out.
#[verifier::external_body]
pub fn bits_zeros(len: usize) -> (b: Bits)
    requires
        len <= usize::MAX / 8,
    ensures
        bits_view(b) == Seq::new(len as nat, |i: int| false),
{
    Bits { inner: BitVec::repeat(false, len) }
}

/// Calls `BitSlice::set`: writes bit `i` and leaves the others. The crate panics when `i`
/// is out of bounds, which the requirement leaves out.
#[verifier::external_body]
pub fn bits_set(b: &mut Bits, i: usize, value: bool)
    requires
        i < bits_view(*old(b)).len(),
    ensures
        bits_view(*final(b)) == bits_view(*old(b)).update(i as int, value),
{
    b.inner.set(i, value);
}

/// Indexes a bit-vector: bit `i`. The crate panics when `i` is out of bounds, which the
/// requirement leaves out.
#[verifier::external_body]
pub fn bits_get(b: &Bits, i: usize) -> (r: bool)
    requires
        i < bits_view(*b).len(),
    ensures
        r == bits_view(*b)[i as int],
{
    b.inner[i]
}

/// Calls `BitVec::len`: the number of bits.
#[verifier::external_body]
pub fn bits_len(b: &Bits) -> (r: usize)
    ensures
        r == bits_view(*b).len(),
{
    b.inner.len()
}

} // verus!
