//! The bit array behind the Bloom filter, kept in a `bitvec::vec::BitVec`.
use bitvec::vec::BitVec;
use vstd::prelude::*;

verus! {

/// A fixed-length array of bits, stored in a `BitVec`; Verus sees it only
/// through `bits_of` and the functions below.
#[verifier::external_body]
pub struct BitArray {
    bits: BitVec,
}

/// The largest number of bits a `BitVec` can hold (`BitSlice::MAX_BITS`).
pub const MAX_BITS: usize = usize::MAX / 8;

/// The bits an array holds, in index order.
pub uninterp spec fn bits_of(b: BitArray) -> Seq<bool>;

/// Number of `true` entries in `s`.
pub open spec fn count_true(s: Seq<bool>) -> nat
    decreases s.len(),
{
    if s.len() == 0 {
        0
    } else {
        count_true(s.drop_last()) + if s.last() {
            1nat
        } else {
            0nat
        }
    }
}

/// Relies on `BitVec::repeat`: a vector of `len` copies of `bit`
/// (it panics above `BitSlice::MAX_BITS`).
#[verifier::external_body]
pub(crate) fn bits_repeat(bit: bool, len: usize) -> (r: BitArray)
    requires
        len <= MAX_BITS,
    ensures
        bits_of(r) == Seq::new(len as nat, |_i: int| bit),
{
    BitArray { bits: BitVec::repeat(bit, len) }
}

/// Relies on `BitSlice::set`: writes `value` at `index` and leaves the other
/// bits alone (it panics out of bounds).
#[verifier::external_body]
pub(crate) fn bits_set(b: &mut BitArray, index: usize, value: bool)
    requires
        index < bits_of(*old(b)).len(),
    ensures
        bits_of(*final(b)) == bits_of(*old(b)).update(index as int, value),
{
    b.bits.set(index, value)
}

/// Relies on `BitSlice`'s `Index<usize>`: the bit at `index` (it panics out
/// of bounds).
#[verifier::external_body]
pub(crate) fn bits_get(b: &BitArray, index: usize) -> (r: bool)
    requires
        index < bits_of(*b).len(),
    ensures
        r == bits_of(*b)[index as int],
{
    b.bits[index]
}

/// Relies on `BitSlice::count_ones`: the number of bits set to `1`.
#[verifier::external_body]
pub(crate) fn bits_count_ones(b: &BitArray) -> (r: usize)
    ensures
        r == count_true(bits_of(*b)),
{
    b.bits.count_ones()
}

} // verus!
