//! Match masks, stored as `bit_vec::BitVec` bit vectors.
//!
//! The verified code sees a mask only through [`bits_of`], the sequence of
//! booleans it holds, and through the small wrappers below.

use vstd::prelude::*;

use bit_vec::BitVec;

verus! {

#[verifier::external_type_specification]
#[verifier::external_body]
#[verifier::reject_recursive_types(B)]
pub struct ExBitVec<B>(BitVec<B>);

/// The bits held by a mask, in order.
pub uninterp spec fn bits_of(m: BitVec) -> Seq<bool>;

/// Relies on `BitVec::from_elem`: the result holds `len` bits, each equal
/// to `bit`.
#[verifier::external_body]
pub(crate) fn mask_from_elem(len: usize, bit: bool) -> (r: BitVec)
    ensures
        bits_of(r) == Seq::new(len as nat, |i: int| bit),
{
    BitVec::from_elem(len, bit)
}

/// Relies on `BitVec::set`: it stores `bit` at index `i` and leaves every
/// other bit alone. `set` panics at or past the length, so the index is
/// required to be in bounds.
#[verifier::external_body]
pub(crate) fn mask_set(m: &mut BitVec, i: usize, bit: bool)
    requires
        i < bits_of(*old(m)).len(),
    ensures
        bits_of(*final(m)) == bits_of(*old(m)).update(i as int, bit),
{
    m.set(i, bit)
}

} // verus!
