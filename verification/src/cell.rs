//! The storage behind a physical vector register cell: a `bit_vec::BitVec`
//! of booleans, indexed least significant bit first. This module is the
//! trusted boundary around that outside crate: the contents of a bit vector
//! are named by an uninterpreted view, and each method the register bank
//! calls is wrapped with a contract stating what the crate's source shows.

use vstd::prelude::*;

use bit_vec::BitVec;

verus! {

#[verifier::external_type_specification]
#[verifier::external_body]
#[verifier::reject_recursive_types(B)]
pub struct ExBitVec<B>(BitVec<B>);

/// What a bit vector holds: its bits, lowest index first.
pub uninterp spec fn bit_vec_view(v: BitVec) -> Seq<bool>;

/// Relies on bit_vec::BitVec::from_elem: a vector of `len` copies of `bit`.
#[verifier::external_body]
pub(crate) fn bitvec_from_elem(len: usize, bit: bool) -> (r: BitVec)
    ensures
        bit_vec_view(r) == Seq::new(len as nat, |i: int| bit),
{
    BitVec::from_elem(len, bit)
}

/// Relies on bit_vec::BitVec::set: overwrites the bit at index `i` in place
/// and touches no other bit; it panics when `i` is out of bounds, which the
/// precondition rules out.
#[verifier::external_body]
pub(crate) fn bitvec_set(v: &mut BitVec, i: usize, x: bool)
    requires
        i < bit_vec_view(*old(v)).len(),
    ensures
        bit_vec_view(*final(v)) == bit_vec_view(*old(v)).update(i as int, x),
{
    v.set(i, x);
}

/// Relies on bit_vec::BitVec::get: returns the bit at index `i`; `Some` is
/// guaranteed because the precondition keeps `i` in bounds.
#[verifier::external_body]
pub(crate) fn bitvec_get(v: &BitVec, i: usize) -> (b: bool)
    requires
        i < bit_vec_view(*v).len(),
    ensures
        b == bit_vec_view(*v)[i as int],
{
    v.get(i).unwrap()
}

/// Relies on bit_vec::BitVec::len: the number of bits held.
#[verifier::external_body]
pub(crate) fn bitvec_len(v: &BitVec) -> (n: usize)
    ensures
        n as nat == bit_vec_view(*v).len(),
{
    v.len()
}

} // verus!
