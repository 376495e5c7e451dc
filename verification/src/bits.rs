//! Bit storage, backed by the bit-vec crate.
//!
//! A filter's bit array is a `bit_vec::BitVec`, created once at
//! construction and mutated only bit by bit. Verified code sees the
//! array through [`bits_of`], the sequence of booleans it holds.
use vstd::prelude::*;

verus! {

#[verifier::external_type_specification]
#[verifier::external_body]
#[verifier::reject_recursive_types(B)]
pub struct ExBitVec<B>(bit_vec::BitVec<B>);

/// The bits a `BitVec` holds, as a sequence of booleans.
pub uninterp spec fn bits_of(v: bit_vec::BitVec) -> Seq<bool>;

/// Relies on bit_vec::BitVec::from_elem: a fresh vector of `nbits` bits,
/// every one set to `bit`.
#[verifier::external_body]
pub(crate) fn bv_from_elem(nbits: usize, bit: bool) -> (r: bit_vec::BitVec)
    ensures
        bits_of(r) == Seq::new(nbits as nat, |i: int| bit),
{
    bit_vec::BitVec::from_elem(nbits, bit)
}

/// Relies on bit_vec::BitVec::set: writes the bit at index `i`. The
/// crate asserts `i` is in range; the precondition rules the panic out.
#[verifier::external_body]
pub(crate) fn bv_set(v: &mut bit_vec::BitVec, i: usize, x: bool)
    requires
        i < bits_of(*old(v)).len(),
    ensures
        bits_of(*final(v)) == bits_of(*old(v)).update(i as int, x),
{
    v.set(i, x)
}

/// Relies on bit_vec::BitVec::get: `None` when `i` is out of range,
/// otherwise the bit at index `i`.
#[verifier::external_body]
pub(crate) fn bv_get(v: &bit_vec::BitVec, i: usize) -> (r: Option<bool>)
    ensures
        r == if i < bits_of(*v).len() {
            Some(bits_of(*v)[i as int])
        } else {
            None::<bool>
        },
{
    v.get(i)
}

/// Relies on bit_vec::BitVec::len: the total number of bits held.
#[verifier::external_body]
pub(crate) fn bv_len(v: &bit_vec::BitVec) -> (r: usize)
    ensures
        r == bits_of(*v).len(),
{
    v.len()
}

} // verus!
