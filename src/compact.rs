//! Trusted bindings to the succinct integer containers of `sucds`.

use sucds::int_vectors::CompactVector;
use vstd::arithmetic::power2::pow2;
use vstd::prelude::*;

verus! {

#[verifier::external_type_specification]
#[verifier::external_body]
pub struct ExCompactVector(sucds::int_vectors::CompactVector);

/// The integers held by a compact vector, in order.
pub uninterp spec fn cv_ints(v: CompactVector) -> Seq<usize>;

/// The number of bits a compact vector stores each integer in.
pub uninterp spec fn cv_width(v: CompactVector) -> nat;

/// Whether `x` can be stored in `w` bits.
pub open spec fn fits_in(x: usize, w: nat) -> bool {
    w >= 64 || (x as int) < pow2(w) as int
}

/// Relies on sucds::utils::needed_bits: the bit length of `x` (one for zero).
#[verifier::external_body]
pub(crate) fn needed_bits(x: usize) -> (r: usize)
    ensures
        1 <= r <= 64,
        fits_in(x, r as nat),
        r == 1 || pow2((r - 1) as nat) <= x,
{
    sucds::utils::needed_bits(x)
}

/// Relies on sucds's CompactVector::new: an empty vector of the given width,
/// refused unless the width lies in 1..=64.
#[verifier::external_body]
pub(crate) fn cv_new(width: usize) -> (r: Option<CompactVector>)
    ensures
        r.is_some() <==> 1 <= width <= 64,
        r is Some ==> cv_ints(r->Some_0) == Seq::<usize>::empty() && cv_width(r->Some_0) == width,
{
    CompactVector::new(width).ok()
}

/// Relies on sucds's CompactVector::push_int: appends `x` when it fits in the
/// vector's width, and leaves the vector as it was otherwise.
#[verifier::external_body]
pub(crate) fn cv_push(v: &mut CompactVector, x: usize) -> (r: bool)
    ensures
        r == fits_in(x, cv_width(*old(v))),
        cv_width(*final(v)) == cv_width(*old(v)),
        r ==> cv_ints(*final(v)) == cv_ints(*old(v)).push(x),
        !r ==> cv_ints(*final(v)) == cv_ints(*old(v)),
{
    v.push_int(x).is_ok()
}

} // verus!
