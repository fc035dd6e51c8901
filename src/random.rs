use vstd::prelude::*;
use rand::rngs::SmallRng;

verus! {

#[verifier::external_type_specification]
#[verifier::external_body]
pub struct ExSmallRng(SmallRng);

/// Relies on rand::Rng::gen_range: a value drawn from `lo..hi`. The call
/// panics on an empty range, which `requires` leaves out.
#[verifier::external_body]
pub(crate) fn gen_range(rng: &mut SmallRng, lo: i32, hi: i32) -> (r: i32)
    requires
        lo < hi,
    ensures
        lo <= r < hi,
{
    rand::Rng::gen_range(rng, lo..hi)
}

} // verus!
