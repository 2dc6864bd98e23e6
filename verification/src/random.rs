//! The random source: `rand`'s standard generator, and the one draw the
//! library makes from it.

use rand::rngs::StdRng;
use rand::Rng;
use vstd::prelude::*;

verus! {

/// `rand::rngs::StdRng`, carried through verified code as an opaque value.
#[verifier::external_type_specification]
#[verifier::external_body]
pub struct ExStdRng(StdRng);

/// Calls `Rng::gen_range` on the inclusive range `low..=high`.
///
/// `gen_range` panics on an empty range, so `low <= high` is required. For
/// `i32` it samples `low.wrapping_add(hi)` with `hi` below the width of the
/// range, so the value lies in the range; nothing else is claimed of it.
#[verifier::external_body]
pub(crate) fn draw_in_range(rng: &mut StdRng, low: i32, high: i32) -> (value: i32)
    requires
        low <= high,
    ensures
        low <= value <= high,
{
    rng.gen_range(low..=high)
}

} // verus!
