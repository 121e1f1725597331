use vstd::prelude::*;
use crate::scalar::ONE;

verus! {

/// Relies on `rand::random_range` (rand 0.9): a uniform draw from the
/// half-open range `min..max`, which it requires to be nonempty.
#[verifier::external_body]
pub fn random_double_range(min: i64, max: i64) -> (r: i64)
    requires
        min < max,
    ensures
        min <= r < max,
{
    rand::random_range(min..max)
}

/// A uniform draw in `[0, 1)`, in fixed point.
pub fn random_double() -> (r: i64)
    ensures
        0 <= r < ONE,
{
    random_double_range(0, ONE)
}

} // verus!
