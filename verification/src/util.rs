//! Small numeric helpers shared across the library.

use vstd::prelude::*;

verus! {

/// One whole unit in the library's fixed-point encoding: all weights,
/// metric coefficients, probabilities and node values carry three
/// fractional digits.
pub const SCALE: i64 = 1000;

/// Largest magnitude a connection weight may take (one million units).
pub const WEIGHT_LIMIT: i64 = 1_000_000_000;

/// Largest magnitude a distance-metric coefficient or threshold may take.
pub const COEFF_LIMIT: i64 = 1_000_000_000;

/// Largest magnitude a network node value may take (one billion units).
pub const VALUE_LIMIT: i64 = 1_000_000_000_000;

/// Restricts `x` to the closed interval `[min, max]`.
pub open spec fn clamp_spec(min: int, max: int, x: int) -> int {
    if x < min {
        min
    } else if x > max {
        max
    } else {
        x
    }
}

/// Restricts `x` to the closed interval `[min, max]`.
pub fn clamp(min: i64, max: i64, x: i64) -> (r: i64)
    ensures
        r == clamp_spec(min as int, max as int, x as int),
{
    if x < min {
        min
    } else if x > max {
        max
    } else {
        x
    }
}

} // verus!
