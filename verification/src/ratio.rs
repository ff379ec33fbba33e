//! Exact fractions, for the metrics that are quotients of two counts.

use vstd::prelude::*;

verus! {

/// A quotient of two counts, kept exact: the value is `numerator` divided by
/// `denominator`.
#[derive(Clone, Copy, Debug, PartialEq, Eq, Structural)]
pub struct Ratio {
    pub numerator: u128,
    pub denominator: u128,
}

impl Ratio {
    /// The ratio that stands for zero: 0 over 1.
    pub open spec fn spec_zero() -> Ratio {
        Ratio { numerator: 0, denominator: 1 }
    }

    /// The ratio that stands for zero: 0 over 1.
    #[verifier::when_used_as_spec(spec_zero)]
    pub fn zero() -> (r: Ratio)
        ensures
            r == Ratio::spec_zero(),
    {
        Ratio { numerator: 0, denominator: 1 }
    }
}

} // verus!
