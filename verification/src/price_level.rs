//! Exact fixed-point prices.
//!
//! A price is a pair of integral units and hundredths, never a raw float:
//! splitting the two parts gives a total, reproducible order and equality,
//! where floating-point comparison would not. Quantizing a finer-grained
//! submission down to hundredths is the caller's job; a `PriceLevel` itself
//! is immutable once constructed.

use vstd::prelude::*;

verus! {

/// A price as (integral units, hundredths). Ordering is lexicographic:
/// integral part first, then hundredths.
#[derive(Debug, Clone, Copy, PartialEq, Eq, Structural)]
pub struct PriceLevel {
    pub integral: u64,
    pub decimal: u64,
}

impl PriceLevel {
    /// A price is well formed when its fractional part is a count of
    /// hundredths, i.e. below one whole unit.
    pub open spec fn wf(self) -> bool {
        self.decimal < 100
    }

    /// Strict lexicographic order: integral part first, then hundredths.
    pub open spec fn spec_lt(self, other: PriceLevel) -> bool {
        self.integral < other.integral
            || (self.integral == other.integral && self.decimal < other.decimal)
    }

    /// Non-strict companion of [`PriceLevel::spec_lt`].
    pub open spec fn spec_le(self, other: PriceLevel) -> bool {
        self.spec_lt(other) || self == other
    }

    /// Builds the price `integral.decimal`, with `decimal` in hundredths.
    pub fn new(integral: u64, decimal: u64) -> (r: PriceLevel)
        requires
            decimal < 100,
        ensures
            r == (PriceLevel { integral, decimal }),
            r.wf(),
    {
        PriceLevel { integral, decimal }
    }

    /// Decides the strict order between two prices.
    pub fn lt(&self, other: &PriceLevel) -> (r: bool)
        ensures
            r == self.spec_lt(*other),
    {
        self.integral < other.integral
            || (self.integral == other.integral && self.decimal < other.decimal)
    }

    /// Decides the non-strict order between two prices.
    pub fn le(&self, other: &PriceLevel) -> (r: bool)
        ensures
            r == self.spec_le(*other),
    {
        self.integral < other.integral
            || (self.integral == other.integral && self.decimal <= other.decimal)
    }
}

} // verus!
