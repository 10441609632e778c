//! Decimal numbers as the query language writes them.

use vstd::prelude::*;

verus! {

/// How many units of the smallest step make one.
pub const NANOS_PER_UNIT: u32 = 1_000_000_000;

/// A non-negative decimal number with nine digits after the point: the
/// whole part and the count of steps of 10^-9 beyond it. Coordinates of
/// nodes are counted in the same steps.
#[derive(Debug, Clone, Copy, PartialEq, Eq, Structural)]
pub struct Decimal {
    pub units: u64,
    pub nanos: u32,
}

impl Decimal {
    /// The fraction is less than one.
    pub open spec fn wf(self) -> bool {
        self.nanos < NANOS_PER_UNIT
    }

    /// The number in steps of 10^-9.
    pub open spec fn value(self) -> int {
        self.units * NANOS_PER_UNIT + self.nanos
    }

    /// The whole number `units`.
    pub fn whole(units: u64) -> (d: Decimal)
        ensures
            d == (Decimal { units, nanos: 0 }),
            d.wf(),
            d.value() == units * NANOS_PER_UNIT,
    {
        Decimal { units, nanos: 0 }
    }

    /// The number of the given whole part and fraction, the fraction in
    /// steps of 10^-9. Nothing where the fraction is not less than one.
    pub fn new(units: u64, nanos: u32) -> (d: Option<Decimal>)
        ensures
            d == if nanos < NANOS_PER_UNIT {
                Some(Decimal { units, nanos })
            } else {
                None
            },
    {
        if nanos < NANOS_PER_UNIT {
            Some(Decimal { units, nanos })
        } else {
            None
        }
    }

    /// The number in steps of 10^-9.
    pub fn steps(&self) -> (n: i128)
        ensures
            n == self.value(),
    {
        (self.units as i128) * 1_000_000_000i128 + (self.nanos as i128)
    }

    /// Whether this number is at most `other`, a signed count of steps of
    /// 10^-9.
    pub fn at_most(&self, other: i64) -> (b: bool)
        ensures
            b == (self.value() <= other),
    {
        self.steps() <= other as i128
    }

    /// Whether this number is at least `other`, a signed count of steps of
    /// 10^-9.
    pub fn at_least(&self, other: i64) -> (b: bool)
        ensures
            b == (self.value() >= other),
    {
        self.steps() >= other as i128
    }
}

} // verus!
