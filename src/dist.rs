//! The orderable distance value shared by kernels, trees and searches.
use vstd::prelude::*;

verus! {

/// Largest representable distance; doubles as the "infinity" sentinel.
pub const DIST_INF: u64 = 0xffff_ffff_ffff_ffff;

/// A non-negative distance in the integral units chosen by the kernel.
///
/// The order of distances is the order of the held integers. Addition
/// saturates at the sentinel [`DistanceCmp::inf`]; subtraction saturates at zero.
#[derive(Clone, Copy, Debug, PartialEq, Eq, Structural, Hash, PartialOrd, Ord)]
pub struct DistanceCmp {
    pub value: u64,
}

pub open spec fn sat_add(a: u64, b: u64) -> u64 {
    if a + b > DIST_INF { DIST_INF } else { (a + b) as u64 }
}

pub open spec fn sat_sub(a: u64, b: u64) -> u64 {
    if a < b { 0 } else { (a - b) as u64 }
}

impl DistanceCmp {
    pub fn zero() -> (r: Self)
        ensures
            r.value == 0,
    {
        DistanceCmp { value: 0 }
    }

    pub fn inf() -> (r: Self)
        ensures
            r.value == DIST_INF,
    {
        DistanceCmp { value: DIST_INF }
    }

    pub fn of(v: u64) -> (r: Self)
        ensures
            r.value == v,
    {
        DistanceCmp { value: v }
    }

    pub fn to(&self) -> (r: u64)
        ensures
            r == self.value,
    {
        self.value
    }

    /// Saturating sum of two distances.
    pub fn add(self, rhs: Self) -> (r: Self)
        ensures
            r.value == sat_add(self.value, rhs.value),
    {
        DistanceCmp { value: self.value.saturating_add(rhs.value) }
    }

    /// Difference of two distances, clamped to zero.
    pub fn sub(self, rhs: Self) -> (r: Self)
        ensures
            r.value == sat_sub(self.value, rhs.value),
    {
        DistanceCmp { value: self.value.saturating_sub(rhs.value) }
    }

    pub fn lt(&self, rhs: &Self) -> (r: bool)
        ensures
            r == (self.value < rhs.value),
    {
        self.value < rhs.value
    }

    pub fn le(&self, rhs: &Self) -> (r: bool)
        ensures
            r == (self.value <= rhs.value),
    {
        self.value <= rhs.value
    }
}

} // verus!
