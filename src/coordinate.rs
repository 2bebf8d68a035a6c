//! Grid coordinates and the dropping of low-order bits.

use vstd::prelude::*;

verus! {

/// Number of bits of a grid coordinate.
pub const COORDINATE_BITS: u32 = 64;

/// The value of a grid coordinate after dropping its `k` lowest bits.
pub open spec fn reduced(v: u64, k: u32) -> u64 {
    if k >= COORDINATE_BITS {
        0
    } else {
        v >> k
    }
}

/// A scalar on the integer grid of a space.
#[derive(Clone, Copy, Debug, PartialEq, Eq, Structural, Hash)]
pub struct Coordinate {
    pub value: u64,
}

impl Coordinate {
    pub fn new(value: u64) -> (r: Coordinate)
        ensures
            r.value == value,
    {
        Coordinate { value }
    }

    /// The grid (integer) view of the coordinate.
    pub fn u64(&self) -> (r: u64)
        ensures
            r == self.value,
    {
        self.value
    }

    /// The coordinate with its `k` lowest bits dropped; 0 once every bit is gone.
    pub fn reduce_precision(&self, k: u32) -> (r: Coordinate)
        ensures
            r.value == reduced(self.value, k),
    {
        if k >= COORDINATE_BITS {
            Coordinate { value: 0 }
        } else {
            Coordinate { value: self.value >> k }
        }
    }
}

} // verus!
