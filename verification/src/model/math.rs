//! Vectors of the domain model.
//!
//! The table surface is the `z = 0` plane, `+z` points up, and a ball resting on
//! the cloth has its center at `z = radius`.

use vstd::prelude::*;

use crate::scalar::{num, Scalar, ZERO};

verus! {

/// A small nonzero speed (m/s) below which linear motion is treated as stopped: 1e-6.
pub const V_EPSILON: u64 = 0x3EB0_C6F7_A0B5_ED8D;

/// A small nonzero contact-slip speed (m/s) below which a ball is considered to
/// be rolling without slipping rather than sliding: 1e-6.
pub const SLIP_EPSILON: u64 = 0x3EB0_C6F7_A0B5_ED8D;

/// A vector in table coordinates.
#[derive(Clone, Copy, Debug, PartialEq, Eq, Hash, Structural)]
pub struct DVec3 {
    pub x: Scalar,
    pub y: Scalar,
    pub z: Scalar,
}

impl DVec3 {
    pub open spec fn zero_vector() -> DVec3 {
        DVec3 {
            x: num(ZERO),
            y: num(ZERO),
            z: num(ZERO),
        }
    }

    /// Equality of the three components as numbers.
    pub open spec fn same(self, other: DVec3) -> bool {
        self.x.same(other.x) && self.y.same(other.y) && self.z.same(other.z)
    }

    pub fn new(x: Scalar, y: Scalar, z: Scalar) -> (v: DVec3)
        ensures
            v.x == x,
            v.y == y,
            v.z == z,
    {
        DVec3 { x, y, z }
    }

    pub fn zero() -> (v: DVec3)
        ensures
            v == DVec3::zero_vector(),
    {
        let o: Scalar = num(ZERO);
        DVec3 { x: o, y: o, z: o }
    }

    pub fn equals(self, other: DVec3) -> (r: bool)
        ensures
            r == self.same(other),
    {
        self.x.equals(other.x) && self.y.equals(other.y) && self.z.equals(other.z)
    }
}

} // verus!
