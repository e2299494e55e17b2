//! The cushions of the table, and the choices made when a ball meets one.

use vstd::prelude::*;

use crate::model::math::DVec3;
use crate::scalar::{num, Scalar, MINUS_ONE, ONE, ZERO};

verus! {

/// The least effective restitution: 0.3.
pub const RESTITUTION_MIN: u64 = 0x3FD3_3333_3333_3333;

/// The greatest effective restitution: 0.99.
pub const RESTITUTION_MAX: u64 = 0x3FEF_AE14_7AE1_47AE;

/// How long (s) a ball takes to shed the disturbed state a cushion leaves it
/// in, the chain-restitution window: 0.35.
pub const CHAIN_RECOVERY_T: u64 = 0x3FD6_6666_6666_6666;

/// The four straight cushions of a rectangular carom table.
#[derive(Clone, Copy, Debug, PartialEq, Eq, Structural)]
pub enum Rail {
    Left,
    Right,
    Bottom,
    Top,
}

/// The rectangle a ball center is confined to.
#[derive(Clone, Copy, Debug, PartialEq, Eq, Structural)]
pub struct Bounds {
    pub min_x: Scalar,
    pub max_x: Scalar,
    pub min_y: Scalar,
    pub max_y: Scalar,
}

impl Rail {
    /// The rails in the order in which they are tried.
    pub open spec fn nth(k: int) -> Rail {
        if k == 0 {
            Rail::Left
        } else if k == 1 {
            Rail::Right
        } else if k == 2 {
            Rail::Bottom
        } else {
            Rail::Top
        }
    }

    pub open spec fn spec_bound(self, bounds: Bounds) -> (bool, Scalar) {
        match self {
            Rail::Left => (true, bounds.min_x),
            Rail::Right => (true, bounds.max_x),
            Rail::Bottom => (false, bounds.min_y),
            Rail::Top => (false, bounds.max_y),
        }
    }

    /// All four rails.
    pub fn all() -> (rails: [Rail; 4])
        ensures
            forall|k: int| 0 <= k < 4 ==> #[trigger] rails@[k] == Rail::nth(k),
    {
        [Rail::Left, Rail::Right, Rail::Bottom, Rail::Top]
    }

    /// Outward normal (pointing from the table interior toward the rail). A ball
    /// contacting this rail is moving in the `+normal` direction.
    pub fn outward_normal(self) -> (n: DVec3)
        ensures
            n.x == (match self {
                Rail::Left => num(MINUS_ONE),
                Rail::Right => num(ONE),
                _ => num(ZERO),
            }),
            n.y == (match self {
                Rail::Bottom => num(MINUS_ONE),
                Rail::Top => num(ONE),
                _ => num(ZERO),
            }),
            n.z == num(ZERO),
    {
        match self {
            Rail::Left => DVec3::new(num(MINUS_ONE), num(ZERO), num(ZERO)),
            Rail::Right => DVec3::new(num(ONE), num(ZERO), num(ZERO)),
            Rail::Bottom => DVec3::new(num(ZERO), num(MINUS_ONE), num(ZERO)),
            Rail::Top => DVec3::new(num(ZERO), num(ONE), num(ZERO)),
        }
    }

    /// The center-coordinate bound this rail imposes: `(is_x_axis, bound_value)`.
    pub fn bound(self, bounds: Bounds) -> (r: (bool, Scalar))
        ensures
            r == self.spec_bound(bounds),
    {
        match self {
            Rail::Left => (true, bounds.min_x),
            Rail::Right => (true, bounds.max_x),
            Rail::Bottom => (false, bounds.min_y),
            Rail::Top => (false, bounds.max_y),
        }
    }
}

/// The restitution of an impact, from the linear law's value `raw`: moved into
/// the physical range.
pub fn effective_restitution(raw: Scalar) -> (e: Scalar)
    ensures
        e == raw.clamped(num(RESTITUTION_MIN), num(RESTITUTION_MAX)),
        !raw.nan() ==> num(RESTITUTION_MIN).at_most(e) && e.at_most(num(RESTITUTION_MAX)),
        num(RESTITUTION_MIN).at_most(raw) && raw.at_most(num(RESTITUTION_MAX)) ==> e == raw,
{
    raw.clamp(num(RESTITUTION_MIN), num(RESTITUTION_MAX))
}

/// The chain factor of an impact, from `raw` = 1 - (time since the ball's last
/// cushion) / window: 0 for a settled arrival, rising to 1 as the contacts
/// come closer.
pub fn chain_recovery(raw: Scalar) -> (r: Scalar)
    ensures
        r == raw.clamped(num(ZERO), num(ONE)),
        !raw.nan() ==> num(ZERO).at_most(r) && r.at_most(num(ONE)),
        num(ZERO).at_most(raw) && raw.at_most(num(ONE)) ==> r == raw,
{
    raw.clamp(num(ZERO), num(ONE))
}

/// How an impact with a cushion is resolved.
#[derive(Clone, Copy, Debug, PartialEq, Eq, Structural)]
pub struct Rebound {
    /// The chain factor by which the chain restitution is weighted and added to
    /// the flat one, if it is added at all.
    pub boost: Option<Scalar>,
    /// Whether the impact is integrated through impulse space, in place of the
    /// closed form.
    pub integrated: bool,
}

/// Choose how an impact is resolved. A chain restitution of zero, or a ball that
/// has recovered, gets no boost; a positive step count selects the integration.
pub fn cushion_rebound(chain: Scalar, recovery: Scalar, contact_steps: u32) -> (r: Rebound)
    ensures
        r.boost == (if !chain.same(num(ZERO)) && num(ZERO).less(recovery) {
            Some(recovery.clamped(num(ZERO), num(ONE)))
        } else {
            None
        }),
        r.integrated == (contact_steps > 0),
{
    let boost: Option<Scalar> = if !chain.equals(num(ZERO)) && recovery.gt(num(ZERO)) {
        Some(recovery.clamp(num(ZERO), num(ONE)))
    } else {
        None
    };
    Rebound { boost, integrated: contact_steps > 0 }
}

/// Each rail has its own side: left and right bound x from below and above, bottom and top
/// bound y.
pub proof fn law_rails_bound_their_side(b: Bounds)
    ensures
        Rail::Left.spec_bound(b) == (true, b.min_x),
        Rail::Right.spec_bound(b) == (true, b.max_x),
        Rail::Bottom.spec_bound(b) == (false, b.min_y),
        Rail::Top.spec_bound(b) == (false, b.max_y),
        Rail::nth(0) == Rail::Left,
        Rail::nth(1) == Rail::Right,
        Rail::nth(2) == Rail::Bottom,
        Rail::nth(3) == Rail::Top,
{
}

} // verus!
