//! Ball identity and instantaneous physical state.

use vstd::prelude::*;

use crate::model::math::DVec3;
use crate::scalar::{num, Scalar, ZERO};

verus! {

/// Stable identifier for a ball within a single game or scene.
#[derive(Clone, Copy, Debug, PartialEq, Eq, Hash, Structural)]
pub struct BallId(pub u8);

/// The three balls of a three-cushion game. Each player owns a cue ball (white
/// or yellow); the red is the shared object ball.
#[derive(Clone, Copy, Debug, PartialEq, Eq, Hash, Structural)]
pub enum BallColor {
    White,
    Yellow,
    Red,
}

/// Instantaneous rigid-body state of a single ball: the center in table
/// coordinates (m), its velocity (m/s) and its angular velocity (rad/s) about
/// the world axes. The `z` component of the spin is the english.
#[derive(Clone, Copy, Debug, PartialEq, Eq, Structural)]
pub struct BallState {
    pub pos: DVec3,
    pub vel: DVec3,
    pub angular_vel: DVec3,
}

impl BallState {
    /// A ball at rest at `pos`.
    pub open spec fn resting_at(pos: DVec3) -> BallState {
        BallState { pos, vel: DVec3::zero_vector(), angular_vel: DVec3::zero_vector() }
    }

    /// Whether a ball whose contact point slips at this speed is rolling without
    /// slipping.
    pub fn is_rolling(slip: Scalar, eps: Scalar) -> (r: bool)
        ensures
            r == slip.at_most(eps),
    {
        slip.le(eps)
    }

    pub fn at_rest(pos: DVec3) -> (s: BallState)
        ensures
            s == BallState::resting_at(pos),
    {
        BallState { pos, vel: DVec3::zero(), angular_vel: DVec3::zero() }
    }
}

impl Default for BallState {
    fn default() -> (s: BallState)
        ensures
            s == BallState::resting_at(DVec3::zero_vector()),
    {
        BallState::at_rest(DVec3::zero())
    }
}

/// A ball at rest is where it is, and neither moves nor spins.
pub proof fn law_resting_ball_is_still(pos: DVec3)
    ensures
        ({
            let s = BallState::resting_at(pos);
            &&& s.pos == pos
            &&& s.vel.x.units() == 0 && s.vel.y.units() == 0 && s.vel.z.units() == 0
            &&& s.angular_vel.x.units() == 0 && s.angular_vel.y.units() == 0
                && s.angular_vel.z.units() == 0
        }),
{
    assert(num(ZERO).magnitude() == 0);
    assert(num(ZERO).units() == 0);
}

} // verus!
