//! Table geometry, ball specification, and tunable physics parameters.
//!
//! Defaults describe a regulation international three-cushion (carom) setup.

use vstd::prelude::*;

use crate::scalar::{num, Scalar, ZERO};

verus! {

/// Radius of a regulation carom ball (m): 0.03075.
pub const BALL_RADIUS: u64 = 0x3F9F_7CED_9168_72B0;

/// Mass of a regulation carom ball (kg): 0.21.
pub const BALL_MASS: u64 = 0x3FCA_E147_AE14_7AE1;

/// Long side of the match table's playing area (m): 2.84.
pub const TABLE_LENGTH: u64 = 0x4006_B851_EB85_1EB8;

/// Short side of the match table's playing area (m): 1.42.
pub const TABLE_WIDTH: u64 = 0x3FF6_B851_EB85_1EB8;

/// Height of the cushion nose above the cloth (m): 0.0369.
pub const CUSHION_HEIGHT: u64 = 0x3FA2_E48E_8A71_DE6A;

/// Gravitational acceleration (m/s²): 9.81.
pub const GRAVITY: u64 = 0x4023_9EB8_51EB_851F;

/// Literature-typical sliding friction: 0.2.
pub const MU_SLIDE: u64 = 0x3FC9_9999_9999_999A;

/// Literature-typical rolling resistance: 0.01.
pub const MU_ROLL: u64 = 0x3F84_7AE1_47AE_147B;

/// Literature-typical cushion restitution: 0.85.
pub const CUSHION_RESTITUTION: u64 = 0x3FEB_3333_3333_3333;

/// Literature-typical cushion friction: 0.2.
pub const CUSHION_FRICTION: u64 = 0x3FC9_9999_9999_999A;

/// Restitution between two balls: 0.95.
pub const BALL_RESTITUTION: u64 = 0x3FEE_6666_6666_6666;

/// Ball-ball friction floor: 0.06.
pub const BALL_FRICTION: u64 = 0x3FAE_B851_EB85_1EB8;

/// Decay rate of the ball-ball friction curve (s/m): 1.088.
pub const BALL_FRICTION_C: u64 = 0x3FF1_6872_B020_C49C;

/// Cushion restitution fitted to tracked shots: 0.914.
pub const CALIBRATED_RESTITUTION: u64 = 0x3FED_3F7C_ED91_6873;

/// Cushion friction fitted to tracked shots: 0.297.
pub const CALIBRATED_FRICTION: u64 = 0x3FD3_020C_49BA_5E35;

/// Sliding friction fitted to tracked shots: 0.16.
pub const CALIBRATED_SLIDE: u64 = 0x3FC4_7AE1_47AE_147B;

/// Rolling resistance fitted to tracked shots: 0.0061.
pub const CALIBRATED_ROLL: u64 = 0x3F78_FC50_4816_F007;

/// Physical constants of a ball: radius (m) and mass (kg). All three carom balls
/// are identical.
#[derive(Clone, Copy, Debug, PartialEq, Eq, Structural)]
pub struct BallSpec {
    pub radius: Scalar,
    pub mass: Scalar,
}

impl BallSpec {
    /// Regulation carom ball: 61.5 mm diameter, about 210 g.
    pub fn carom() -> (b: BallSpec)
        ensures
            b == (BallSpec { radius: num(BALL_RADIUS), mass: num(BALL_MASS) }),
    {
        BallSpec { radius: num(BALL_RADIUS), mass: num(BALL_MASS) }
    }
}

/// Playing-surface geometry (m), measured *inside* the cushions.
#[derive(Clone, Copy, Debug, PartialEq, Eq, Structural)]
pub struct TableSpec {
    pub length: Scalar,
    pub width: Scalar,
    pub cushion_height: Scalar,
}

impl TableSpec {
    /// Regulation international match table: 2.84 m × 1.42 m playing area,
    /// measured between the cushion noses.
    pub fn carom_match() -> (t: TableSpec)
        ensures
            t == (TableSpec {
                length: num(TABLE_LENGTH),
                width: num(TABLE_WIDTH),
                cushion_height: num(CUSHION_HEIGHT),
            }),
    {
        TableSpec {
            length: num(TABLE_LENGTH),
            width: num(TABLE_WIDTH),
            cushion_height: num(CUSHION_HEIGHT),
        }
    }
}

/// Tunable parameters of the physics model.
#[derive(Clone, Copy, Debug, PartialEq, Eq, Structural)]
pub struct PhysicsParams {
    /// Gravitational acceleration (m/s²).
    pub g: Scalar,
    /// Coefficient of sliding friction between ball and cloth.
    pub mu_slide: Scalar,
    /// Coefficient of rolling resistance between ball and cloth.
    pub mu_roll: Scalar,
    /// Coefficient of spinning friction that decays vertical english.
    pub mu_spin: Scalar,
    /// Coefficient of restitution of the cushion, at 1 m/s.
    pub cushion_restitution: Scalar,
    /// Dependence of the restitution on the normal speed.
    pub cushion_restitution_slope: Scalar,
    /// Dependence of the restitution on the speed along the rail.
    pub cushion_restitution_slope_t: Scalar,
    /// Added restitution of a ball still disturbed from its previous cushion.
    pub cushion_restitution_chain: Scalar,
    /// Coefficient of ball-cushion friction.
    pub cushion_friction: Scalar,
    /// Steps in which a cushion impact is integrated; 0 selects the closed form.
    pub cushion_contact_steps: u32,
    /// Coefficient of restitution between two balls.
    pub ball_restitution: Scalar,
    /// Floor `a` of the ball-ball friction curve `a + b·exp(-c·v)`.
    pub ball_friction: Scalar,
    /// Amplitude `b` of that curve.
    pub ball_friction_b: Scalar,
    /// Decay rate `c` (s/m) of that curve.
    pub ball_friction_c: Scalar,
    /// Steps in which a collision is integrated; 0 selects the closed form.
    pub ball_contact_steps: u32,
}

impl PhysicsParams {
    /// The literature-typical parameters.
    pub open spec fn typical() -> PhysicsParams {
        PhysicsParams {
            g: num(GRAVITY),
            mu_slide: num(MU_SLIDE),
            mu_roll: num(MU_ROLL),
            mu_spin: num(ZERO),
            cushion_restitution: num(CUSHION_RESTITUTION),
            cushion_restitution_slope: num(ZERO),
            cushion_restitution_slope_t: num(ZERO),
            cushion_restitution_chain: num(ZERO),
            cushion_friction: num(CUSHION_FRICTION),
            cushion_contact_steps: 0,
            ball_restitution: num(BALL_RESTITUTION),
            ball_friction: num(BALL_FRICTION),
            ball_friction_b: num(ZERO),
            ball_friction_c: num(BALL_FRICTION_C),
            ball_contact_steps: 0,
        }
    }

    /// Parameters calibrated against tracked three-cushion shots: the conservative
    /// fallback where a game has no calibration of its own.
    pub fn carom_calibrated() -> (p: PhysicsParams)
        ensures
            p == (PhysicsParams {
                cushion_restitution: num(CALIBRATED_RESTITUTION),
                cushion_friction: num(CALIBRATED_FRICTION),
                mu_slide: num(CALIBRATED_SLIDE),
                mu_roll: num(CALIBRATED_ROLL),
                ..PhysicsParams::typical()
            }),
    {
        let mut p: PhysicsParams = PhysicsParams::default();
        p.cushion_restitution = num(CALIBRATED_RESTITUTION);
        p.cushion_friction = num(CALIBRATED_FRICTION);
        p.mu_slide = num(CALIBRATED_SLIDE);
        p.mu_roll = num(CALIBRATED_ROLL);
        p
    }
}

impl Default for PhysicsParams {
    fn default() -> (p: PhysicsParams)
        ensures
            p == PhysicsParams::typical(),
    {
        PhysicsParams {
            g: num(GRAVITY),
            mu_slide: num(MU_SLIDE),
            mu_roll: num(MU_ROLL),
            mu_spin: num(ZERO),
            cushion_restitution: num(CUSHION_RESTITUTION),
            cushion_restitution_slope: num(ZERO),
            cushion_restitution_slope_t: num(ZERO),
            cushion_restitution_chain: num(ZERO),
            cushion_friction: num(CUSHION_FRICTION),
            cushion_contact_steps: 0,
            ball_restitution: num(BALL_RESTITUTION),
            ball_friction: num(BALL_FRICTION),
            ball_friction_b: num(ZERO),
            ball_friction_c: num(BALL_FRICTION_C),
            ball_contact_steps: 0,
        }
    }
}

} // verus!
