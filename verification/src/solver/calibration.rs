//! The parameters that a calibration searches, and what it promises of them.
//!
//! Four parameters are constrained by a cue ball's trajectory: cushion restitution (speed
//! lost per bounce), cushion friction (english's effect on the rebound), sliding friction
//! (the change from slide to roll) and rolling resistance (how far a ball rolls).

use vstd::prelude::*;

use crate::model::table::PhysicsParams;
use crate::scalar::{num, Scalar};
use crate::solver::descent::{Descent, Move, Stage};

verus! {

/// The least and the greatest cushion restitution: 0.6 and 0.98.
pub const RESTITUTION_LO: u64 = 0x3FE3_3333_3333_3333;

pub const RESTITUTION_HI: u64 = 0x3FEF_5C28_F5C2_8F5C;

/// The least and the greatest cushion friction: 0.05 and 0.4.
pub const FRICTION_LO: u64 = 0x3FA9_9999_9999_999A;

pub const FRICTION_HI: u64 = 0x3FD9_9999_9999_999A;

/// The least and the greatest sliding friction: 0.1 and 0.35.
pub const SLIDE_LO: u64 = 0x3FB9_9999_9999_999A;

pub const SLIDE_HI: u64 = 0x3FD6_6666_6666_6666;

/// The least and the greatest rolling resistance: 0.003 and 0.02.
pub const ROLL_LO: u64 = 0x3F68_9374_BC6A_7EFA;

pub const ROLL_HI: u64 = 0x3F94_7AE1_47AE_147B;

/// A change below this is none: 1e-12.
pub const NO_CHANGE: u64 = 0x3D71_9799_812D_EA11;

/// Calibration steps that are all below this end the search: 1e-4.
pub const STEP_FLOOR: u64 = 0x3F1A_36E2_EB1C_432D;

/// The bounds of the calibrated parameters: cushion restitution, cushion friction,
/// sliding friction, rolling resistance.
pub open spec fn bounds_of(coord: int) -> (Scalar, Scalar) {
    if coord == 0 {
        (num(RESTITUTION_LO), num(RESTITUTION_HI))
    } else if coord == 1 {
        (num(FRICTION_LO), num(FRICTION_HI))
    } else if coord == 2 {
        (num(SLIDE_LO), num(SLIDE_HI))
    } else {
        (num(ROLL_LO), num(ROLL_HI))
    }
}

/// Whether a parameter is within its bounds.
pub open spec fn in_bounds(coord: int, value: Scalar) -> bool {
    bounds_of(coord).0.at_most(value) && value.at_most(bounds_of(coord).1)
}

/// A calibrated parameter kept within its bounds.
pub fn keep_in_bounds(coord: usize, value: Scalar) -> (r: Scalar)
    requires
        coord < 4,
    ensures
        r == value.clamped(bounds_of(coord as int).0, bounds_of(coord as int).1),
        !value.nan() ==> in_bounds(coord as int, r),
{
    if coord == 0 {
        value.clamp(num(RESTITUTION_LO), num(RESTITUTION_HI))
    } else if coord == 1 {
        value.clamp(num(FRICTION_LO), num(FRICTION_HI))
    } else if coord == 2 {
        value.clamp(num(SLIDE_LO), num(SLIDE_HI))
    } else {
        value.clamp(num(ROLL_LO), num(ROLL_HI))
    }
}

/// Whether a change of a parameter counts as none.
pub fn unchanged(change: Scalar) -> (r: bool)
    ensures
        r == change.less(num(NO_CHANGE)),
{
    change.lt(num(NO_CHANGE))
}

/// The four parameters that are calibrated.
pub open spec fn packed(p: PhysicsParams) -> Seq<Scalar> {
    seq![p.cushion_restitution, p.cushion_friction, p.mu_slide, p.mu_roll]
}

/// Parameters with the four calibrated ones replaced.
pub open spec fn unpacked(base: PhysicsParams, x: Seq<Scalar>) -> PhysicsParams {
    PhysicsParams {
        cushion_restitution: x[0],
        cushion_friction: x[1],
        mu_slide: x[2],
        mu_roll: x[3],
        ..base
    }
}

pub fn pack(p: &PhysicsParams) -> (x: Vec<Scalar>)
    ensures
        x@ == packed(*p),
{
    let x: Vec<Scalar> = vec![p.cushion_restitution, p.cushion_friction, p.mu_slide, p.mu_roll];
    assert(x@ =~= packed(*p));
    x
}

pub fn unpack(base: &PhysicsParams, x: &[Scalar]) -> (p: PhysicsParams)
    requires
        x@.len() == 4,
    ensures
        p == unpacked(*base, x@),
{
    let mut p: PhysicsParams = *base;
    p.cushion_restitution = x[0];
    p.cushion_friction = x[1];
    p.mu_slide = x[2];
    p.mu_roll = x[3];
    p
}

/// A turn of a calibration.
pub enum Turn {
    /// Try the next probe at `wanted`: `change` is how far that moves the parameter, once
    /// it is kept within its bounds, and `err` the misfit there.
    Try { wanted: Scalar, change: Scalar, err: Scalar },
    /// End the round.
    End { halves: Seq<Scalar>, floor: Option<Scalar> },
}

/// A wanted value of the parameter that is probed next, kept within its bounds.
pub open spec fn kept(s: Stage, wanted: Scalar) -> Scalar {
    let (lo, hi) = bounds_of(s.next.coord as int);
    wanted.clamped(lo, hi)
}

/// The move of the descent that a turn is: a probe that changes nothing is passed over, any
/// other is judged at the value that is kept within its bounds.
pub open spec fn move_of(s: Stage, turn: Turn) -> Move {
    match turn {
        Turn::Try { wanted, change, err } => if change.less(num(NO_CHANGE)) {
            Move::Pass
        } else {
            Move::Judge { value: kept(s, wanted), err }
        },
        Turn::End { halves, floor } => Move::End { halves, floor },
    }
}

/// Take a turn: try the next probe at `wanted`. `change` is how far that moves the
/// parameter, once it is kept within its bounds; where it does not move, `err` is not
/// looked at.
pub fn try_value(d: &mut Descent, wanted: Scalar, change: Scalar, err: Scalar)
    requires
        old(d).wf(),
        !old(d)@.over(),
        old(d).point@.len() <= 4,
    ensures
        final(d).wf(),
        final(d)@ == old(d)@.after(move_of(old(d)@, (Turn::Try { wanted, change, err }))),
        final(d)@.left().0 == old(d)@.left().0,
        0 <= final(d)@.left().1 < old(d)@.left().1,
{
    if unchanged(change) {
        d.pass();
    } else {
        let value: Scalar = keep_in_bounds(d.next.coord, wanted);
        d.judge(value, err);
    }
}

/// A calibration after the first `n` turns.
pub open spec fn calibrated(s: Stage, turns: Seq<Turn>, n: int) -> Stage
    decreases n,
{
    if n <= 0 {
        s
    } else {
        let before = calibrated(s, turns, n - 1);
        before.after(move_of(before, turns[n - 1]))
    }
}

/// Whether every turn can be taken when it comes, and tries a number.
pub open spec fn proceeds(s: Stage, turns: Seq<Turn>) -> bool {
    forall|k: int|
        0 <= k < turns.len() ==> {
            &&& calibrated(s, turns, k).may(move_of(calibrated(s, turns, k), #[trigger] turns[k]))
            &&& turns[k] matches Turn::Try { wanted, .. } ==> !wanted.nan()
        }
}

/// Whether the misfit of every value that is judged is that of the parameters with it: `e`
/// gives the misfit of parameters.
pub open spec fn fits(
    base: PhysicsParams,
    s: Stage,
    turns: Seq<Turn>,
    e: spec_fn(PhysicsParams) -> Scalar,
) -> bool {
    &&& s.err == e(unpacked(base, s.point))
    &&& forall|k: int|
        0 <= k < turns.len() ==> match move_of(calibrated(s, turns, k), #[trigger] turns[k]) {
            Move::Judge { value, err } => err == e(
                unpacked(base, calibrated(s, turns, k).tried(value)),
            ),
            _ => true,
        }
}

proof fn lemma_kept_in_bounds(s: Stage, wanted: Scalar)
    requires
        s.next.coord < 4,
        !wanted.nan(),
    ensures
        in_bounds(s.next.coord as int, kept(s, wanted)),
{
    let (lo, hi) = bounds_of(s.next.coord as int);
    assert(lo.at_most(hi));
}

proof fn lemma_calibrated(
    base: PhysicsParams,
    s: Stage,
    turns: Seq<Turn>,
    e: spec_fn(PhysicsParams) -> Scalar,
    n: int,
)
    requires
        s.wf(),
        s.point.len() == 4,
        proceeds(s, turns),
        fits(base, s, turns, e),
        !s.err.nan(),
        0 <= n <= turns.len(),
    ensures
        ({
            let now = calibrated(s, turns, n);
            &&& now.wf()
            &&& now.point.len() == 4
            &&& now.err.at_most(s.err)
            &&& now.err == e(unpacked(base, now.point))
            &&& forall|c: int|
                0 <= c < 4 ==> (#[trigger] now.point[c]) == s.point[c] || in_bounds(
                    c,
                    now.point[c],
                )
        }),
    decreases n,
{
    if n > 0 {
        lemma_calibrated(base, s, turns, e, n - 1);
        let before = calibrated(s, turns, n - 1);
        let now = calibrated(s, turns, n);
        let turn = turns[n - 1];
        assert(before.may(move_of(before, turn)));
        if let Turn::Try { wanted, change, err } = turn {
            lemma_kept_in_bounds(before, wanted);
        }
        assert forall|c: int| 0 <= c < 4 implies (#[trigger] now.point[c]) == s.point[c]
            || in_bounds(c, now.point[c]) by {
            assert(before.point[c] == s.point[c] || in_bounds(c, before.point[c]));
        }
    }
}

/// A whole calibration, however it goes: the parameters that it ends with fit no worse than
/// those it began with, where `e` is the misfit of parameters; it changes nothing but the
/// four calibrated ones; and each of those is as it was or within its bounds.
pub proof fn law_calibration_improves(
    base: PhysicsParams,
    s: Stage,
    turns: Seq<Turn>,
    e: spec_fn(PhysicsParams) -> Scalar,
)
    requires
        s.wf(),
        s.point == packed(base),
        proceeds(s, turns),
        fits(base, s, turns, e),
        !e(base).nan(),
    ensures
        ({
            let x = calibrated(s, turns, turns.len() as int).point;
            let result = unpacked(base, x);
            &&& e(result).at_most(e(base))
            &&& unpacked(result, packed(base)) == base
            &&& result.cushion_restitution == base.cushion_restitution || in_bounds(
                0,
                result.cushion_restitution,
            )
            &&& result.cushion_friction == base.cushion_friction || in_bounds(
                1,
                result.cushion_friction,
            )
            &&& result.mu_slide == base.mu_slide || in_bounds(2, result.mu_slide)
            &&& result.mu_roll == base.mu_roll || in_bounds(3, result.mu_roll)
        }),
{
    assert(unpacked(base, packed(base)) == base);
    lemma_calibrated(base, s, turns, e, turns.len() as int);
    let x = calibrated(s, turns, turns.len() as int).point;
    assert(x[0] == s.point[0] || in_bounds(0, x[0]));
    assert(x[1] == s.point[1] || in_bounds(1, x[1]));
    assert(x[2] == s.point[2] || in_bounds(2, x[2]));
    assert(x[3] == s.point[3] || in_bounds(3, x[3]));
}

/// A try is judged at the wanted value, or at the nearer bound of its own parameter where the
/// wanted value is beyond it; a try that moves nothing is passed over.
pub proof fn law_tries_are_kept_in_bounds(s: Stage, wanted: Scalar, change: Scalar, err: Scalar)
    requires
        s.next.coord < 4,
        !wanted.nan(),
    ensures
        ({
            let (lo, hi) = match s.next.coord {
                0 => (num(RESTITUTION_LO), num(RESTITUTION_HI)),
                1 => (num(FRICTION_LO), num(FRICTION_HI)),
                2 => (num(SLIDE_LO), num(SLIDE_HI)),
                _ => (num(ROLL_LO), num(ROLL_HI)),
            };
            let m = move_of(s, Turn::Try { wanted, change, err });
            &&& change.less(num(NO_CHANGE)) ==> m is Pass
            &&& !change.less(num(NO_CHANGE)) && wanted.less(lo) ==> m == (Move::Judge {
                value: lo,
                err,
            })
            &&& !change.less(num(NO_CHANGE)) && hi.less(wanted) ==> m == (Move::Judge {
                value: hi,
                err,
            })
            &&& !change.less(num(NO_CHANGE)) && lo.at_most(wanted) && wanted.at_most(hi) ==> m == (
            Move::Judge { value: wanted, err })
        }),
{
    let (lo, hi) = bounds_of(s.next.coord as int);
    assert(lo.at_most(hi));
}

/// The calibrated parameters are restitution and friction of the cushion, then sliding
/// friction and rolling resistance, in that order both ways, and putting them back changes
/// no other.
pub proof fn law_packing_keeps_the_order(base: PhysicsParams, x: Seq<Scalar>)
    requires
        x.len() == 4,
    ensures
        packed(unpacked(base, x)) == x,
        unpacked(base, packed(base)) == base,
        packed(base)[0] == base.cushion_restitution,
        packed(base)[1] == base.cushion_friction,
        packed(base)[2] == base.mu_slide,
        packed(base)[3] == base.mu_roll,
        ({
            let p = unpacked(base, x);
            &&& p.g == base.g && p.mu_spin == base.mu_spin
            &&& p.cushion_restitution_slope == base.cushion_restitution_slope
            &&& p.cushion_restitution_slope_t == base.cushion_restitution_slope_t
            &&& p.cushion_restitution_chain == base.cushion_restitution_chain
            &&& p.cushion_contact_steps == base.cushion_contact_steps
            &&& p.ball_restitution == base.ball_restitution
            &&& p.ball_friction == base.ball_friction
            &&& p.ball_friction_b == base.ball_friction_b
            &&& p.ball_friction_c == base.ball_friction_c
            &&& p.ball_contact_steps == base.ball_contact_steps
        }),
{
    assert(packed(unpacked(base, x)) =~= x);
}

/// A try that fits better is never passed up: it is what the calibration then holds.
pub proof fn law_better_fit_is_kept(s: Stage, wanted: Scalar, change: Scalar, err: Scalar)
    requires
        s.wf(),
        !s.over(),
        s.point.len() == 4,
        !change.less(num(NO_CHANGE)),
        err.less(s.err),
    ensures
        ({
            let after = s.after(move_of(s, Turn::Try { wanted, change, err }));
            &&& after.err == err
            &&& after.point == s.point.update(s.next.coord as int, kept(s, wanted))
            &&& after.improved
        }),
{
}

} // verus!
