//! A shot setup: ball positions plus the cue action applied to the cue ball.

use vstd::prelude::*;

use crate::model::ball::BallState;
use crate::model::math::DVec3;
use crate::scalar::{num, Scalar, ZERO};

verus! {

/// A planar cue strike: direction of travel (rad), speed (m/s), english and
/// follow (rad/s; a negative follow draws).
#[derive(Clone, Copy, Debug, PartialEq, Eq, Structural)]
pub struct CueAction {
    pub aim: Scalar,
    pub speed: Scalar,
    pub sidespin: Scalar,
    pub follow: Scalar,
}

/// A speed (m/s) below this is no stroke: 1e-9.
pub const NO_STROKE: u64 = 0x3E11_2E0B_E826_D695;

impl CueAction {
    /// Where the cue tip contacts the ball face, as fractions of the ball radius:
    /// `scaled` is what the spins and the speed give. Without a stroke the tip is
    /// at the center.
    pub fn tip_offset(&self, scaled: (Scalar, Scalar)) -> (r: (Scalar, Scalar))
        ensures
            r == (if self.speed.unsigned().less(num(NO_STROKE)) {
                (num(ZERO), num(ZERO))
            } else {
                scaled
            }),
    {
        if self.speed.abs().lt(num(NO_STROKE)) {
            (num(ZERO), num(ZERO))
        } else {
            scaled
        }
    }
}

/// A configuration of balls on the table (positions only), with the cue ball
/// distinguished.
#[derive(Clone, Debug)]
pub struct Scene {
    pub cue: DVec3,
    pub objects: Vec<DVec3>,
}

impl Scene {
    /// All positions, cue ball first.
    pub open spec fn balls(self) -> Seq<DVec3> {
        seq![self.cue] + self.objects@
    }

    pub fn new(cue: DVec3, objects: Vec<DVec3>) -> (s: Scene)
        ensures
            s.cue == cue,
            s.objects == objects,
    {
        Scene { cue, objects }
    }

    /// Initial ball states: the cue ball (index 0) as `struck`, the state that
    /// the cue action gives it, and the objects at rest.
    pub fn ball_states(&self, struck: BallState) -> (states: Vec<BallState>)
        ensures
            states@.len() == 1 + self.objects@.len(),
            states@[0] == struck,
            forall|i: int|
                0 <= i < self.objects@.len() ==> #[trigger] states@[i + 1]
                    == BallState::resting_at(self.objects@[i]),
    {
        let mut states: Vec<BallState> = Vec::new();
        states.push(struck);
        for k in 0..self.objects.len()
            invariant
                states@.len() == k + 1,
                states@[0] == struck,
                forall|i: int|
                    0 <= i < k ==> #[trigger] states@[i + 1] == BallState::resting_at(
                        self.objects@[i],
                    ),
        {
            states.push(BallState::at_rest(self.objects[k]));
        }
        states
    }

    /// Positions of all balls, cue ball first.
    pub fn all_balls(&self) -> (r: Vec<DVec3>)
        ensures
            r@ == self.balls(),
    {
        let mut r: Vec<DVec3> = Vec::new();
        r.push(self.cue);
        for k in 0..self.objects.len()
            invariant
                r@ == seq![self.cue] + self.objects@.take(k as int),
        {
            r.push(self.objects[k]);
        }
        assert(self.objects@.take(self.objects@.len() as int) == self.objects@);
        r
    }

    /// Position of ball `i`: 0 is the cue ball, `i` the object `i - 1`.
    pub fn ball_pos(&self, i: usize) -> (p: DVec3)
        requires
            i <= self.objects@.len(),
        ensures
            p == self.balls()[i as int],
    {
        if i == 0 {
            self.cue
        } else {
            self.objects[i - 1]
        }
    }

    /// Put ball `i` at `p`.
    pub fn set_ball_pos(&mut self, i: usize, p: DVec3)
        requires
            i <= old(self).objects@.len(),
        ensures
            final(self).balls() == old(self).balls().update(i as int, p),
    {
        if i == 0 {
            self.cue = p;
        } else {
            self.objects[i - 1] = p;
        }
    }
}

/// The cue ball is ball 0, and object `i` is ball `i + 1`.
pub proof fn law_cue_ball_is_first(s: Scene, i: int)
    requires
        0 <= i < s.objects@.len(),
    ensures
        s.balls().len() == s.objects@.len() + 1,
        s.balls()[0] == s.cue,
        s.balls()[i + 1] == s.objects@[i],
{
}

} // verus!
