//! Stepping through an impact that is integrated in slices of impulse.
//!
//! A cushion impact runs in two stages. Compression takes slices until the
//! normal velocity reverses; the last slice is taken again, shrunk to end where
//! it does. Restitution then takes slices until the share of the compression
//! work that is given back has been returned; the last one is sized to hit it.

use vstd::prelude::*;

use crate::scalar::{num, Scalar, ZERO};

verus! {

/// A slip below this speed (m/s) counts as vanished: 1e-9.
pub const SLIP_VANISHED: u64 = 0x3E11_2E0B_E826_D695;

/// A normal push below this counts as none: 1e-12.
pub const PUSH_VANISHED: u64 = 0x3D71_9799_812D_EA11;

/// The slices one stage may take per step of the budget.
pub const SLICES_PER_STEP: u64 = 20;

/// How far a stage of an impact has come.
#[derive(Clone, Copy, Debug, PartialEq, Eq, Structural)]
pub struct Impact {
    /// The step budget, at least 1.
    pub steps: u32,
    /// Slices taken in the current stage.
    pub taken: u64,
    /// Whether the current stage is over.
    pub over: bool,
}

/// What a slice of compression turned out to be.
#[derive(Clone, Copy, Debug, PartialEq, Eq, Structural)]
pub enum Compressed {
    /// It stands: its work counts.
    Kept,
    /// It went past the reversal: it is taken back, and taken again shrunk.
    Overshot,
}

/// The next slice of restitution.
#[derive(Clone, Copy, Debug, PartialEq, Eq, Structural)]
pub enum Restoring {
    /// Nothing is left to return.
    Done,
    /// A full slice.
    Full,
    /// The last slice, sized to what is left.
    Last,
}

impl Impact {
    pub open spec fn wf(self) -> bool {
        self.steps >= 1 && self.taken <= SLICES_PER_STEP * self.steps + 1 && (self.taken
            > SLICES_PER_STEP * self.steps ==> self.over)
    }

    /// Slices that the current stage may still take.
    pub open spec fn budget(self) -> int {
        if self.over {
            0
        } else {
            SLICES_PER_STEP * self.steps + 1 - self.taken
        }
    }

    /// The beginning of a stage.
    pub fn new(contact_steps: u32) -> (m: Impact)
        ensures
            m.wf(),
            m.steps == (if contact_steps >= 1 {
                contact_steps
            } else {
                1
            }),
            m.taken == 0,
            !m.over,
    {
        let steps: u32 = if contact_steps >= 1 {
            contact_steps
        } else {
            1
        };
        Impact { steps, taken: 0, over: false }
    }

    /// Whether compression takes another slice at normal velocity `vy`.
    pub fn compressing(&self, vy: Scalar) -> (r: bool)
        ensures
            r == (!self.over && num(ZERO).less(vy)),
    {
        !self.over && vy.gt(num(ZERO))
    }

    /// Judge a slice of compression by the normal velocity it left. An overshot
    /// slice ends the stage, and so does the last one that the guard allows.
    pub fn compressed(&mut self, vy: Scalar) -> (r: Compressed)
        requires
            old(self).wf(),
            !old(self).over,
        ensures
            final(self).wf(),
            final(self).steps == old(self).steps,
            vy.at_most(num(ZERO)) ==> r == Compressed::Overshot && final(self).over
                && final(self).taken == old(self).taken,
            !vy.at_most(num(ZERO)) ==> r == Compressed::Kept && final(self).taken == old(self).taken
                + 1 && final(self).over == (final(self).taken > SLICES_PER_STEP
                * final(self).steps),
            final(self).budget() < old(self).budget(),
    {
        if vy.le(num(ZERO)) {
            self.over = true;
            Compressed::Overshot
        } else {
            self.taken += 1;
            if self.taken > SLICES_PER_STEP * (self.steps as u64) {
                self.over = true;
            }
            Compressed::Kept
        }
    }

    /// Choose the next slice of restitution: `returned` of the `target` work has
    /// been given back, a full slice would bring it to `after`, and `push` is the
    /// work per impulse.
    pub fn restoring(
        &mut self,
        returned: Scalar,
        target: Scalar,
        after: Scalar,
        push: Scalar,
    ) -> (r: Restoring)
        requires
            old(self).wf(),
        ensures
            final(self).wf(),
            final(self).steps == old(self).steps,
            r == (if old(self).over || !returned.less(target) {
                Restoring::Done
            } else if target.less(after) && num(PUSH_VANISHED).less(push) {
                Restoring::Last
            } else {
                Restoring::Full
            }),
            r == Restoring::Done ==> *final(self) == *old(self),
            r == Restoring::Last ==> final(self).over && final(self).taken == old(self).taken,
            r == Restoring::Full ==> final(self).taken == old(self).taken + 1 && final(self).over
                == (final(self).taken > SLICES_PER_STEP * final(self).steps),
            r != Restoring::Done ==> final(self).budget() < old(self).budget(),
    {
        if self.over || !returned.lt(target) {
            return Restoring::Done;
        }
        if after.gt(target) && push.gt(num(PUSH_VANISHED)) {
            self.over = true;
            Restoring::Last
        } else {
            self.taken += 1;
            if self.taken > SLICES_PER_STEP * (self.steps as u64) {
                self.over = true;
            }
            Restoring::Full
        }
    }
}

/// How two balls in contact part.
#[derive(Clone, Copy, Debug, PartialEq, Eq, Structural)]
pub enum Collision {
    /// By the closed-form impulse.
    ClosedForm,
    /// By integrating the contact in this many steps.
    Integrated(u32),
    /// They are parting already: nothing to resolve.
    Parting,
}

/// Choose how a collision is resolved, from the step budget and the speed of
/// approach along the line of centers. Only the integration looks at the latter.
pub fn ball_ball_collision(contact_steps: u32, approach: Scalar) -> (c: Collision)
    ensures
        c == (if contact_steps == 0 {
            Collision::ClosedForm
        } else if approach.at_most(num(ZERO)) {
            Collision::Parting
        } else {
            Collision::Integrated(contact_steps)
        }),
{
    if contact_steps == 0 {
        Collision::ClosedForm
    } else if approach.le(num(ZERO)) {
        Collision::Parting
    } else {
        Collision::Integrated(contact_steps)
    }
}

/// Whether a ball-ball contact has stopped slipping.
pub fn stuck(slip: Scalar) -> (r: bool)
    ensures
        r == slip.less(num(SLIP_VANISHED)),
{
    slip.lt(num(SLIP_VANISHED))
}

/// Whether a contact of a cushion impact slips, so that friction acts there.
pub fn slips(slip: Scalar) -> (r: bool)
    ensures
        r == num(SLIP_VANISHED).less(slip),
{
    slip.gt(num(SLIP_VANISHED))
}

/// Whether friction can stop the slip within an impact: the impulse this takes
/// does not exceed the friction cone's `limit`.
pub fn sticks(impulse: Scalar, limit: Scalar) -> (r: bool)
    ensures
        r == impulse.at_most(limit),
{
    impulse.le(limit)
}

} // verus!
