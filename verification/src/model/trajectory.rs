//! A ball's motion over time, as a sequence of constant-acceleration segments.

use vstd::prelude::*;

use crate::model::ball::BallState;
use crate::model::math::DVec3;
use crate::scalar::{num, Scalar, ZERO};

verus! {

/// Which regime of motion a segment describes.
#[derive(Clone, Copy, Debug, PartialEq, Eq, Structural)]
pub enum MotionPhase {
    /// The contact point is slipping on the cloth; kinetic friction dominates.
    Sliding,
    /// Rolling without slipping; only rolling resistance decelerates the ball.
    Rolling,
    /// At rest (the final segment; open-ended in time).
    Stationary,
}

/// One constant-acceleration phase of a single ball's motion.
#[derive(Clone, Copy, Debug, PartialEq, Eq, Structural)]
pub struct MotionSegment {
    pub phase: MotionPhase,
    pub t_start: Scalar,
    /// End time; infinite for the final stationary segment.
    pub t_end: Scalar,
    pub state0: BallState,
    /// Constant linear acceleration during the segment (m/s²).
    pub lin_acc: DVec3,
    /// Constant angular acceleration during the segment (rad/s²).
    pub ang_acc: DVec3,
}

/// Where a time falls on a trajectory.
#[derive(Clone, Copy, Debug, PartialEq, Eq, Structural)]
pub enum Lookup {
    /// Before the first segment starts: the initial state holds.
    Before,
    /// Inside the segment of this index.
    Within(usize),
    /// In no segment: the resting state holds.
    Rest,
}

impl MotionSegment {
    pub open spec fn holds(self, t: Scalar) -> bool {
        self.t_start.at_most(t) && (t.less(self.t_end) || self.t_end.infinite())
    }

    /// Whether time `t` falls within this segment's half-open interval.
    pub fn contains(&self, t: Scalar) -> (r: bool)
        ensures
            r == self.holds(t),
    {
        t.ge(self.t_start) && (t.lt(self.t_end) || self.t_end.is_infinite())
    }

    /// The time since the segment's start at which its motion is evaluated:
    /// `raw` is the time since the start, moved into the segment's span.
    pub fn elapsed(&self, raw: Scalar, duration: Scalar) -> (dt: Scalar)
        requires
            !self.t_end.infinite() ==> num(ZERO).at_most(duration),
        ensures
            self.t_end.infinite() ==> dt == raw.greater_of(num(ZERO)),
            !self.t_end.infinite() ==> dt == raw.clamped(num(ZERO), duration),
    {
        let zero: Scalar = num(ZERO);
        if self.t_end.is_infinite() {
            raw.max(zero)
        } else {
            raw.clamp(zero, duration)
        }
    }
}

/// A single ball's full motion, start to rest.
#[derive(Clone, Debug)]
pub struct Trajectory {
    pub segments: Vec<MotionSegment>,
}

impl Trajectory {
    pub fn new(segments: Vec<MotionSegment>) -> (t: Trajectory)
        ensures
            t.segments == segments,
    {
        Trajectory { segments }
    }

    pub open spec fn rest_time(self) -> Scalar {
        if self.segments@.len() == 0 {
            num(ZERO)
        } else {
            self.segments@.last().t_start
        }
    }

    /// Time at which the ball comes to rest (start of the final stationary
    /// segment), or 0 for an empty trajectory.
    pub fn time_to_rest(&self) -> (t: Scalar)
        ensures
            t == self.rest_time(),
    {
        let n: usize = self.segments.len();
        if n == 0 {
            num(ZERO)
        } else {
            self.segments[n - 1].t_start
        }
    }

    /// Which state holds at time `t`: before the start the initial one, inside
    /// a segment the one its motion gives, elsewhere the resting one.
    pub fn locate(&self, t: Scalar) -> (r: Lookup)
        ensures
            match r {
                Lookup::Within(k) => {
                    &&& k < self.segments@.len()
                    &&& self.segments@[k as int].holds(t)
                    &&& forall|j: int| 0 <= j < k ==> !(#[trigger] self.segments@[j]).holds(t)
                },
                Lookup::Before => {
                    &&& self.segments@.len() > 0
                    &&& t.less(self.segments@[0].t_start)
                    &&& forall|j: int|
                        0 <= j < self.segments@.len() ==> !(#[trigger] self.segments@[j]).holds(t)
                },
                Lookup::Rest => {
                    &&& self.segments@.len() == 0 || !t.less(self.segments@[0].t_start)
                    &&& forall|j: int|
                        0 <= j < self.segments@.len() ==> !(#[trigger] self.segments@[j]).holds(t)
                },
            },
    {
        for k in 0..self.segments.len()
            invariant
                forall|j: int| 0 <= j < k ==> !(#[trigger] self.segments@[j]).holds(t),
        {
            if self.segments[k].contains(t) {
                return Lookup::Within(k);
            }
        }
        if self.segments.len() > 0 && t.lt(self.segments[0].t_start) {
            Lookup::Before
        } else {
            Lookup::Rest
        }
    }

    /// The resting state of the ball: the state the last segment starts from, or
    /// the default state for an empty trajectory.
    pub fn final_state(&self) -> (s: BallState)
        ensures
            self.segments@.len() == 0 ==> s == BallState::resting_at(DVec3::zero_vector()),
            self.segments@.len() > 0 ==> s == self.segments@.last().state0,
    {
        let n: usize = self.segments.len();
        if n == 0 {
            BallState::default()
        } else {
            self.segments[n - 1].state0
        }
    }
}

impl Default for Trajectory {
    fn default() -> (t: Trajectory)
        ensures
            t.segments@.len() == 0,
    {
        Trajectory { segments: Vec::new() }
    }
}

/// Segments that follow one another without a gap: each ends where the next one
/// starts, and no segment runs backwards.
pub open spec fn chained(segments: Seq<MotionSegment>) -> bool {
    &&& forall|j: int, k: int|
        0 <= j && k == j + 1 && k < segments.len() ==> (#[trigger] segments[j]).t_end == (
        #[trigger] segments[k]).t_start
    &&& forall|k: int|
        0 <= k < segments.len() ==> (#[trigger] segments[k]).t_start.at_most(segments[k].t_end)
    &&& forall|k: int| 0 <= k < segments.len() ==> (#[trigger] segments[k]).t_start.finite()
}

/// A gapless trajectory whose last segment, and no other, is open-ended.
pub open spec fn unbroken(segments: Seq<MotionSegment>) -> bool {
    chained(segments) && segments.len() > 0 && segments.last().t_end.infinite()
}

proof fn lemma_starts_ordered(segments: Seq<MotionSegment>, j: int, k: int)
    requires
        unbroken(segments),
        0 <= j <= k < segments.len(),
    ensures
        segments[j].t_start.at_most(segments[k].t_start),
    decreases k - j,
{
    if j < k {
        lemma_starts_ordered(segments, j, k - 1);
        assert(segments[k - 1].t_start.at_most(segments[k - 1].t_end));
        assert(segments[k - 1].t_end == segments[k].t_start);
    }
}

proof fn lemma_some_segment_holds(segments: Seq<MotionSegment>, t: Scalar, from: int) -> (k: int)
    requires
        unbroken(segments),
        0 <= from < segments.len(),
        segments[from].t_start.at_most(t),
    ensures
        from <= k < segments.len(),
        segments[k].holds(t),
    decreases segments.len() - from,
{
    if segments[from].holds(t) {
        from
    } else {
        assert(from < segments.len() - 1);
        assert(segments[from].t_end == segments[from + 1].t_start);
        lemma_some_segment_holds(segments, t, from + 1)
    }
}

/// Every instant from the start on falls into exactly one segment of an unbroken
/// trajectory.
pub proof fn law_one_segment_per_instant(segments: Seq<MotionSegment>, t: Scalar) -> (k: int)
    requires
        unbroken(segments),
        segments[0].t_start.at_most(t),
    ensures
        0 <= k < segments.len(),
        segments[k].holds(t),
        forall|j: int| 0 <= j < segments.len() && j != k ==> !(#[trigger] segments[j]).holds(t),
{
    let k = lemma_some_segment_holds(segments, t, 0);
    assert forall|j: int| 0 <= j < segments.len() && j != k implies !(
    #[trigger] segments[j]).holds(t) by {
        if segments[j].holds(t) {
            if j < k {
                assert(segments[j].t_end == segments[j + 1].t_start);
                lemma_starts_ordered(segments, j + 1, k);
            } else {
                assert(segments[k].t_end == segments[k + 1].t_start);
                lemma_starts_ordered(segments, k + 1, j);
            }
        }
    }
    k
}

/// A segment holds from its start on and up to its end, which is no longer its own; an
/// open-ended one holds from its start on.
pub proof fn law_segments_are_half_open(s: MotionSegment, t: Scalar)
    ensures
        t.less(s.t_start) ==> !s.holds(t),
        s.t_end.finite() && s.t_end.at_most(t) ==> !s.holds(t),
        s.t_start.at_most(t) && t.less(s.t_end) ==> s.holds(t),
        s.t_start.at_most(t) && s.t_end.infinite() ==> s.holds(t),
{
}

/// A ball that comes to rest does so where its last segment starts.
pub proof fn law_rest_begins_with_the_last_segment(t: Trajectory)
    ensures
        t.segments@.len() > 0 ==> t.rest_time() == t.segments@[t.segments@.len() - 1].t_start,
        t.segments@.len() == 0 ==> t.rest_time().bits == 0,
{
}

} // verus!
