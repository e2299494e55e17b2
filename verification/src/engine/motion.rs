//! Motion of one ball: its phases, and the record that a ball moving alone leaves.

use vstd::prelude::*;

use crate::engine::cushion::Rail;
use crate::model::ball::BallState;
use crate::model::math::{DVec3, SLIP_EPSILON, V_EPSILON};
use crate::model::trajectory::{
    chained, unbroken, MotionPhase, MotionSegment, Trajectory,
};
use crate::scalar::{num, Scalar, INFINITE, ZERO};

verus! {

/// Guard against pathological non-termination.
pub const MAX_SEGMENTS: usize = 100_000;

/// The constant-acceleration motion a ball follows during its current phase.
#[derive(Clone, Copy, Debug, PartialEq, Eq, Structural)]
pub struct Motion {
    pub phase: MotionPhase,
    pub lin_acc: DVec3,
    pub ang_acc: DVec3,
    /// Time until this motion ends on its own (slide to roll, roll to stop, or the end
    /// of the english); infinite for a rest without english.
    pub dur: Scalar,
    /// What ends then: the phase of a moving ball, or `Stationary` where only the
    /// english comes to rest.
    pub ends: MotionPhase,
}

impl Motion {
    pub open spec fn resting() -> Motion {
        Motion {
            phase: MotionPhase::Stationary,
            lin_acc: DVec3::zero_vector(),
            ang_acc: DVec3::zero_vector(),
            dur: num(INFINITE),
            ends: MotionPhase::Stationary,
        }
    }

    /// The motion of a ball that rests.
    pub fn rest() -> (m: Motion)
        ensures
            m == Motion::resting(),
    {
        Motion {
            phase: MotionPhase::Stationary,
            lin_acc: DVec3::zero(),
            ang_acc: DVec3::zero(),
            dur: num(INFINITE),
            ends: MotionPhase::Stationary,
        }
    }
}

/// The phase a ball is in, from the speeds of its contact point and its center: a
/// slipping contact slides, a moving center without slip rolls.
pub fn phase_of(slip: Scalar, speed: Scalar) -> (p: MotionPhase)
    ensures
        p == (if num(SLIP_EPSILON).less(slip) {
            MotionPhase::Sliding
        } else if num(V_EPSILON).less(speed) {
            MotionPhase::Rolling
        } else {
            MotionPhase::Stationary
        }),
{
    if slip.gt(num(SLIP_EPSILON)) {
        MotionPhase::Sliding
    } else if speed.gt(num(V_EPSILON)) {
        MotionPhase::Rolling
    } else {
        MotionPhase::Stationary
    }
}

/// When a motion ends and what ends then: the phase after `natural`, unless the english
/// comes to rest before it, after `spin`.
pub fn first_ending(phase: MotionPhase, natural: Scalar, spin: Scalar) -> (r: (
    Scalar,
    MotionPhase,
))
    ensures
        r == (if spin.less(natural) {
            (spin, MotionPhase::Stationary)
        } else {
            (natural, phase)
        }),
{
    if spin.lt(natural) {
        (spin, MotionPhase::Stationary)
    } else {
        (natural, phase)
    }
}

/// The state after a motion ends on its own: a sliding ball takes the spin of natural
/// roll, a rolling ball stops, and where only the english comes to rest it is gone.
pub open spec fn transitioned(state: BallState, ends: MotionPhase, rolled: DVec3) -> BallState {
    match ends {
        MotionPhase::Sliding => BallState { angular_vel: rolled, ..state },
        MotionPhase::Rolling => BallState { vel: DVec3::zero_vector(), ..state },
        MotionPhase::Stationary => BallState {
            angular_vel: DVec3 { z: num(ZERO), ..state.angular_vel },
            ..state
        },
    }
}

/// Apply the state change that occurs when a motion ends naturally: a sliding ball
/// snaps onto the rolling manifold, whose spin at this velocity is `rolled`; a rolling
/// ball stops; the english that has come to rest is gone.
pub fn apply_transition(state: &mut BallState, ends: MotionPhase, rolled: DVec3)
    ensures
        *final(state) == transitioned(*old(state), ends, rolled),
{
    match ends {
        MotionPhase::Sliding => {
            state.angular_vel = rolled;
        },
        MotionPhase::Rolling => {
            state.vel = DVec3::zero();
        },
        MotionPhase::Stationary => {
            state.angular_vel.z = num(ZERO);
        },
    }
}

/// The segment that `motion` makes from `state` between two times.
pub open spec fn leg(
    state: BallState,
    t_start: Scalar,
    t_end: Scalar,
    motion: Motion,
) -> MotionSegment {
    MotionSegment {
        phase: motion.phase,
        t_start,
        t_end,
        state0: state,
        lin_acc: motion.lin_acc,
        ang_acc: motion.ang_acc,
    }
}

/// Build the motion segment for `motion` starting at `t_start` from `state`.
pub fn segment_for(
    state: BallState,
    t_start: Scalar,
    t_end: Scalar,
    motion: &Motion,
) -> (s: MotionSegment)
    ensures
        s == leg(state, t_start, t_end, *motion),
{
    MotionSegment {
        phase: motion.phase,
        t_start,
        t_end,
        state0: state,
        lin_acc: motion.lin_acc,
        ang_acc: motion.ang_acc,
    }
}

/// Consecutive stationary segments merged into one.
pub open spec fn tidied(segs: Seq<MotionSegment>) -> Seq<MotionSegment>
    decreases segs.len(),
{
    if segs.len() == 0 {
        segs
    } else {
        let done = tidied(segs.drop_last());
        let seg = segs.last();
        if done.len() > 0 && done.last().phase == MotionPhase::Stationary && seg.phase
            == MotionPhase::Stationary {
            done.update(
                done.len() - 1,
                MotionSegment { t_end: seg.t_end, ..done.last() },
            )
        } else {
            done.push(seg)
        }
    }
}

/// The rest that ends a ball's record: where it is, without velocity, from `t` on.
pub open spec fn final_rest(rest: BallState, t: Scalar) -> MotionSegment {
    MotionSegment {
        phase: MotionPhase::Stationary,
        t_start: t,
        t_end: num(INFINITE),
        state0: BallState { vel: DVec3::zero_vector(), ..rest },
        lin_acc: DVec3::zero_vector(),
        ang_acc: DVec3::zero_vector(),
    }
}

/// Turn a ball's raw per-event segments into a tidy trajectory: append the
/// terminal rest, then merge consecutive stationary segments.
pub fn finalize(segs: Vec<MotionSegment>, rest: BallState, t_end: Scalar) -> (t: Trajectory)
    ensures
        t.segments@ == tidied(segs@.push(final_rest(rest, t_end))),
{
    let mut segs = segs;
    let mut state0: BallState = rest;
    state0.vel = DVec3::zero();
    segs.push(
        MotionSegment {
            phase: MotionPhase::Stationary,
            t_start: t_end,
            t_end: num(INFINITE),
            state0,
            lin_acc: DVec3::zero(),
            ang_acc: DVec3::zero(),
        },
    );
    let mut out: Vec<MotionSegment> = Vec::new();
    for k in 0..segs.len()
        invariant
            out@ == tidied(segs@.take(k as int)),
    {
        assert(segs@.take(k + 1).drop_last() =~= segs@.take(k as int));
        let seg: MotionSegment = segs[k];
        let n: usize = out.len();
        if n > 0 && out[n - 1].phase == MotionPhase::Stationary && seg.phase
            == MotionPhase::Stationary {
            let mut last: MotionSegment = out[n - 1];
            last.t_end = seg.t_end;
            out[n - 1] = last;
        } else {
            out.push(seg);
        }
    }
    assert(segs@.take(segs@.len() as int) =~= segs@);
    Trajectory::new(out)
}

/// Merging leaves no two stationary segments in a row.
pub proof fn law_tidied_rests_are_apart(segs: Seq<MotionSegment>)
    ensures
        forall|j: int, k: int|
            0 <= j && k == j + 1 && k < tidied(segs).len() ==> !((#[trigger] tidied(segs)[j]).phase
                == MotionPhase::Stationary && (#[trigger] tidied(segs)[k]).phase
                == MotionPhase::Stationary),
    decreases segs.len(),
{
    if segs.len() > 0 {
        law_tidied_rests_are_apart(segs.drop_last());
    }
}

/// Merging keeps every segment in which the ball moves, in order and as it was.
pub proof fn law_tidied_keeps_motion(segs: Seq<MotionSegment>)
    ensures
        tidied(segs).filter(|s: MotionSegment| s.phase != MotionPhase::Stationary) == segs.filter(
            |s: MotionSegment| s.phase != MotionPhase::Stationary,
        ),
    decreases segs.len(),
{
    let moving = |s: MotionSegment| s.phase != MotionPhase::Stationary;
    reveal(Seq::filter);
    if segs.len() > 0 {
        law_tidied_keeps_motion(segs.drop_last());
        let done = tidied(segs.drop_last());
        if done.len() > 0 && done.last().phase == MotionPhase::Stationary && segs.last().phase
            == MotionPhase::Stationary {
            let changed = MotionSegment { t_end: segs.last().t_end, ..done.last() };
            let merged = tidied(segs);
            assert(merged.drop_last() =~= done.drop_last());
            assert(merged.last() == changed);
        } else {
            assert(tidied(segs).drop_last() =~= done);
            assert(tidied(segs).last() == segs.last());
        }
    }
}

/// Merging a gapless record leaves it gapless, with the same beginning and end.
pub proof fn law_tidied_stays_chained(segs: Seq<MotionSegment>)
    requires
        chained(segs),
    ensures
        chained(tidied(segs)),
        tidied(segs).len() == 0 <==> segs.len() == 0,
        segs.len() > 0 ==> tidied(segs)[0].t_start == segs[0].t_start,
        segs.len() > 0 ==> tidied(segs).last().t_end == segs.last().t_end,
        segs.len() > 0 ==> tidied(segs).last().phase == segs.last().phase,
    decreases segs.len(),
{
    if segs.len() > 0 {
        let front = segs.drop_last();
        law_tidied_stays_chained(front);
        if front.len() > 0 {
            assert(segs[segs.len() - 2].t_end == segs[segs.len() - 1].t_start);
            assert(segs.last().t_start.at_most(segs.last().t_end));
            let done = tidied(front);
            assert(done.last() == done[done.len() - 1]);
        }
    }
}

/// Merging changes no phase: at every instant inside a segment of a gapless
/// record, the merged record has a segment of the same phase.
pub proof fn law_tidied_keeps_phases(segs: Seq<MotionSegment>, k: int, t: Scalar) -> (m: int)
    requires
        chained(segs),
        0 <= k < segs.len(),
        segs[k].holds(t),
    ensures
        0 <= m < tidied(segs).len(),
        tidied(segs)[m].holds(t),
        tidied(segs)[m].phase == segs[k].phase,
    decreases segs.len(),
{
    let front = segs.drop_last();
    let done = tidied(front);
    law_tidied_stays_chained(front);
    law_tidied_stays_chained(segs);
    if k < segs.len() - 1 {
        let m = law_tidied_keeps_phases(front, k, t);
        assert(front[front.len() - 1].t_end == segs[segs.len() - 1].t_start);
        assert(segs[segs.len() - 1].t_start.finite());
        assert(segs[segs.len() - 1].t_start.at_most(segs[segs.len() - 1].t_end));
        if m == done.len() - 1 {
            assert(done[m].t_end == segs.last().t_start);
        }
        m
    } else {
        let m = tidied(segs).len() - 1;
        if front.len() > 0 && m < done.len() {
            assert(front[front.len() - 1].t_end == segs[segs.len() - 1].t_start);
            assert(done[m].t_end == segs.last().t_start);
            assert(done[m].t_start.at_most(done[m].t_end));
        }
        m
    }
}

/// The record of a ball that moves on its own: freely, or between cushions.
#[derive(Clone, Debug)]
pub struct Solo {
    pub segments: Vec<MotionSegment>,
    pub state: BallState,
    pub t: Scalar,
    pub resting: bool,
}

/// What ends a ball's current phase.
#[derive(Clone, Copy, Debug, PartialEq, Eq, Structural)]
pub enum Ending {
    /// It ends on its own at `t`, with the ball as `arrived`; `rolled` is the spin
    /// of natural roll at that velocity.
    Natural { t: Scalar, arrived: BallState, rolled: DVec3 },
    /// A cushion is met at `t` and leaves the ball as `rebound`.
    Cushion { t: Scalar, rebound: BallState },
}

/// What the record of a ball on its own holds.
pub struct SoloRecord {
    pub segments: Seq<MotionSegment>,
    pub state: BallState,
    pub t: Scalar,
    pub resting: bool,
}

impl View for Solo {
    type V = SoloRecord;

    open spec fn view(&self) -> SoloRecord {
        SoloRecord {
            segments: self.segments@,
            state: self.state,
            t: self.t,
            resting: self.resting,
        }
    }
}

impl SoloRecord {
    /// A ball as it is struck: nothing recorded, time 0.
    pub open spec fn start(initial: BallState) -> SoloRecord {
        SoloRecord { segments: seq![], state: initial, t: num(ZERO), resting: false }
    }

    /// A resting ball gets its open-ended last segment; any other ball has moved until
    /// its phase ended as `ending` says.
    pub open spec fn stepped(self, motion: Motion, ending: Ending) -> SoloRecord {
        if motion.phase == MotionPhase::Stationary {
            SoloRecord {
                segments: self.segments.push(leg(self.state, self.t, num(INFINITE), motion)),
                resting: true,
                ..self
            }
        } else {
            match ending {
                Ending::Natural { t, arrived, rolled } => SoloRecord {
                    segments: self.segments.push(leg(self.state, self.t, t, motion)),
                    state: transitioned(arrived, motion.ends, rolled),
                    t,
                    ..self
                },
                Ending::Cushion { t, rebound } => SoloRecord {
                    segments: self.segments.push(leg(self.state, self.t, t, motion)),
                    state: rebound,
                    t,
                    ..self
                },
            }
        }
    }
}

/// What ends the motion of a ball on its own, and how far ahead: a cushion that is met
/// within it, else its own end.
pub fn next_ending(motion: &Motion, cushion: Option<(Scalar, Rail)>) -> (r: (Scalar, Option<Rail>))
    ensures
        r == (match cushion {
            Some((dt, rail)) => (dt, Some(rail)),
            None => (motion.dur, None),
        }),
{
    match cushion {
        Some((dt, rail)) => (dt, Some(rail)),
        None => (motion.dur, None),
    }
}

impl Solo {
    /// The record is gapless up to the current time, and open-ended once the
    /// ball rests.
    pub open spec fn wf(self) -> bool {
        &&& chained(self.segments@)
        &&& self.segments@.len() > 0 ==> self.segments@[0].t_start == num(ZERO)
        &&& self.segments@.len() == 0 ==> self.t == num(ZERO) && !self.resting
        &&& self.resting ==> unbroken(self.segments@) && self.segments@.last().phase
            == MotionPhase::Stationary
        &&& !self.resting && self.segments@.len() > 0 ==> self.segments@.last().t_end == self.t
    }

    pub fn new(initial: BallState) -> (s: Solo)
        ensures
            s.wf(),
            s@ == SoloRecord::start(initial),
    {
        let s: Solo = Solo { segments: Vec::new(), state: initial, t: num(ZERO), resting: false };
        assert(s@.segments =~= seq![]);
        s
    }

    /// Whether the record is complete: the ball rests, or the guard is reached.
    pub fn done(&self) -> (r: bool)
        ensures
            r == (self.resting || self.segments@.len() >= MAX_SEGMENTS),
    {
        self.resting || self.segments.len() >= MAX_SEGMENTS
    }

    /// Record the current phase. A resting ball gets its open-ended last segment;
    /// any other ball moves until the phase ends as `ending` says.
    pub fn step(&mut self, motion: &Motion, ending: Ending)
        requires
            old(self).wf(),
            !old(self).resting,
            old(self).t.finite(),
            motion.phase != MotionPhase::Stationary ==> match ending {
                Ending::Natural { t, .. } => old(self).t.at_most(t),
                Ending::Cushion { t, .. } => old(self).t.at_most(t),
            },
        ensures
            final(self).wf(),
            final(self)@ == old(self)@.stepped(*motion, ending),
    {
        if motion.phase == MotionPhase::Stationary {
            let seg: MotionSegment = segment_for(self.state, self.t, num(INFINITE), motion);
            self.segments.push(seg);
            self.resting = true;
        } else {
            match ending {
                Ending::Natural { t, arrived, rolled } => {
                    let seg: MotionSegment = segment_for(self.state, self.t, t, motion);
                    self.segments.push(seg);
                    let mut state: BallState = arrived;
                    apply_transition(&mut state, motion.ends, rolled);
                    self.state = state;
                    self.t = t;
                },
                Ending::Cushion { t, rebound } => {
                    let seg: MotionSegment = segment_for(self.state, self.t, t, motion);
                    self.segments.push(seg);
                    self.state = rebound;
                    self.t = t;
                },
            }
        }
    }

    /// The trajectory recorded so far.
    pub fn finish(self) -> (t: Trajectory)
        ensures
            t.segments == self.segments,
    {
        Trajectory::new(self.segments)
    }
}

/// What a motion's end changes: a slide's end only the spin, which becomes that of natural
/// roll; a roll's end only the velocity, which is gone; the end of the english only the spin
/// about the vertical, which is gone. The ball stays where it is.
pub proof fn law_transitions_change_one_thing(state: BallState, rolled: DVec3)
    ensures
        ({
            let s = transitioned(state, MotionPhase::Sliding, rolled);
            s.pos == state.pos && s.vel == state.vel && s.angular_vel == rolled
        }),
        ({
            let s = transitioned(state, MotionPhase::Rolling, rolled);
            s.pos == state.pos && s.vel.x.units() == 0 && s.vel.y.units() == 0 && s.vel.z.units()
                == 0 && s.angular_vel == state.angular_vel
        }),
        ({
            let s = transitioned(state, MotionPhase::Stationary, rolled);
            s.pos == state.pos && s.vel == state.vel && s.angular_vel.x == state.angular_vel.x
                && s.angular_vel.y == state.angular_vel.y && s.angular_vel.z.units() == 0
        }),
{
    assert(num(ZERO).magnitude() == 0);
    assert(num(ZERO).units() == 0);
}

/// A segment records its motion: from the state and the time it began, to the time it ended,
/// with the motion's own phase and accelerations. The last one records a rest: where the
/// ball is, without velocity, from then on.
pub proof fn law_segments_record_their_motion(
    state: BallState,
    t_start: Scalar,
    t_end: Scalar,
    motion: Motion,
)
    ensures
        ({
            let s = leg(state, t_start, t_end, motion);
            &&& s.state0 == state && s.t_start == t_start && s.t_end == t_end
            &&& s.phase == motion.phase && s.lin_acc == motion.lin_acc && s.ang_acc
                == motion.ang_acc
        }),
        ({
            let s = final_rest(state, t_start);
            &&& s.phase == MotionPhase::Stationary && s.t_start == t_start && s.t_end.infinite()
                && !s.t_end.is_negative()
            &&& s.state0.pos == state.pos && s.state0.angular_vel == state.angular_vel
            &&& s.state0.vel.x.units() == 0 && s.state0.vel.y.units() == 0
                && s.state0.vel.z.units() == 0
            &&& s.lin_acc.x.units() == 0 && s.lin_acc.y.units() == 0 && s.lin_acc.z.units() == 0
            &&& s.ang_acc.x.units() == 0 && s.ang_acc.y.units() == 0 && s.ang_acc.z.units() == 0
        }),
{
    assert(num(ZERO).magnitude() == 0);
    assert(num(ZERO).units() == 0);
    assert(num(INFINITE).magnitude() == INFINITE);
}

/// A tidy segment begins as one of the record does: the first of its rests, with the state,
/// the time and the motion of that one.
pub proof fn law_tidied_begins_as_recorded(segs: Seq<MotionSegment>, m: int) -> (k: int)
    requires
        0 <= m < tidied(segs).len(),
    ensures
        0 <= k < segs.len(),
        tidied(segs)[m] == (MotionSegment { t_end: tidied(segs)[m].t_end, ..segs[k] }),
        k > 0 ==> !(segs[k - 1].phase == MotionPhase::Stationary && segs[k].phase
            == MotionPhase::Stationary),
        m == tidied(segs).len() - 1 ==> tidied(segs)[m].t_end == segs.last().t_end
            && tidied(segs)[m].phase == segs.last().phase,
    decreases segs.len(),
{
    let front = segs.drop_last();
    let done = tidied(front);
    if m < done.len() {
        let k = law_tidied_begins_as_recorded(front, m);
        assert(front[k] == segs[k]);
        if k > 0 {
            assert(front[k - 1] == segs[k - 1]);
        }
        k
    } else {
        if front.len() > 0 {
            lemma_tidied_nonempty(front);
            let j = law_tidied_begins_as_recorded(front, done.len() - 1);
            assert(front.last() == segs[segs.len() - 2]);
        }
        segs.len() - 1
    }
}

proof fn lemma_tidied_nonempty(segs: Seq<MotionSegment>)
    requires
        segs.len() > 0,
    ensures
        tidied(segs).len() > 0,
{
}

/// What the record of a ball on its own is said to hold is what it holds.
pub proof fn law_solo_says_what_it_holds(s: Solo)
    ensures
        s@.segments == s.segments@,
        s@.state == s.state,
        s@.t == s.t,
        s@.resting == s.resting,
{
}

/// One more step of a ball on its own records one segment, from the state and the time it was
/// in, with the motion it had; a cushion leaves it as it rebounds, and its own end as that end
/// changes it. A ball at rest stays as it is, and its segment never ends.
pub proof fn law_step_records_its_motion(s: SoloRecord, motion: Motion, ending: Ending)
    ensures
        ({
            let q = s.stepped(motion, ending);
            let last = q.segments.last();
            &&& q.segments.len() == s.segments.len() + 1 && q.segments.drop_last() == s.segments
            &&& last.phase == motion.phase && last.t_start == s.t && last.state0 == s.state
                && last.lin_acc == motion.lin_acc && last.ang_acc == motion.ang_acc
            &&& motion.phase == MotionPhase::Stationary ==> q.resting && q.state == s.state && q.t
                == s.t && last.t_end.infinite()
            &&& motion.phase != MotionPhase::Stationary ==> q.resting == s.resting && last.t_end
                == q.t
            &&& motion.phase != MotionPhase::Stationary && ending is Cushion ==> q.t
                == ending->Cushion_t && q.state == ending->rebound
            &&& motion.phase != MotionPhase::Stationary && ending is Natural ==> q.t
                == ending->Natural_t && q.state == transitioned(
                ending->arrived,
                motion.ends,
                ending->rolled,
            )
        }),
{
    assert(s.stepped(motion, ending).segments.drop_last() =~= s.segments);
    assert(num(INFINITE).infinite());
}

} // verus!
