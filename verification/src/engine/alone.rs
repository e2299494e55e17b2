//! One ball in the multi-ball scheduler is that ball on its own.

use vstd::prelude::*;

use crate::engine::cushion::Rail;
use crate::engine::motion::{
    final_rest, leg, tidied, Ending, Motion, SoloRecord, MAX_SEGMENTS,
};
use crate::engine::world::{
    all_meetings, all_solo, candidates, meetings_of, soonest_at, solo_candidates, Candidate,
    Event, Progress, MAX_EVENTS,
};
use crate::model::ball::BallState;
use crate::model::math::DVec3;
use crate::model::trajectory::{MotionPhase, MotionSegment};
use crate::scalar::{num, Scalar, INFINITE, ZERO};

verus! {

/// One step of a ball alone on the table: its motion, the cushion ahead within it if there
/// is one, when the step ends, how the ball arrives there, its spin of natural roll then,
/// and how it leaves the cushion.
pub struct Step {
    pub motion: Motion,
    pub cushion: Option<(Scalar, Rail)>,
    pub t_next: Scalar,
    pub arrived: BallState,
    pub rolled: DVec3,
    pub rebound: BallState,
}

impl Step {
    /// The ball moves, its motion ends in finite time, and a cushion ahead is met before
    /// that, not at the same moment.
    pub open spec fn wf(self) -> bool {
        &&& self.motion.phase != MotionPhase::Stationary
        &&& num(ZERO).less(self.motion.dur) && self.motion.dur.finite()
        &&& match self.cushion {
            Some((dt, _)) => num(ZERO).less(dt) && dt.finite() && dt.less(self.motion.dur),
            None => true,
        }
    }

    /// How the ball on its own ends the step.
    pub open spec fn ending(self) -> Ending {
        match self.cushion {
            Some(_) => Ending::Cushion { t: self.t_next, rebound: self.rebound },
            None => Ending::Natural { t: self.t_next, arrived: self.arrived, rolled: self.rolled },
        }
    }

    /// The event that ends the step in the scheduler.
    pub open spec fn event(self) -> Candidate {
        match self.cushion {
            Some((dt, rail)) => Candidate { dt, event: Event::Cushion(0, rail) },
            None => Candidate {
                dt: self.motion.dur,
                event: Event::Transition(0, self.motion.ends),
            },
        }
    }

    /// The scheduler after the step.
    pub open spec fn taken(self, p: Progress) -> Progress {
        let there = p.advanced(seq![self.motion], self.t_next, seq![self.arrived]);
        match self.event().event {
            Event::Cushion(_, _) => there.bounced(0, self.rebound),
            _ => there.turned(0, self.motion.ends, self.rolled),
        }
    }
}

/// The scheduler after the first `n` steps of a ball alone.
pub open spec fn scheduled(p: Progress, steps: Seq<Step>, n: int) -> Progress
    decreases n,
{
    if n <= 0 {
        p
    } else {
        steps[n - 1].taken(scheduled(p, steps, n - 1))
    }
}

/// The record of a ball on its own after the first `n` steps.
pub open spec fn recorded(s: SoloRecord, steps: Seq<Step>, n: int) -> SoloRecord
    decreases n,
{
    if n <= 0 {
        s
    } else {
        recorded(s, steps, n - 1).stepped(steps[n - 1].motion, steps[n - 1].ending())
    }
}

proof fn lemma_alone_candidates(
    m: Motion,
    cushion: Option<(Scalar, Rail)>,
    meets: Seq<Vec<Option<Scalar>>>,
)
    ensures
        candidates(seq![m], seq![cushion], meets) == solo_candidates(m, cushion, 0),
{
    reveal_with_fuel(all_solo, 2);
    reveal_with_fuel(all_meetings, 2);
    assert(meetings_of(seq![m], meets[0]@, 0, 1) =~= seq![]);
    assert(all_meetings(seq![m], meets, 1) =~= seq![]);
    assert(all_solo(seq![m], seq![cushion], 1) =~= solo_candidates(m, cushion, 0));
    assert(candidates(seq![m], seq![cushion], meets) =~= solo_candidates(m, cushion, 0));
}

/// Of one ball alone, the scheduler takes the very event that ends the step of the ball on
/// its own: the cushion if one is ahead, else the end of its motion. For a ball at rest
/// nothing lies ahead.
pub proof fn law_alone_takes_the_step(
    step: Step,
    meets: Seq<Vec<Option<Scalar>>>,
    cushion: Option<(Scalar, Rail)>,
)
    requires
        step.wf(),
    ensures
        ({
            let cs = candidates(seq![step.motion], seq![step.cushion], meets);
            &&& exists|k: int| #[trigger] soonest_at(cs, k)
            &&& forall|k: int| #[trigger] soonest_at(cs, k) ==> cs[k] == step.event()
        }),
        candidates(seq![Motion::resting()], seq![cushion], meets).len() == 0,
{
    lemma_alone_candidates(step.motion, step.cushion, meets);
    lemma_alone_candidates(Motion::resting(), cushion, meets);
    let cs = candidates(seq![step.motion], seq![step.cushion], meets);
    assert(num(INFINITE).infinite());
    if step.cushion is Some {
        assert(cs.len() == 2);
        assert(cs[0].viable() && cs[1].viable());
        assert(soonest_at(cs, 1));
    } else {
        assert(cs.len() == 1);
        assert(cs[0].viable());
        assert(soonest_at(cs, 0));
    }
}

proof fn lemma_moving_is_tidy(segs: Seq<MotionSegment>)
    requires
        forall|k: int|
            0 <= k < segs.len() ==> (#[trigger] segs[k]).phase != MotionPhase::Stationary,
    ensures
        tidied(segs) == segs,
    decreases segs.len(),
{
    if segs.len() > 0 {
        lemma_moving_is_tidy(segs.drop_last());
        assert(segs.drop_last().push(segs.last()) =~= segs);
    }
}

proof fn lemma_alone_runs(initial: BallState, steps: Seq<Step>, n: int)
    requires
        0 <= n <= steps.len(),
        forall|k: int| 0 <= k < steps.len() ==> (#[trigger] steps[k]).wf(),
    ensures
        ({
            let p = scheduled(Progress::start(seq![initial]), steps, n);
            let s = recorded(SoloRecord::start(initial), steps, n);
            &&& p.states =~= seq![s.state]
            &&& p.raw =~= seq![s.segments]
            &&& p.t == s.t
            &&& p.left == MAX_EVENTS - n
            &&& !s.resting
            &&& s.segments.len() == n
            &&& forall|k: int|
                0 <= k < s.segments.len() ==> (#[trigger] s.segments[k]).phase
                    != MotionPhase::Stationary
        }),
    decreases n,
{
    if n > 0 {
        lemma_alone_runs(initial, steps, n - 1);
        let p = scheduled(Progress::start(seq![initial]), steps, n - 1);
        let s = recorded(SoloRecord::start(initial), steps, n - 1);
        let step = steps[n - 1];
        assert(step.wf());
        let next = s.stepped(step.motion, step.ending());
        let seg = leg(s.state, s.t, step.t_next, step.motion);
        assert(next.segments == s.segments.push(seg));
        assert(p.raw[0] == s.segments && p.states[0] == s.state);
        let there = p.advanced(seq![step.motion], step.t_next, seq![step.arrived]);
        assert(there.raw =~= seq![s.segments.push(seg)]);
        assert(step.taken(p).states =~= seq![next.state]);
        assert forall|k: int| 0 <= k < next.segments.len() implies (
        #[trigger] next.segments[k]).phase != MotionPhase::Stationary by {
            if k < n - 1 {
                assert(next.segments[k] == s.segments[k]);
            }
        }
    } else {
        let s = SoloRecord::start(initial);
        assert(Progress::start(seq![initial]).raw =~= seq![s.segments]);
    }
}

/// The scheduler on one ball is the run of that ball on its own. Over the same steps, as
/// many as the guard of a ball on its own allows, both keep the ball in the same state at
/// the same time, and when it rests the two records are the same up to that moment: the
/// same segments, then a rest from the same time on, in the same place and with the same
/// spin. Where the ball rests without velocity, the records are equal.
pub proof fn law_alone_is_solo(initial: BallState, steps: Seq<Step>, ending: Ending)
    requires
        forall|k: int| 0 <= k < steps.len() ==> (#[trigger] steps[k]).wf(),
        steps.len() <= MAX_SEGMENTS,
    ensures
        ({
            let p = scheduled(Progress::start(seq![initial]), steps, steps.len() as int);
            let s = recorded(SoloRecord::start(initial), steps, steps.len() as int);
            let solo = s.stepped(Motion::resting(), ending).segments;
            let alone = p.finished(0);
            &&& p.left > 0
            &&& p.states == seq![s.state]
            &&& p.t == s.t
            &&& alone.drop_last() == solo.drop_last()
            &&& alone.drop_last() == s.segments
            &&& alone.last().phase == solo.last().phase
            &&& alone.last().t_start == solo.last().t_start
            &&& alone.last().t_end == solo.last().t_end
            &&& alone.last().state0.pos == solo.last().state0.pos
            &&& alone.last().state0.angular_vel == solo.last().state0.angular_vel
            &&& s.state.vel == DVec3::zero_vector() ==> alone == solo
        }),
{
    let n = steps.len() as int;
    lemma_alone_runs(initial, steps, n);
    let p = scheduled(Progress::start(seq![initial]), steps, n);
    let s = recorded(SoloRecord::start(initial), steps, n);
    let rest = final_rest(s.state, s.t);
    let all = s.segments.push(rest);
    assert(p.raw[0] == s.segments && p.states[0] == s.state);
    assert(all.drop_last() =~= s.segments);
    lemma_moving_is_tidy(s.segments);
    assert(tidied(all) == all);
    let solo = s.stepped(Motion::resting(), ending).segments;
    assert(solo.drop_last() =~= s.segments);
    if s.state.vel == DVec3::zero_vector() {
        assert(solo.last() == rest);
        assert(all =~= solo);
    }
}

} // verus!
