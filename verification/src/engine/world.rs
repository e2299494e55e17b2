//! The multi-ball event scheduler: the piece that turns per-ball motion, cushions
//! and collisions into a complete shot.
//!
//! Between events every ball follows its own constant-acceleration phase, so the
//! world evolves analytically until the *soonest* of:
//!
//! - a ball's transition (slide to roll, roll to stop, english to rest),
//! - a ball-cushion contact,
//! - a ball-ball contact.
//!
//! Two motions are valid only until the earlier of their transitions; a contact
//! later than that is found again after the transition fires.

use vstd::prelude::*;

use crate::engine::cushion::Rail;
use crate::engine::motion::{
    apply_transition, final_rest, finalize, law_tidied_stays_chained, leg, segment_for, tidied,
    transitioned, Motion,
};
use crate::model::ball::{BallId, BallState};
use crate::model::math::DVec3;
use crate::model::simulation::{ContactEvent, ContactKind, Simulation};
use crate::model::trajectory::{chained, unbroken, MotionPhase, MotionSegment, Trajectory};
use crate::scalar::{num, Scalar, MINUS_INFINITE, ZERO};

verus! {

/// Guard against pathological non-termination.
pub const MAX_EVENTS: u32 = 500_000;

/// Something that ends the current motion of a ball.
#[derive(Clone, Copy, Debug, PartialEq, Eq, Structural)]
pub enum Event {
    Transition(usize, MotionPhase),
    Cushion(usize, Rail),
    BallBall(usize, usize),
}

/// An event, and how far ahead it lies.
#[derive(Clone, Copy, Debug, PartialEq, Eq, Structural)]
pub struct Candidate {
    pub dt: Scalar,
    pub event: Event,
}

impl Candidate {
    /// Only an event at a positive, finite distance can come next.
    pub open spec fn viable(self) -> bool {
        num(ZERO).less(self.dt) && self.dt.finite()
    }
}

/// Whether candidate `k` is the soonest; of candidates at the same distance the
/// first one is.
pub open spec fn soonest_at(cs: Seq<Candidate>, k: int) -> bool {
    &&& 0 <= k < cs.len()
    &&& cs[k].viable()
    &&& forall|j: int|
        0 <= j < cs.len() && (#[trigger] cs[j]).viable() ==> cs[k].dt.at_most(cs[j].dt) && (j < k
            ==> cs[k].dt.less(cs[j].dt))
}

/// The soonest viable candidate.
pub fn soonest(cs: &[Candidate]) -> (r: Option<Candidate>)
    ensures
        match r {
            Some(c) => exists|k: int| #[trigger] soonest_at(cs@, k) && c == cs@[k],
            None => forall|k: int| 0 <= k < cs@.len() ==> !(#[trigger] cs@[k]).viable(),
        },
{
    let mut best: Option<usize> = None;
    for k in 0..cs.len()
        invariant
            match best {
                Some(b) => {
                    &&& b < k
                    &&& cs@[b as int].viable()
                    &&& forall|j: int|
                        0 <= j < k && (#[trigger] cs@[j]).viable() ==> cs@[b as int].dt.at_most(
                            cs@[j].dt,
                        ) && (j < b ==> cs@[b as int].dt.less(cs@[j].dt))
                },
                None => forall|j: int| 0 <= j < k ==> !(#[trigger] cs@[j]).viable(),
            },
    {
        let dt: Scalar = cs[k].dt;
        if dt.gt(num(ZERO)) && dt.is_finite() {
            let sooner: bool = match best {
                Some(b) => dt.lt(cs[b].dt),
                None => true,
            };
            if sooner {
                best = Some(k);
            }
        }
    }
    match best {
        Some(b) => {
            assert(soonest_at(cs@, b as int));
            Some(cs[b])
        },
        None => None,
    }
}

/// Whether a ball has nothing ahead of it: it rests, and its rest has no end.
pub open spec fn spec_inert(m: Motion) -> bool {
    m.phase == MotionPhase::Stationary && m.dur.infinite()
}

pub fn inert(m: &Motion) -> (r: bool)
    ensures
        r == spec_inert(*m),
{
    m.phase == MotionPhase::Stationary && m.dur.is_infinite()
}

/// Whether two balls cannot meet because neither moves.
pub open spec fn spec_both_rest(a: Motion, b: Motion) -> bool {
    a.phase == MotionPhase::Stationary && b.phase == MotionPhase::Stationary
}

pub fn both_rest(a: &Motion, b: &Motion) -> (r: bool)
    ensures
        r == spec_both_rest(*a, *b),
{
    a.phase == MotionPhase::Stationary && b.phase == MotionPhase::Stationary
}

/// How far ahead two motions are both valid: until the earlier transition.
pub fn pair_horizon(a: &Motion, b: &Motion) -> (h: Scalar)
    ensures
        h == a.dur.lesser_of(b.dur),
{
    a.dur.min(b.dur)
}

/// What lies ahead of ball `i` by itself: its transition, then a cushion.
pub open spec fn solo_candidates(m: Motion, cushion: Option<(Scalar, Rail)>, i: int) -> Seq<
    Candidate,
> {
    if spec_inert(m) {
        seq![]
    } else {
        let turn = seq![
            Candidate { dt: m.dur, event: Event::Transition(i as usize, m.ends) },
        ];
        match cushion {
            Some((dt, rail)) => turn.push(
                Candidate { dt, event: Event::Cushion(i as usize, rail) },
            ),
            None => turn,
        }
    }
}

/// What lies ahead of the first `n` balls by themselves.
pub open spec fn all_solo(
    motions: Seq<Motion>,
    cushions: Seq<Option<(Scalar, Rail)>>,
    n: int,
) -> Seq<Candidate>
    decreases n,
{
    if n <= 0 {
        seq![]
    } else {
        all_solo(motions, cushions, n - 1) + solo_candidates(motions[n - 1], cushions[n - 1], n - 1)
    }
}

/// The meetings of ball `i` with the balls after it, up to ball `n - 1`.
pub open spec fn meetings_of(
    motions: Seq<Motion>,
    meets: Seq<Option<Scalar>>,
    i: int,
    n: int,
) -> Seq<Candidate>
    decreases n - i,
{
    if n <= i + 1 {
        seq![]
    } else {
        let row = meetings_of(motions, meets, i, n - 1);
        let j = n - 1;
        match meets[j] {
            Some(dt) => if spec_both_rest(motions[i], motions[j]) {
                row
            } else {
                row.push(Candidate { dt, event: Event::BallBall(i as usize, j as usize) })
            },
            None => row,
        }
    }
}

/// The meetings of the first `rows` balls with the balls after them.
pub open spec fn all_meetings(
    motions: Seq<Motion>,
    meets: Seq<Vec<Option<Scalar>>>,
    rows: int,
) -> Seq<Candidate>
    decreases rows,
{
    if rows <= 0 {
        seq![]
    } else {
        all_meetings(motions, meets, rows - 1) + meetings_of(
            motions,
            meets[rows - 1]@,
            rows - 1,
            motions.len() as int,
        )
    }
}

/// Everything that lies ahead, in the order in which it is considered.
pub open spec fn candidates(
    motions: Seq<Motion>,
    cushions: Seq<Option<(Scalar, Rail)>>,
    meets: Seq<Vec<Option<Scalar>>>,
) -> Seq<Candidate> {
    all_solo(motions, cushions, motions.len() as int) + all_meetings(
        motions,
        meets,
        motions.len() as int,
    )
}

/// Whether an event speaks of balls below `n`, a meeting of two in their order.
pub open spec fn within(event: Event, n: int) -> bool {
    match event {
        Event::Transition(i, _) => i < n,
        Event::Cushion(i, _) => i < n,
        Event::BallBall(i, j) => i < j < n,
    }
}

proof fn lemma_solo_within(
    motions: Seq<Motion>,
    cushions: Seq<Option<(Scalar, Rail)>>,
    n: int,
    bound: int,
)
    requires
        0 <= n <= bound <= usize::MAX,
    ensures
        forall|k: int|
            0 <= k < all_solo(motions, cushions, n).len() ==> within(
                (#[trigger] all_solo(motions, cushions, n)[k]).event,
                bound,
            ),
    decreases n,
{
    if n > 0 {
        lemma_solo_within(motions, cushions, n - 1, bound);
    }
}

proof fn lemma_row_within(
    motions: Seq<Motion>,
    meets: Seq<Option<Scalar>>,
    i: int,
    n: int,
    bound: int,
)
    requires
        0 <= i < bound,
        n <= bound <= usize::MAX,
    ensures
        forall|k: int|
            0 <= k < meetings_of(motions, meets, i, n).len() ==> within(
                (#[trigger] meetings_of(motions, meets, i, n)[k]).event,
                bound,
            ),
    decreases n - i,
{
    if n > i + 1 {
        lemma_row_within(motions, meets, i, n - 1, bound);
    }
}

proof fn lemma_meetings_within(
    motions: Seq<Motion>,
    meets: Seq<Vec<Option<Scalar>>>,
    rows: int,
)
    requires
        rows <= motions.len() <= usize::MAX,
    ensures
        forall|k: int|
            0 <= k < all_meetings(motions, meets, rows).len() ==> within(
                (#[trigger] all_meetings(motions, meets, rows)[k]).event,
                motions.len() as int,
            ),
    decreases rows,
{
    if rows > 0 {
        lemma_meetings_within(motions, meets, rows - 1);
        lemma_row_within(
            motions,
            meets[rows - 1]@,
            rows - 1,
            motions.len() as int,
            motions.len() as int,
        );
    }
}

/// Collect what lies ahead of the balls by themselves.
fn collect_solo(motions: &[Motion], cushions: &[Option<(Scalar, Rail)>]) -> (cs: Vec<Candidate>)
    requires
        cushions@.len() == motions@.len(),
    ensures
        cs@ == all_solo(motions@, cushions@, motions@.len() as int),
{
    let mut cs: Vec<Candidate> = Vec::new();
    for i in 0..motions.len()
        invariant
            cushions@.len() == motions@.len(),
            cs@ == all_solo(motions@, cushions@, i as int),
    {
        let m: Motion = motions[i];
        if !inert(&m) {
            cs.push(Candidate { dt: m.dur, event: Event::Transition(i, m.ends) });
            if let Some((dt, rail)) = cushions[i] {
                cs.push(Candidate { dt, event: Event::Cushion(i, rail) });
            }
        }
        assert(cs@ =~= all_solo(motions@, cushions@, i + 1));
    }
    cs
}

/// Collect the meetings ahead.
fn collect_meetings(motions: &[Motion], meets: &[Vec<Option<Scalar>>]) -> (cs: Vec<Candidate>)
    requires
        meets@.len() == motions@.len(),
        forall|i: int| 0 <= i < meets@.len() ==> (#[trigger] meets@[i])@.len() == motions@.len(),
    ensures
        cs@ == all_meetings(motions@, meets@, motions@.len() as int),
{
    let n: usize = motions.len();
    let mut cs: Vec<Candidate> = Vec::new();
    for i in 0..n
        invariant
            n == motions@.len(),
            meets@.len() == n,
            forall|k: int| 0 <= k < meets@.len() ==> (#[trigger] meets@[k])@.len() == n,
            cs@ == all_meetings(motions@, meets@, i as int),
    {
        let ghost rows = cs@;
        assert(rows + meetings_of(motions@, meets@[i as int]@, i as int, i + 1) =~= rows);
        for j in i + 1..n
            invariant
                i < n,
                n == motions@.len(),
                meets@.len() == n,
                meets@[i as int]@.len() == n,
                cs@ == rows + meetings_of(motions@, meets@[i as int]@, i as int, j as int),
        {
            if !both_rest(&motions[i], &motions[j]) {
                if let Some(dt) = meets[i][j] {
                    cs.push(Candidate { dt, event: Event::BallBall(i, j) });
                }
            }
            assert(cs@ =~= rows + meetings_of(motions@, meets@[i as int]@, i as int, j + 1));
        }
    }
    cs
}

/// The identifier of ball `i`.
pub open spec fn id_of(i: int) -> BallId {
    BallId((i % 256) as u8)
}

pub fn ball_id(i: usize) -> (id: BallId)
    ensures
        id == id_of(i as int),
{
    BallId((i % 256) as u8)
}

/// Whether a contact names balls below `n`, a collision two different ones in
/// their order.
pub open spec fn names_balls(kind: ContactKind, n: int) -> bool {
    match kind {
        ContactKind::Cushion { ball } => exists|i: int| 0 <= i < n && ball == #[trigger] id_of(i),
        ContactKind::BallBall { a, b } => exists|i: int, j: int|
            0 <= i < j < n && a == #[trigger] id_of(i) && b == #[trigger] id_of(j),
    }
}

/// A shot in progress: where every ball is now, what each has done so far, and
/// the contacts logged on the way.
#[derive(Debug)]
pub struct World {
    pub states: Vec<BallState>,
    pub raw: Vec<Vec<MotionSegment>>,
    pub events: Vec<ContactEvent>,
    pub t: Scalar,
    /// Per ball, the time of its last cushion contact.
    pub last_cushion: Vec<Scalar>,
    /// Events that may still be processed.
    pub left: u32,
}

/// What a shot in progress holds.
pub struct Progress {
    pub states: Seq<BallState>,
    pub raw: Seq<Seq<MotionSegment>>,
    pub events: Seq<ContactEvent>,
    pub t: Scalar,
    pub last_cushion: Seq<Scalar>,
    pub left: int,
}

impl View for World {
    type V = Progress;

    open spec fn view(&self) -> Progress {
        Progress {
            states: self.states@,
            raw: Seq::new(self.raw@.len(), |i: int| self.raw@[i]@),
            events: self.events@,
            t: self.t,
            last_cushion: self.last_cushion@,
            left: self.left as int,
        }
    }
}

impl Progress {
    /// The balls as they are struck: nothing recorded, time 0.
    pub open spec fn start(initial: Seq<BallState>) -> Progress {
        Progress {
            states: initial,
            raw: Seq::new(initial.len(), |i: int| seq![]),
            events: seq![],
            t: num(ZERO),
            last_cushion: Seq::new(initial.len(), |i: int| num(MINUS_INFINITE)),
            left: MAX_EVENTS as int,
        }
    }

    /// Every ball has moved on to `t_next`, where it is as `moved` says, and its segment
    /// is recorded.
    pub open spec fn advanced(
        self,
        motions: Seq<Motion>,
        t_next: Scalar,
        moved: Seq<BallState>,
    ) -> Progress {
        Progress {
            states: moved,
            raw: Seq::new(
                self.raw.len(),
                |i: int| self.raw[i].push(leg(self.states[i], self.t, t_next, motions[i])),
            ),
            t: t_next,
            left: self.left - 1,
            ..self
        }
    }

    /// A motion of ball `i` has ended on its own.
    pub open spec fn turned(self, i: int, ends: MotionPhase, rolled: DVec3) -> Progress {
        Progress { states: self.states.update(i, transitioned(self.states[i], ends, rolled)), ..self }
    }

    /// Ball `i` has rebounded from a cushion: the contact is logged and its time kept.
    pub open spec fn bounced(self, i: int, rebound: BallState) -> Progress {
        Progress {
            states: self.states.update(i, rebound),
            events: self.events.push(
                ContactEvent { time: self.t, kind: ContactKind::Cushion { ball: id_of(i) } },
            ),
            last_cushion: self.last_cushion.update(i, self.t),
            ..self
        }
    }

    /// Balls `i` and `j` have collided and leave as `a` and `b`: the contact is logged.
    pub open spec fn collided(self, i: int, j: int, a: BallState, b: BallState) -> Progress {
        Progress {
            states: self.states.update(i, a).update(j, b),
            events: self.events.push(
                ContactEvent {
                    time: self.t,
                    kind: ContactKind::BallBall { a: id_of(i), b: id_of(j) },
                },
            ),
            ..self
        }
    }

    /// The finished record of ball `i`: tidy, and ending in a rest that never ends.
    pub open spec fn finished(self, i: int) -> Seq<MotionSegment> {
        tidied(self.raw[i].push(final_rest(self.states[i], self.t)))
    }
}

/// A ball's record is gapless from 0 to `t`.
pub open spec fn records_to(segs: Seq<MotionSegment>, t: Scalar) -> bool {
    &&& segs.len() == 0 ==> t == num(ZERO)
    &&& segs.len() > 0 ==> segs[0].t_start == num(ZERO) && segs.last().t_end == t
    &&& forall|j: int, k: int|
        0 <= j && k == j + 1 && k < segs.len() ==> (#[trigger] segs[j]).t_end == (
        #[trigger] segs[k]).t_start
    &&& forall|k: int|
        0 <= k < segs.len() ==> num(ZERO).at_most((#[trigger] segs[k]).t_start)
            && segs[k].t_start.at_most(segs[k].t_end) && segs[k].t_end.at_most(t)
}

/// A log in the order of time, up to `t`, over `n` balls.
pub open spec fn logged_to(events: Seq<ContactEvent>, t: Scalar, n: int) -> bool {
    &&& forall|j: int, k: int|
        0 <= j <= k < events.len() ==> (#[trigger] events[j]).time.at_most(
            (#[trigger] events[k]).time,
        )
    &&& forall|k: int|
        0 <= k < events.len() ==> num(ZERO).at_most((#[trigger] events[k]).time)
            && events[k].time.at_most(t) && names_balls(events[k].kind, n)
}

impl World {
    pub open spec fn wf(self) -> bool {
        &&& self.raw@.len() == self.states@.len()
        &&& self.last_cushion@.len() == self.states@.len()
        &&& num(ZERO).at_most(self.t)
        &&& forall|i: int|
            0 <= i < self.raw@.len() ==> records_to((#[trigger] self.raw@[i])@, self.t)
        &&& logged_to(self.events@, self.t, self.states@.len() as int)
    }

    /// The balls as they are struck: nothing recorded, time 0.
    pub fn new(initial: &[BallState]) -> (w: World)
        ensures
            w.wf(),
            w@ == Progress::start(initial@),
    {
        let mut states: Vec<BallState> = Vec::new();
        let mut raw: Vec<Vec<MotionSegment>> = Vec::new();
        let mut last_cushion: Vec<Scalar> = Vec::new();
        for i in 0..initial.len()
            invariant
                states@ == initial@.take(i as int),
                raw@.len() == i,
                forall|k: int| 0 <= k < i ==> (#[trigger] raw@[k])@.len() == 0,
                last_cushion@.len() == i,
                forall|k: int| 0 <= k < i ==> #[trigger] last_cushion@[k] == num(MINUS_INFINITE),
        {
            states.push(initial[i]);
            raw.push(Vec::new());
            last_cushion.push(num(MINUS_INFINITE));
        }
        assert(initial@.take(initial@.len() as int) =~= initial@);
        let w: World = World {
            states,
            raw,
            events: Vec::new(),
            t: num(ZERO),
            last_cushion,
            left: MAX_EVENTS,
        };
        proof {
            assert forall|i: int| 0 <= i < w@.raw.len() implies #[trigger] w@.raw[i]
                =~= Progress::start(initial@).raw[i] by {
                assert(w.raw@[i]@.len() == 0);
            }
            assert(w@.raw =~= Progress::start(initial@).raw);
            assert(w@.events =~= Progress::start(initial@).events);
            assert(w@.last_cushion =~= Progress::start(initial@).last_cushion);
        }
        w
    }

    /// The event that comes next, given the current motion of every ball, the
    /// cushion ahead of each, and how far ahead each two balls meet: `meets[i][j]`
    /// for `i < j`. There is none when nothing lies ahead or the guard is used up.
    pub fn next_event(
        &self,
        motions: &[Motion],
        cushions: &[Option<(Scalar, Rail)>],
        meets: &[Vec<Option<Scalar>>],
    ) -> (r: Option<Candidate>)
        requires
            self.wf(),
            motions@.len() == self.states@.len(),
            cushions@.len() == motions@.len(),
            meets@.len() == motions@.len(),
            forall|i: int|
                0 <= i < meets@.len() ==> (#[trigger] meets@[i])@.len() == motions@.len(),
        ensures
            match r {
                Some(c) => {
                    &&& self.left > 0
                    &&& within(c.event, self.states@.len() as int)
                    &&& exists|k: int| #[trigger]
                        soonest_at(candidates(motions@, cushions@, meets@), k) && c == candidates(
                            motions@,
                            cushions@,
                            meets@,
                        )[k]
                },
                None => self.left == 0 || forall|k: int|
                    0 <= k < candidates(motions@, cushions@, meets@).len() ==> !(
                    #[trigger] candidates(motions@, cushions@, meets@)[k]).viable(),
            },
    {
        if self.left == 0 {
            return None;
        }
        let n: usize = motions.len();
        let mut cs: Vec<Candidate> = collect_solo(motions, cushions);
        let mut pairs: Vec<Candidate> = collect_meetings(motions, meets);
        cs.append(&mut pairs);
        proof {
            lemma_solo_within(motions@, cushions@, n as int, n as int);
            lemma_meetings_within(motions@, meets@, n as int);
            assert(cs@ =~= candidates(motions@, cushions@, meets@));
        }
        soonest(cs.as_slice())
    }

    /// Advance every ball to `t_next`, where it is as `moved` says, recording the
    /// segment it made on the way.
    pub fn advance(&mut self, motions: &[Motion], t_next: Scalar, moved: Vec<BallState>)
        requires
            old(self).wf(),
            old(self).left > 0,
            motions@.len() == old(self).states@.len(),
            moved@.len() == old(self).states@.len(),
            old(self).t.at_most(t_next),
        ensures
            final(self).wf(),
            final(self)@ == old(self)@.advanced(motions@, t_next, moved@),
    {
        let n: usize = self.states.len();
        for i in 0..n
            invariant
                n == self.states@.len(),
                n == motions@.len(),
                self.raw@.len() == n,
                old(self).raw@.len() == n,
                self.states@ == old(self).states@,
                self.t == old(self).t,
                self.events@ == old(self).events@,
                self.last_cushion@ == old(self).last_cushion@,
                self.left == old(self).left,
                forall|k: int|
                    0 <= k < i ==> (#[trigger] self.raw@[k])@ == old(self).raw@[k]@.push(
                        leg(old(self).states@[k], old(self).t, t_next, motions@[k]),
                    ),
                forall|k: int| i <= k < n ==> #[trigger] self.raw@[k] == old(self).raw@[k],
        {
            let seg: MotionSegment = segment_for(self.states[i], self.t, t_next, &motions[i]);
            self.raw[i].push(seg);
        }
        self.states = moved;
        self.t = t_next;
        self.left -= 1;
        assert forall|i: int| 0 <= i < self.raw@.len() implies records_to(
            (#[trigger] self.raw@[i])@,
            self.t,
        ) by {
            assert(records_to(old(self).raw@[i]@, old(self).t));
        }
        assert(self@.raw =~= old(self)@.advanced(motions@, t_next, moved@).raw);
    }

    /// A motion of ball `i` ends on its own, as `ends` says; `rolled` is its spin of
    /// natural roll.
    pub fn transition(&mut self, i: usize, ends: MotionPhase, rolled: DVec3)
        requires
            old(self).wf(),
            i < old(self).states@.len(),
        ensures
            final(self).wf(),
            final(self)@ == old(self)@.turned(i as int, ends, rolled),
    {
        let mut state: BallState = self.states[i];
        apply_transition(&mut state, ends, rolled);
        self.states[i] = state;
    }

    /// Ball `i` rebounds from a cushion: the contact is logged and its time kept.
    pub fn cushion(&mut self, i: usize, rebound: BallState)
        requires
            old(self).wf(),
            i < old(self).states@.len(),
        ensures
            final(self).wf(),
            final(self)@ == old(self)@.bounced(i as int, rebound),
    {
        self.states[i] = rebound;
        self.last_cushion[i] = self.t;
        self.events.push(
            ContactEvent { time: self.t, kind: ContactKind::Cushion { ball: ball_id(i) } },
        );
    }

    /// Balls `i` and `j` collide and leave as `a` and `b`: the contact is logged.
    pub fn collision(&mut self, i: usize, j: usize, a: BallState, b: BallState)
        requires
            old(self).wf(),
            i < j < old(self).states@.len(),
        ensures
            final(self).wf(),
            final(self)@ == old(self)@.collided(i as int, j as int, a, b),
    {
        self.states[i] = a;
        self.states[j] = b;
        self.events.push(
            ContactEvent {
                time: self.t,
                kind: ContactKind::BallBall { a: ball_id(i), b: ball_id(j) },
            },
        );
    }

    /// The shot as a whole: every ball's tidy trajectory, ending in a rest that
    /// never ends, and the log.
    pub fn finish(self) -> (sim: Simulation)
        requires
            self.wf(),
        ensures
            sim.trajectories@.len() == self.states@.len(),
            forall|i: int|
                0 <= i < self.states@.len() ==> (#[trigger] sim.trajectories@[i]).segments@
                    == self@.finished(i),
            sim.events@ == self.events@,
            logged_to(sim.events@, self.t, self.states@.len() as int),
            self.t.finite() ==> forall|i: int|
                0 <= i < self.states@.len() ==> unbroken(
                    (#[trigger] sim.trajectories@[i]).segments@,
                ) && sim.trajectories@[i].segments@[0].t_start == num(ZERO),
    {
        let ghost whole = self;
        let mut raw = self.raw;
        let mut trajectories: Vec<Trajectory> = Vec::new();
        let n: usize = self.states.len();
        for i in 0..n
            invariant
                n == whole.states@.len(),
                whole.wf(),
                self.states@ == whole.states@,
                self.t == whole.t,
                raw@.len() == n,
                forall|k: int| i <= k < n ==> #[trigger] raw@[k] == whole.raw@[k],
                trajectories@.len() == i,
                forall|k: int|
                    0 <= k < i ==> (#[trigger] trajectories@[k]).segments@ == tidied(
                        whole.raw@[k]@.push(final_rest(whole.states@[k], whole.t)),
                    ),
                whole.t.finite() ==> forall|k: int|
                    0 <= k < i ==> unbroken((#[trigger] trajectories@[k]).segments@)
                        && trajectories@[k].segments@[0].t_start == num(ZERO),
        {
            let mut segs: Vec<MotionSegment> = Vec::new();
            std::mem::swap(&mut segs, &mut raw[i]);
            let rest: BallState = self.states[i];
            proof {
                assert(segs@ == whole.raw@[i as int]@);
                assert(records_to(segs@, whole.t));
                if whole.t.finite() {
                    let all = segs@.push(final_rest(rest, whole.t));
                    assert(chained(all));
                    law_tidied_stays_chained(all);
                }
            }
            trajectories.push(finalize(segs, rest, self.t));
        }
        Simulation { trajectories, events: self.events }
    }
}

/// What lies ahead of every ball is considered: the end of its motion and the cushion it
/// meets, unless it rests for good, and its meeting with every other ball, unless both rest.
pub proof fn law_everything_ahead_is_considered(
    motions: Seq<Motion>,
    cushions: Seq<Option<(Scalar, Rail)>>,
    meets: Seq<Vec<Option<Scalar>>>,
    i: int,
    j: int,
)
    requires
        0 <= i < motions.len() <= usize::MAX,
        cushions.len() == motions.len(),
    ensures
        ({
            let cs = candidates(motions, cushions, meets);
            let m = motions[i];
            let rests = m.phase == MotionPhase::Stationary && m.dur.infinite();
            &&& !rests ==> cs.contains(
                Candidate { dt: m.dur, event: Event::Transition(i as usize, m.ends) },
            )
            &&& !rests && cushions[i] is Some ==> cs.contains(
                Candidate {
                    dt: (cushions[i]->0).0,
                    event: Event::Cushion(i as usize, (cushions[i]->0).1),
                },
            )
            &&& i < j < motions.len() && meets[i]@[j] is Some && !(m.phase
                == MotionPhase::Stationary && motions[j].phase == MotionPhase::Stationary)
                ==> cs.contains(
                Candidate {
                    dt: meets[i]@[j]->0,
                    event: Event::BallBall(i as usize, j as usize),
                },
            )
        }),
{
    let n = motions.len() as int;
    let solo = all_solo(motions, cushions, n);
    let pairs = all_meetings(motions, meets, n);
    let cs = candidates(motions, cushions, meets);
    lemma_solo_holds(motions, cushions, n, i);
    assert forall|c: Candidate| #[trigger] solo.contains(c) implies cs.contains(c) by {
        let k = choose|k: int| 0 <= k < solo.len() && solo[k] == c;
        assert(cs[k] == c);
    }
    if i < j < n && meets[i]@[j] is Some && !spec_both_rest(motions[i], motions[j]) {
        let row = meetings_of(motions, meets[i]@, i, n);
        let c = Candidate {
            dt: meets[i]@[j]->0,
            event: Event::BallBall(i as usize, j as usize),
        };
        lemma_row_holds(motions, meets[i]@, i, n, j);
        let k = choose|k: int| 0 <= k < row.len() && row[k] == c;
        lemma_rows_hold(motions, meets, n, i, k);
        let x = choose|x: int| 0 <= x < pairs.len() && pairs[x] == c;
        assert(cs[solo.len() + x] == c);
    }
}

proof fn lemma_solo_holds(
    motions: Seq<Motion>,
    cushions: Seq<Option<(Scalar, Rail)>>,
    n: int,
    i: int,
)
    requires
        0 <= i < n <= motions.len(),
    ensures
        ({
            let cs = all_solo(motions, cushions, n);
            let m = motions[i];
            &&& !spec_inert(m) ==> cs.contains(
                Candidate { dt: m.dur, event: Event::Transition(i as usize, m.ends) },
            )
            &&& !spec_inert(m) && cushions[i] is Some ==> cs.contains(
                Candidate {
                    dt: (cushions[i]->0).0,
                    event: Event::Cushion(i as usize, (cushions[i]->0).1),
                },
            )
        }),
    decreases n,
{
    let cs = all_solo(motions, cushions, n);
    let before = all_solo(motions, cushions, n - 1);
    let own = solo_candidates(motions[n - 1], cushions[n - 1], n - 1);
    if i < n - 1 {
        lemma_solo_holds(motions, cushions, n - 1, i);
        assert forall|c: Candidate| #[trigger] before.contains(c) implies cs.contains(c) by {
            let k = choose|k: int| 0 <= k < before.len() && before[k] == c;
            assert(cs[k] == c);
        }
    } else if !spec_inert(motions[i]) {
        assert(cs[before.len() as int] == own[0]);
        if cushions[i] is Some {
            assert(cs[before.len() as int + 1] == own[1]);
        }
    }
}

proof fn lemma_row_holds(
    motions: Seq<Motion>,
    meets: Seq<Option<Scalar>>,
    i: int,
    n: int,
    j: int,
)
    requires
        i < j < n,
        meets[j] is Some,
        !spec_both_rest(motions[i], motions[j]),
    ensures
        meetings_of(motions, meets, i, n).contains(
            Candidate { dt: meets[j]->0, event: Event::BallBall(i as usize, j as usize) },
        ),
    decreases n - i,
{
    let row = meetings_of(motions, meets, i, n);
    let before = meetings_of(motions, meets, i, n - 1);
    let c = Candidate { dt: meets[j]->0, event: Event::BallBall(i as usize, j as usize) };
    if j < n - 1 {
        lemma_row_holds(motions, meets, i, n - 1, j);
        let k = choose|k: int| 0 <= k < before.len() && before[k] == c;
        assert(row[k] == c);
    } else {
        assert(row[before.len() as int] == c);
    }
}

proof fn lemma_rows_hold(
    motions: Seq<Motion>,
    meets: Seq<Vec<Option<Scalar>>>,
    rows: int,
    i: int,
    k: int,
)
    requires
        0 <= i < rows,
        0 <= k < meetings_of(motions, meets[i]@, i, motions.len() as int).len(),
    ensures
        all_meetings(motions, meets, rows).contains(
            meetings_of(motions, meets[i]@, i, motions.len() as int)[k],
        ),
    decreases rows,
{
    let all = all_meetings(motions, meets, rows);
    let before = all_meetings(motions, meets, rows - 1);
    let c = meetings_of(motions, meets[i]@, i, motions.len() as int)[k];
    if i < rows - 1 {
        lemma_rows_hold(motions, meets, rows - 1, i, k);
        let x = choose|x: int| 0 <= x < before.len() && before[x] == c;
        assert(all[x] == c);
    } else {
        assert(all[before.len() + k] == c);
    }
}

/// Whether a candidate is what it says it is: the end of that ball's motion, the cushion
/// ahead of that ball, or the meeting of those two, at the time given for it.
pub open spec fn truthful(
    motions: Seq<Motion>,
    cushions: Seq<Option<(Scalar, Rail)>>,
    meets: Seq<Vec<Option<Scalar>>>,
    c: Candidate,
) -> bool {
    match c.event {
        Event::Transition(i, ends) => {
            &&& i < motions.len()
            &&& !(motions[i as int].phase == MotionPhase::Stationary
                && motions[i as int].dur.infinite())
            &&& c.dt == motions[i as int].dur
            &&& ends == motions[i as int].ends
        },
        Event::Cushion(i, rail) => {
            &&& i < motions.len()
            &&& !(motions[i as int].phase == MotionPhase::Stationary
                && motions[i as int].dur.infinite())
            &&& cushions[i as int] == Some((c.dt, rail))
        },
        Event::BallBall(i, j) => {
            &&& i < j < motions.len()
            &&& !(motions[i as int].phase == MotionPhase::Stationary && motions[j as int].phase
                == MotionPhase::Stationary)
            &&& meets[i as int]@[j as int] == Some(c.dt)
        },
    }
}

/// Nothing is made up: every candidate is the end of a ball's own motion, the cushion ahead of
/// it, or a meeting of two balls, at the time that was given for it.
pub proof fn law_nothing_ahead_is_made_up(
    motions: Seq<Motion>,
    cushions: Seq<Option<(Scalar, Rail)>>,
    meets: Seq<Vec<Option<Scalar>>>,
    k: int,
)
    requires
        motions.len() <= usize::MAX,
        0 <= k < candidates(motions, cushions, meets).len(),
    ensures
        ({
            let c = candidates(motions, cushions, meets)[k];
            match c.event {
                Event::Transition(i, ends) => i < motions.len() && c.dt == motions[i as int].dur
                    && ends == motions[i as int].ends,
                Event::Cushion(i, rail) => i < motions.len() && cushions[i as int] == Some(
                    (c.dt, rail),
                ),
                Event::BallBall(i, j) => i < j < motions.len() && meets[i as int]@[j as int]
                    == Some(c.dt) && !(motions[i as int].phase == MotionPhase::Stationary
                    && motions[j as int].phase == MotionPhase::Stationary),
            }
        }),
        truthful(motions, cushions, meets, candidates(motions, cushions, meets)[k]),
{
    let n = motions.len() as int;
    let solo = all_solo(motions, cushions, n);
    lemma_solo_truthful(motions, cushions, meets, n);
    lemma_meetings_truthful(motions, cushions, meets, n);
    if k >= solo.len() {
        assert(candidates(motions, cushions, meets)[k] == all_meetings(motions, meets, n)[k
            - solo.len()]);
    } else {
        assert(candidates(motions, cushions, meets)[k] == solo[k]);
    }
}

proof fn lemma_solo_truthful(
    motions: Seq<Motion>,
    cushions: Seq<Option<(Scalar, Rail)>>,
    meets: Seq<Vec<Option<Scalar>>>,
    n: int,
)
    requires
        0 <= n <= motions.len() <= usize::MAX,
    ensures
        forall|k: int|
            0 <= k < all_solo(motions, cushions, n).len() ==> truthful(
                motions,
                cushions,
                meets,
                #[trigger] all_solo(motions, cushions, n)[k],
            ),
    decreases n,
{
    if n > 0 {
        lemma_solo_truthful(motions, cushions, meets, n - 1);
        let all = all_solo(motions, cushions, n);
        let before = all_solo(motions, cushions, n - 1);
        let own = solo_candidates(motions[n - 1], cushions[n - 1], n - 1);
        assert forall|k: int| 0 <= k < all.len() implies truthful(
            motions,
            cushions,
            meets,
            #[trigger] all[k],
        ) by {
            if k < before.len() {
                assert(all[k] == before[k]);
            } else {
                assert(all[k] == own[k - before.len()]);
            }
        }
    }
}

proof fn lemma_row_truthful(
    motions: Seq<Motion>,
    cushions: Seq<Option<(Scalar, Rail)>>,
    meets: Seq<Vec<Option<Scalar>>>,
    i: int,
    n: int,
)
    requires
        0 <= i < motions.len() <= usize::MAX,
        n <= motions.len(),
    ensures
        forall|k: int|
            0 <= k < meetings_of(motions, meets[i]@, i, n).len() ==> truthful(
                motions,
                cushions,
                meets,
                #[trigger] meetings_of(motions, meets[i]@, i, n)[k],
            ),
    decreases n - i,
{
    if n > i + 1 {
        lemma_row_truthful(motions, cushions, meets, i, n - 1);
        let row = meetings_of(motions, meets[i]@, i, n);
        let before = meetings_of(motions, meets[i]@, i, n - 1);
        assert forall|k: int| 0 <= k < row.len() implies truthful(
            motions,
            cushions,
            meets,
            #[trigger] row[k],
        ) by {
            if k < before.len() {
                assert(row[k] == before[k]);
            }
        }
    }
}

proof fn lemma_meetings_truthful(
    motions: Seq<Motion>,
    cushions: Seq<Option<(Scalar, Rail)>>,
    meets: Seq<Vec<Option<Scalar>>>,
    rows: int,
)
    requires
        0 <= rows <= motions.len() <= usize::MAX,
    ensures
        forall|k: int|
            0 <= k < all_meetings(motions, meets, rows).len() ==> truthful(
                motions,
                cushions,
                meets,
                #[trigger] all_meetings(motions, meets, rows)[k],
            ),
    decreases rows,
{
    if rows > 0 {
        lemma_meetings_truthful(motions, cushions, meets, rows - 1);
        lemma_row_truthful(motions, cushions, meets, rows - 1, motions.len() as int);
        let all = all_meetings(motions, meets, rows);
        let before = all_meetings(motions, meets, rows - 1);
        let own = meetings_of(motions, meets[rows - 1]@, rows - 1, motions.len() as int);
        assert forall|k: int| 0 <= k < all.len() implies truthful(
            motions,
            cushions,
            meets,
            #[trigger] all[k],
        ) by {
            if k < before.len() {
                assert(all[k] == before[k]);
            } else {
                assert(all[k] == own[k - before.len()]);
            }
        }
    }
}

/// Nothing happens before the event that comes next: no ball's motion ends before it, no
/// cushion is met before it, and no two balls meet before it.
pub proof fn law_next_event_is_the_soonest(
    motions: Seq<Motion>,
    cushions: Seq<Option<(Scalar, Rail)>>,
    meets: Seq<Vec<Option<Scalar>>>,
    k: int,
    i: int,
    j: int,
)
    requires
        cushions.len() == motions.len(),
        0 <= i < motions.len() <= usize::MAX,
        soonest_at(candidates(motions, cushions, meets), k),
    ensures
        ({
            let dt = candidates(motions, cushions, meets)[k].dt;
            let m = motions[i];
            let rests = m.phase == MotionPhase::Stationary && m.dur.infinite();
            &&& num(ZERO).less(dt) && dt.finite()
            &&& !rests && num(ZERO).less(m.dur) && m.dur.finite() ==> dt.at_most(m.dur)
            &&& !rests && cushions[i] is Some && num(ZERO).less((cushions[i]->0).0) && (
            cushions[i]->0).0.finite() ==> dt.at_most((cushions[i]->0).0)
            &&& i < j < motions.len() && meets[i]@[j] is Some && num(ZERO).less(meets[i]@[j]->0)
                && meets[i]@[j]->0.finite() && !(m.phase == MotionPhase::Stationary
                && motions[j].phase == MotionPhase::Stationary) ==> dt.at_most(meets[i]@[j]->0)
        }),
{
    let cs = candidates(motions, cushions, meets);
    law_everything_ahead_is_considered(motions, cushions, meets, i, j);
    assert forall|c: Candidate| #[trigger] cs.contains(c) && num(ZERO).less(c.dt)
        && c.dt.finite() implies cs[k].dt.at_most(c.dt) by {
        let x = choose|x: int| 0 <= x < cs.len() && cs[x] == c;
        assert(cs[x].viable());
    }
    let m = motions[i];
    assert(cs[k].viable());
    if !spec_inert(m) {
        assert(cs.contains(Candidate { dt: m.dur, event: Event::Transition(i as usize, m.ends) }));
    }
}

/// What an event changes is its own: a rebound the ball, its last cushion and the log; a
/// collision the two balls and the log; a motion's end the ball alone.
pub proof fn law_events_change_their_own(
    p: Progress,
    i: int,
    j: int,
    k: int,
    a: BallState,
    b: BallState,
)
    requires
        0 <= i < j < p.states.len() <= 256,
        p.last_cushion.len() == p.states.len(),
        0 <= k < p.states.len(),
    ensures
        ({
            let q = p.bounced(i, a);
            &&& q.states[i] == a && (k != i ==> q.states[k] == p.states[k])
            &&& q.last_cushion[i] == p.t && (k != i ==> q.last_cushion[k] == p.last_cushion[k])
            &&& q.events.drop_last() == p.events && q.events.last().time == p.t
            &&& q.events.last().kind == ContactKind::Cushion { ball: BallId(i as u8) }
            &&& q.raw == p.raw && q.t == p.t && q.left == p.left
        }),
        ({
            let q = p.collided(i, j, a, b);
            &&& q.states[i] == a && q.states[j] == b && (k != i && k != j ==> q.states[k]
                == p.states[k])
            &&& q.events.drop_last() == p.events && q.events.last().time == p.t
            &&& q.events.last().kind == ContactKind::BallBall {
                a: BallId(i as u8),
                b: BallId(j as u8),
            }
            &&& q.last_cushion == p.last_cushion && q.raw == p.raw && q.t == p.t && q.left
                == p.left
        }),
        forall|ends: MotionPhase, rolled: DVec3|
            {
                let q = #[trigger] p.turned(i, ends, rolled);
                &&& q.states[i].pos == p.states[i].pos && (k != i ==> q.states[k] == p.states[k])
                &&& q.events == p.events && q.last_cushion == p.last_cushion && q.raw == p.raw
                &&& q.t == p.t && q.left == p.left
            },
{
    assert(p.bounced(i, a).events.drop_last() =~= p.events);
    assert(p.collided(i, j, a, b).events.drop_last() =~= p.events);
}

/// Time moves on for every ball at once: each gets one more segment, from the state it was in
/// and the time it was to the new time, what it had recorded stays, and the log stays.
pub proof fn law_time_moves_on_for_all(
    p: Progress,
    motions: Seq<Motion>,
    t_next: Scalar,
    moved: Seq<BallState>,
    i: int,
)
    requires
        0 <= i < p.raw.len(),
    ensures
        ({
            let q = p.advanced(motions, t_next, moved);
            &&& q.states == moved && q.t == t_next && q.left == p.left - 1
            &&& q.events == p.events && q.last_cushion == p.last_cushion
            &&& q.raw.len() == p.raw.len()
            &&& q.raw[i].drop_last() == p.raw[i]
            &&& q.raw[i].last().state0 == p.states[i] && q.raw[i].last().t_start == p.t
                && q.raw[i].last().t_end == t_next
            &&& q.raw[i].last().phase == motions[i].phase && q.raw[i].last().lin_acc
                == motions[i].lin_acc && q.raw[i].last().ang_acc == motions[i].ang_acc
        }),
{
    assert(p.advanced(motions, t_next, moved).raw[i].drop_last() =~= p.raw[i]);
}

/// A shot begins with the balls as they are struck: at time 0, nothing recorded or logged, no
/// ball with a cushion behind it.
pub proof fn law_shot_begins_with_nothing(initial: Seq<BallState>, i: int)
    requires
        0 <= i < initial.len(),
    ensures
        ({
            let p = Progress::start(initial);
            &&& p.states == initial
            &&& p.raw.len() == initial.len() && p.raw[i].len() == 0
            &&& p.events.len() == 0
            &&& p.t.units() == 0
            &&& p.last_cushion.len() == initial.len() && p.last_cushion[i].infinite()
                && p.last_cushion[i].is_negative()
            &&& p.left == 500_000
        }),
{
    assert(num(ZERO).magnitude() == 0);
    assert(num(ZERO).units() == 0);
    assert(num(MINUS_INFINITE).is_negative() && num(MINUS_INFINITE).infinite());
}

/// What a shot in progress is said to hold is what it holds.
pub proof fn law_world_says_what_it_holds(w: World, i: int)
    ensures
        w@.states == w.states@,
        w@.raw.len() == w.raw@.len(),
        0 <= i < w.raw@.len() ==> w@.raw[i] == w.raw@[i]@,
        w@.events == w.events@,
        w@.t == w.t,
        w@.last_cushion == w.last_cushion@,
        w@.left == w.left,
{
}

/// Of events at the same distance the one that is considered first comes next: the balls' own
/// before their meetings, and those of an earlier ball before those of a later one.
pub proof fn law_first_of_equals_comes_next(cs: Seq<Candidate>, k: int, j: int)
    requires
        soonest_at(cs, k),
        0 <= j < cs.len(),
        num(ZERO).less(cs[j].dt) && cs[j].dt.finite(),
    ensures
        0 <= k < cs.len(),
        cs[k].dt.at_most(cs[j].dt),
        cs[j].dt.same(cs[k].dt) ==> k <= j,
{
    assert(cs[j].viable());
}

} // verus!
