//! The result of simulating a full multi-ball shot: one trajectory per ball plus
//! the ordered log of contacts.

use vstd::prelude::*;

use crate::model::ball::BallId;
use crate::model::trajectory::Trajectory;
use crate::scalar::{num, Scalar, ZERO};

verus! {

/// A contact that occurred during a shot.
#[derive(Clone, Copy, Debug, PartialEq, Eq, Structural)]
pub enum ContactKind {
    /// A ball touched a cushion.
    Cushion { ball: BallId },
    /// Two balls collided.
    BallBall { a: BallId, b: BallId },
}

/// A contact event, tagged with the time it occurred.
#[derive(Clone, Copy, Debug, PartialEq, Eq, Structural)]
pub struct ContactEvent {
    pub time: Scalar,
    pub kind: ContactKind,
}

/// The full outcome of a shot: a trajectory per ball (trajectory `i` belongs to
/// `BallId(i)`) and the ordered contacts.
#[derive(Clone, Debug)]
pub struct Simulation {
    pub trajectories: Vec<Trajectory>,
    pub events: Vec<ContactEvent>,
}

/// Whether a contact is `ball` touching a cushion.
pub open spec fn is_cushion_of(kind: ContactKind, ball: BallId) -> bool {
    kind matches ContactKind::Cushion { ball: b } && b == ball
}

/// Number of cushion contacts of `ball` in a log.
pub open spec fn cushions_of(events: Seq<ContactEvent>, ball: BallId) -> nat {
    events.filter(|e: ContactEvent| is_cushion_of(e.kind, ball)).len()
}

pub proof fn lemma_cushions_step(events: Seq<ContactEvent>, ball: BallId, k: int)
    requires
        0 <= k < events.len(),
    ensures
        cushions_of(events.take(k + 1), ball) == cushions_of(events.take(k), ball) + (
        if is_cushion_of(events[k].kind, ball) {
            1nat
        } else {
            0nat
        }),
        cushions_of(events.take(k), ball) <= k,
{
    let p = |e: ContactEvent| is_cushion_of(e.kind, ball);
    reveal(Seq::filter);
    assert(events.take(k + 1).drop_last() =~= events.take(k));
    assert(events.take(k + 1).last() == events[k]);
    events.take(k).lemma_filter_len_push(p, events[k]);
    assert(events.take(k).push(events[k]) =~= events.take(k + 1));
    events.take(k).lemma_filter_len(p);
}

impl Simulation {
    pub open spec fn rest_times(self) -> Seq<Scalar> {
        Seq::new(self.trajectories@.len(), |i: int| self.trajectories@[i].rest_time())
    }

    /// Time at which the last ball comes to rest: the latest of 0 and the
    /// trajectories' rest times, of which one that is not a number is passed over.
    pub fn settled_time(&self) -> (t: Scalar)
        ensures
            !t.nan(),
            num(ZERO).at_most(t),
            forall|i: int|
                0 <= i < self.trajectories@.len() && !(
                #[trigger] self.trajectories@[i]).rest_time().nan()
                    ==> self.trajectories@[i].rest_time().at_most(t),
            t == num(ZERO) || self.rest_times().contains(t),
    {
        let mut t: Scalar = num(ZERO);
        for k in 0..self.trajectories.len()
            invariant
                !t.nan(),
                num(ZERO).at_most(t),
                forall|i: int|
                    0 <= i < k && !(#[trigger] self.trajectories@[i]).rest_time().nan()
                        ==> self.trajectories@[i].rest_time().at_most(t),
                t == num(ZERO) || self.rest_times().contains(t),
        {
            let r: Scalar = self.trajectories[k].time_to_rest();
            assert(self.rest_times()[k as int] == r);
            t = t.max(r);
        }
        t
    }

    /// Number of cushion contacts made by a given ball.
    pub fn cushion_count(&self, ball: BallId) -> (n: usize)
        ensures
            n == cushions_of(self.events@, ball),
    {
        let mut n: usize = 0;
        assert(cushions_of(self.events@.take(0), ball) == 0) by {
            reveal(Seq::filter);
        }
        for k in 0..self.events.len()
            invariant
                n == cushions_of(self.events@.take(k as int), ball),
                n <= k,
        {
            proof {
                lemma_cushions_step(self.events@, ball, k as int);
            }
            if let ContactKind::Cushion { ball: b } = self.events[k].kind {
                if b == ball {
                    n += 1;
                }
            }
        }
        assert(self.events@.take(self.events@.len() as int) == self.events@);
        n
    }
}

impl Default for Simulation {
    fn default() -> (s: Simulation)
        ensures
            s.trajectories@.len() == 0,
            s.events@.len() == 0,
    {
        Simulation { trajectories: Vec::new(), events: Vec::new() }
    }
}

} // verus!
