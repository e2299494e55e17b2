//! Which observation of the first contact corrects the aim.
//!
//! The cue ball's own flight may be a few blurred samples. The ball it struck first
//! observes the aim too: by the direction in which it departs, and by having been
//! reached at all.

use vstd::prelude::*;

use crate::scalar::{num, Scalar};
use crate::solver::aim::{
    banked_first, barely_observed, first_early, first_early_at, first_struck, first_struck_at,
    gives_direction, in_the_open, is_early, spanning_window, FirstMotion, AGREES, EARLY,
    FAR_ENOUGH, OPEN, SPAN_MAX, SPREAD_POOR,
};
use crate::solver::launch::{departs, departure_at, departure_sample};
use crate::solver::testimony::FirstMove;

verus! {

/// The aim that a departure points to: the way from the cue ball to where it was at
/// contact.
#[derive(Clone, Copy, Debug)]
pub struct AimEstimate {
    /// Its length (m).
    pub reach: Scalar,
    /// How far (rad) it is off the cue ball's own heading.
    pub off: Scalar,
    /// Half of that, and a margin.
    pub half: Scalar,
}

/// What a moving object ball shows.
#[derive(Debug)]
pub struct Departure {
    /// Distances of its rest to the four rails.
    pub rails: [Scalar; 4],
    /// Per sample, its distance from the rest.
    pub dists: Vec<Scalar>,
    /// Per sample, the aim that a departure in its direction points to.
    pub aims: Vec<AimEstimate>,
}

impl Departure {
    pub open spec fn wf(self) -> bool {
        self.aims@.len() == self.dists@.len()
    }

    /// Whether sample `k` is a second estimate of the aim: the ball departs in the open,
    /// and its estimate roughly agrees with the first.
    pub open spec fn estimates(self, k: int) -> bool {
        &&& num(OPEN).less(
            self.rails@[0].lesser_of(self.rails@[1]).lesser_of(self.rails@[2]).lesser_of(
                self.rails@[3],
            ),
        )
        &&& departure_at(self.dists@, k)
        &&& num(FAR_ENOUGH).less(self.aims@[k].reach)
        &&& self.aims@[k].off.less(num(AGREES))
    }

    /// The sample that is a second estimate of the aim.
    fn estimate(&self) -> (r: Option<usize>)
        requires
            self.wf(),
        ensures
            match r {
                Some(k) => self.estimates(k as int),
                None => forall|k: int| !#[trigger] self.estimates(k),
            },
    {
        if !in_the_open(&self.rails) {
            return None;
        }
        match departure_sample(self.dists.as_slice()) {
            Some(k) => {
                assert forall|j: int| #[trigger] departure_at(self.dists@, j) implies j == k by {
                    lemma_one_departure(self.dists@, j, k as int);
                }
                if departs(self.dists[k]) && gives_direction(self.aims[k].reach)
                    && self.aims[k].off.lt(num(AGREES)) {
                    Some(k)
                } else {
                    None
                }
            },
            None => None,
        }
    }
}

proof fn lemma_one_departure(dists: Seq<Scalar>, j: int, k: int)
    requires
        departure_at(dists, j),
        departure_at(dists, k),
    ensures
        j == k,
{
}

/// Whether sample `k` of motion `i` corrects the aim: the launch was barely observed,
/// and that motion is the earliest of the early ones.
pub open spec fn corrects(
    spread: Scalar,
    moves: Seq<FirstMotion>,
    seen: Seq<Option<Departure>>,
    i: int,
    k: int,
) -> bool {
    &&& num(SPREAD_POOR).less(spread)
    &&& first_early_at(moves, i)
    &&& seen[i] is Some
    &&& seen[i]->0.estimates(k)
}

/// The motion and the sample that correct the aim, with the window that then spans both
/// estimates. `seen[i]` is what the ball of motion `i` shows, if the scene has that ball.
pub fn correction(
    base: Scalar,
    spread: Scalar,
    moves: &[FirstMotion],
    seen: &[Option<Departure>],
) -> (r: Option<(usize, usize, Scalar)>)
    requires
        seen@.len() == moves@.len(),
        forall|i: int| 0 <= i < seen@.len() && (#[trigger] seen@[i]) is Some ==> seen@[i]->0.wf(),
    ensures
        match r {
            Some((i, k, w)) => {
                &&& corrects(spread, moves@, seen@, i as int, k as int)
                &&& w == base.greater_of(
                    seen@[i as int]->0.aims@[k as int].half.lesser_of(num(SPAN_MAX)),
                )
            },
            None => forall|i: int, k: int| !#[trigger] corrects(spread, moves@, seen@, i, k),
        },
{
    if !barely_observed(spread) {
        return None;
    }
    let i: usize = match first_early(moves) {
        Some(i) => i,
        None => {
            return None;
        },
    };
    assert forall|j: int| #[trigger] first_early_at(moves@, j) implies j == i by {
        assert(moves@[j].age.less(num(EARLY)) && moves@[i as int].age.less(num(EARLY)));
    }
    match &seen[i] {
        Some(d) => match d.estimate() {
            Some(k) => match spanning_window(base, d.aims[k].off, d.aims[k].half) {
                Some(w) => Some((i, k, w)),
                None => None,
            },
            None => None,
        },
        None => None,
    }
}

/// Whether object ball `k` must be within the aim's reach: it is the first that
/// verifiably was struck, early, and before the cue ball was seen at a rail.
pub open spec fn must_reach(
    moves: Seq<FirstMove>,
    ages: Seq<Scalar>,
    bounces: Seq<(Scalar, u8)>,
    reaches: Seq<Scalar>,
    k: int,
) -> bool {
    &&& first_struck_at(moves, k)
    &&& ages[k].less(num(EARLY))
    &&& forall|b: int|
        0 <= b < bounces.len() ==> !(#[trigger] bounces[b]).0.less(moves[k]->At_0)
    &&& k < reaches.len()
    &&& num(FAR_ENOUGH).less(reaches[k])
}

/// The object ball that the aim must be able to reach. `ages[k]` is how long after the
/// shot began ball `k` was struck, and `reaches[k]` its rest's distance from the cue
/// ball, for the balls of the scene.
pub fn first_target(
    moves: &[FirstMove],
    ages: &[Scalar],
    bounces: &[(Scalar, u8)],
    reaches: &[Scalar],
) -> (r: Option<usize>)
    requires
        ages@.len() == moves@.len(),
    ensures
        match r {
            Some(k) => must_reach(moves@, ages@, bounces@, reaches@, k as int),
            None => forall|k: int| !#[trigger] must_reach(moves@, ages@, bounces@, reaches@, k),
        },
{
    match first_struck(moves) {
        Some((k, t)) => {
            assert forall|j: int| #[trigger] first_struck_at(moves@, j) implies j == k by {
                assert(moves@[j] is At && moves@[k as int] is At);
            }
            if is_early(ages[k]) && !banked_first(bounces, t) && k < reaches.len()
                && gives_direction(reaches[k]) {
                Some(k)
            } else {
                None
            }
        },
        None => None,
    }
}

/// The aim is corrected by a departure only where the launch was barely observed, and by the
/// earliest of the early motions, whose ball departs in the open, far enough from the cue
/// ball, and roughly where the aim points.
pub proof fn law_correction_has_grounds(
    spread: Scalar,
    moves: Seq<FirstMotion>,
    seen: Seq<Option<Departure>>,
    i: int,
    k: int,
    j: int,
    r: int,
)
    requires
        corrects(spread, moves, seen, i, k),
        0 <= j < moves.len(),
        0 <= r < 4,
        !seen[i]->0.rails@[r].nan(),
    ensures
        num(SPREAD_POOR).less(spread),
        moves[i].age.less(num(EARLY)),
        moves[j].age.less(num(EARLY)) ==> !moves[j].t.less(moves[i].t),
        num(OPEN).less(seen[i]->0.rails@[r]),
        num(FAR_ENOUGH).less(seen[i]->0.aims@[k].reach),
        seen[i]->0.aims@[k].off.less(num(AGREES)),
{
    assert(moves[j].age == moves[j].age);
    let d = seen[i]->0;
    let a = d.rails@[0].lesser_of(d.rails@[1]);
    let b = a.lesser_of(d.rails@[2]);
    assert(r == 0 || r == 1 || r == 2 || r == 3);
}

/// The aim must reach a ball only where it is the first that verifiably was struck, early
/// enough, before the cue ball was seen at any rail, and far enough away to give a direction.
pub proof fn law_target_has_grounds(
    moves: Seq<FirstMove>,
    ages: Seq<Scalar>,
    bounces: Seq<(Scalar, u8)>,
    reaches: Seq<Scalar>,
    k: int,
    j: int,
    b: int,
)
    requires
        must_reach(moves, ages, bounces, reaches, k),
        0 <= j < moves.len(),
        0 <= b < bounces.len(),
    ensures
        moves[k] is At,
        moves[j] is At ==> !moves[j]->At_0.less(moves[k]->At_0),
        ages[k].less(num(EARLY)),
        !bounces[b].0.less(moves[k]->At_0),
        num(FAR_ENOUGH).less(reaches[k]),
{
    assert(moves[j] is At || !(moves[j] is At));
}

} // verus!
