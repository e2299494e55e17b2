//! Where an object ball rested before the shot.
//!
//! An object ball is often occluded during address, so its first detection can be
//! after the cue ball has already struck it. Such a ball is traced back to the
//! moment of contact: along its own initial velocity, or, where that is
//! implausible, along the line of centers that the cue ball's deflection shows.
//! A ball that sits still for a few frames keeps its first detection.

use vstd::prelude::*;

use crate::scalar::{num, Scalar, ZERO};
use crate::solver::penalty::first_above;

verus! {

/// A sample this far (m) from the first one has moved: 0.02.
pub const PICKUP_MOVED: u64 = 0x3F94_7AE1_47AE_147B;

/// A ball that moves within this time (s) was moving when it was picked up: 0.08.
pub const PICKUP_T: u64 = 0x3FB4_7AE1_47AE_147B;

/// A spread of squared times below this is none: 1e-9.
pub const NO_SPREAD: u64 = 0x3E11_2E0B_E826_D695;

/// A speed (m/s) below this is drift within noise: 0.15.
pub const DRIFT: u64 = 0x3FC3_3333_3333_3333;

/// A ball is traced back at most this long (s), and only to a cue ball at most
/// this far away (m): 0.25.
pub const BACK_T: u64 = 0x3FD0_0000_0000_0000;

/// A ball is traced back at most this far (m): 0.30.
pub const BACK_D: u64 = 0x3FD3_3333_3333_3333;

/// A velocity needs a baseline longer than this (s): 0.05.
pub const BASELINE: u64 = 0x3FA9_9999_9999_999A;

/// A deflection below this speed (m/s) defines no line of centers: 0.3.
pub const SOFT: u64 = 0x3FD3_3333_3333_3333;

/// A step below this (m) defines no direction: 0.01.
pub const NO_TRAVEL: u64 = 0x3F84_7AE1_47AE_147B;

/// Cosine below which a path bends, by about 20 degrees: 0.94.
pub const BEND_COS: u64 = 0x3FEE_147A_E147_AE14;

/// What is known of an object ball that may have been picked up late.
#[derive(Debug)]
pub struct Pickup {
    /// Per sample, the distance from the first one, and the time since it.
    pub dists: Vec<Scalar>,
    pub ages: Vec<Scalar>,
    /// Spread of the squared times of the velocity fit, and the speed it gives.
    pub spread: Scalar,
    pub speed: Scalar,
    /// Distance from the cue ball's place at the contact: of the first detection,
    /// of the rest traced back, and the greatest allowed to the latter.
    pub detected_gap: Scalar,
    pub traced_gap: Scalar,
    pub allowed_gap: Scalar,
    /// Distance from the first detection of the rest that the cue ball's
    /// deflection gives, if it gives one.
    pub deflected_gap: Option<Scalar>,
}

/// Which place an object ball's rest is taken to be.
#[derive(Clone, Copy, Debug, PartialEq, Eq, Structural)]
pub enum Rest {
    /// There is no track.
    Unknown,
    /// The first detection.
    Detected,
    /// Traced back along its own velocity.
    Traced,
    /// Given by the cue ball's deflection.
    Deflected,
}

impl Pickup {
    pub open spec fn wf(self) -> bool {
        self.dists@.len() == self.ages@.len()
    }

    /// Whether sample `k` is the first that has moved.
    pub open spec fn moves_at(self, k: int) -> bool {
        &&& 0 <= k < self.dists@.len()
        &&& num(PICKUP_MOVED).less(self.dists@[k])
        &&& forall|j: int| 0 <= j < k ==> !num(PICKUP_MOVED).less(#[trigger] self.dists@[j])
    }

    /// Whether the ball was moving when it was picked up, fast enough to be traced
    /// back: at its very first samples, not merely within some window.
    pub open spec fn late(self) -> bool {
        &&& exists|k: int| self.moves_at(k) && !num(PICKUP_T).less(#[trigger] self.ages@[k])
        &&& self.dists@.len() >= 3
        &&& !self.spread.at_most(num(NO_SPREAD))
        &&& !self.speed.less(num(DRIFT))
    }

    /// Whether the trace is implausible: the cue ball was elsewhere at the contact,
    /// or the traced rest is farther from it than the detection.
    pub open spec fn implausible(self) -> bool {
        num(BACK_T).less(self.detected_gap) || self.allowed_gap.less(self.traced_gap)
    }

    /// Which place the ball's rest is taken to be.
    pub open spec fn rest_place(self) -> Rest {
        if self.dists@.len() == 0 {
            Rest::Unknown
        } else if !self.late() {
            Rest::Detected
        } else if !self.implausible() {
            Rest::Traced
        } else if self.detected_gap.less(num(BACK_T)) && self.deflected_gap is Some
            && self.deflected_gap->0.less(num(BACK_T)) {
            Rest::Deflected
        } else {
            Rest::Detected
        }
    }

    /// A rest is unknown exactly without a track; it is traced back exactly for a ball that
    /// was moving when it was picked up and whose trace is plausible; it is given by the cue
    /// ball's deflection only where the trace is not, the cue ball was near at the contact,
    /// and what the deflection gives is near the detection; and else it is the detection.
    pub proof fn law_rest_has_grounds(self)
        ensures
            self.rest_place() == Rest::Unknown <==> self.dists@.len() == 0,
            self.rest_place() == Rest::Traced <==> self.dists@.len() > 0 && self.late() && !(num(
                BACK_T,
            ).less(self.detected_gap) || self.allowed_gap.less(self.traced_gap)),
            self.rest_place() == Rest::Deflected <==> self.dists@.len() > 0 && self.late() && (num(
                BACK_T,
            ).less(self.detected_gap) || self.allowed_gap.less(self.traced_gap))
                && self.detected_gap.less(num(BACK_T)) && self.deflected_gap is Some
                && self.deflected_gap->0.less(num(BACK_T)),
            !self.late() && self.dists@.len() > 0 ==> self.rest_place() == Rest::Detected,
    {
    }

    /// The rest of the ball.
    pub fn rest_of(&self) -> (r: Rest)
        requires
            self.wf(),
        ensures
            r == (if self.dists@.len() == 0 {
                Rest::Unknown
            } else if !self.late() {
                Rest::Detected
            } else if !self.implausible() {
                Rest::Traced
            } else if self.detected_gap.less(num(BACK_T)) && self.deflected_gap is Some
                && self.deflected_gap->0.less(num(BACK_T)) {
                Rest::Deflected
            } else {
                Rest::Detected
            }),
            r == self.rest_place(),
    {
        if self.dists.len() == 0 {
            return Rest::Unknown;
        }
        let moved: Option<usize> = first_above(self.dists.as_slice(), num(PICKUP_MOVED));
        match moved {
            None => {
                assert forall|k: int| !self.moves_at(k) by {}
                return Rest::Detected;
            },
            Some(k) => {
                assert(self.moves_at(k as int));
                assert forall|j: int| self.moves_at(j) implies j == k by {}
                if self.ages[k].gt(num(PICKUP_T)) || self.dists.len() < 3 {
                    return Rest::Detected;
                }
                assert(!num(PICKUP_T).less(self.ages@[k as int]));
            },
        }
        if self.spread.le(num(NO_SPREAD)) || self.speed.lt(num(DRIFT)) {
            return Rest::Detected;
        }
        if self.detected_gap.gt(num(BACK_T)) || self.traced_gap.gt(self.allowed_gap) {
            if self.detected_gap.lt(num(BACK_T)) {
                if let Some(gap) = self.deflected_gap {
                    if gap.lt(num(BACK_T)) {
                        return Rest::Deflected;
                    }
                }
            }
            return Rest::Detected;
        }
        Rest::Traced
    }
}

/// How long a ball is traced back, from the time since the contact.
pub fn back_time(since: Scalar) -> (t: Scalar)
    ensures
        t == since.clamped(num(ZERO), num(BACK_T)),
        !since.nan() ==> num(ZERO).at_most(t) && t.at_most(num(BACK_T)),
        num(ZERO).at_most(since) && since.at_most(num(BACK_T)) ==> t == since,
{
    since.clamp(num(ZERO), num(BACK_T))
}

/// How far a ball is traced back, from the distance at constant speed.
pub fn back_distance(reach: Scalar) -> (d: Scalar)
    ensures
        d == reach.lesser_of(num(BACK_D)),
        d.at_most(num(BACK_D)),
        reach.at_most(num(BACK_D)) ==> d == reach,
{
    reach.min(num(BACK_D))
}

/// Whether a time lies in a window.
pub open spec fn in_window(t: Scalar, lo: Scalar, hi: Scalar) -> bool {
    lo.at_most(t) && t.at_most(hi)
}

/// The first and the last sample in a window.
pub fn window_ends(times: &[Scalar], lo: Scalar, hi: Scalar) -> (r: Option<(usize, usize)>)
    ensures
        match r {
            Some((a, b)) => {
                &&& a <= b < times@.len()
                &&& in_window(times@[a as int], lo, hi) && in_window(times@[b as int], lo, hi)
                &&& forall|k: int|
                    0 <= k < times@.len() && in_window(#[trigger] times@[k], lo, hi) ==> a <= k
                        <= b
            },
            None => forall|k: int|
                0 <= k < times@.len() ==> !in_window(#[trigger] times@[k], lo, hi),
        },
{
    let mut r: Option<(usize, usize)> = None;
    for k in 0..times.len()
        invariant
            match r {
                Some((a, b)) => {
                    &&& a <= b < k
                    &&& in_window(times@[a as int], lo, hi) && in_window(times@[b as int], lo, hi)
                    &&& forall|j: int|
                        0 <= j < k && in_window(#[trigger] times@[j], lo, hi) ==> a <= j <= b
                },
                None => forall|j: int| 0 <= j < k ==> !in_window(#[trigger] times@[j], lo, hi),
            },
    {
        if times[k].ge(lo) && times[k].le(hi) {
            r = match r {
                Some((a, _)) => Some((a, k)),
                None => Some((k, k)),
            };
        }
    }
    r
}

/// Whether the cue ball's deflection defines the line of centers: both velocities
/// have a baseline, and both the arrival and the change are real.
pub fn deflection_holds(
    baseline_in: Scalar,
    baseline_out: Scalar,
    change: Scalar,
    arrival: Scalar,
) -> (r: bool)
    ensures
        r == (num(BASELINE).less(baseline_in) && num(BASELINE).less(baseline_out) && !change.less(
            num(SOFT),
        ) && !arrival.less(num(SOFT))),
{
    baseline_in.gt(num(BASELINE)) && baseline_out.gt(num(BASELINE)) && !change.lt(num(SOFT))
        && !arrival.lt(num(SOFT))
}

/// A place where a path may bend: when, the lengths of the steps before and after,
/// and the cosine between them.
#[derive(Clone, Copy, Debug)]
pub struct Turn {
    pub t: Scalar,
    pub before: Scalar,
    pub after: Scalar,
    pub cosine: Scalar,
}

impl Turn {
    /// Whether the path bends here.
    pub open spec fn bends(self) -> bool {
        !self.before.less(num(NO_TRAVEL)) && !self.after.less(num(NO_TRAVEL)) && self.cosine.less(
            num(BEND_COS),
        )
    }
}

/// Whether turn `k` is the last bend before the first turn later than `t_max`.
pub open spec fn last_bend_at(turns: Seq<Turn>, t_max: Scalar, k: int) -> bool {
    &&& 0 <= k < turns.len()
    &&& turns[k].bends()
    &&& forall|j: int| 0 <= j <= k ==> !t_max.less((#[trigger] turns[j]).t)
    &&& forall|j: int|
        k < j < turns.len() && (#[trigger] turns[j]).bends() ==> exists|i: int|
            0 <= i <= j && t_max.less((#[trigger] turns[i]).t)
}

/// Latest turn, not later than `t_max`, at which the path bends.
pub fn cue_bend_before(turns: &[Turn], t_max: Scalar) -> (r: Option<usize>)
    ensures
        match r {
            Some(k) => last_bend_at(turns@, t_max, k as int),
            None => forall|k: int| !last_bend_at(turns@, t_max, k),
        },
{
    let mut best: Option<usize> = None;
    for k in 0..turns.len()
        invariant
            forall|j: int| 0 <= j < k ==> !t_max.less((#[trigger] turns@[j]).t),
            match best {
                Some(b) => b < k && turns@[b as int].bends() && forall|j: int|
                    b < j < k ==> !(#[trigger] turns@[j]).bends(),
                None => forall|j: int| 0 <= j < k ==> !(#[trigger] turns@[j]).bends(),
            },
    {
        let turn: Turn = turns[k];
        if turn.t.gt(t_max) {
            proof {
                match best {
                    Some(b) => {
                        assert(last_bend_at(turns@, t_max, b as int));
                    },
                    None => {
                        assert forall|j: int| !last_bend_at(turns@, t_max, j) by {
                            if last_bend_at(turns@, t_max, j) {
                                assert(j < k);
                            }
                        }
                    },
                }
            }
            return best;
        }
        if !(turn.before.lt(num(NO_TRAVEL)) || turn.after.lt(num(NO_TRAVEL))) && turn.cosine.lt(
            num(BEND_COS),
        ) {
            best = Some(k);
        }
    }
    proof {
        if let Some(b) = best {
            assert(last_bend_at(turns@, t_max, b as int));
        }
    }
    best
}

/// A ball that is never seen away from its first detection keeps it.
pub proof fn law_still_ball_keeps_detection(p: Pickup)
    requires
        p.wf(),
        forall|k: int|
            0 <= k < p.dists@.len() ==> (#[trigger] p.dists@[k]).at_most(num(PICKUP_MOVED)),
    ensures
        !p.late(),
{
    assert forall|k: int| !p.moves_at(k) by {
        if p.moves_at(k) {
            assert(p.dists@[k].at_most(num(PICKUP_MOVED)));
        }
    }
}

/// A ball that is seen to move at once, by enough samples and fast enough, is traced back
/// where that is plausible: the cue ball was near, and the traced rest is no farther from it
/// than allowed.
pub proof fn law_late_pickup(p: Pickup, k: int)
    requires
        p.wf(),
        0 <= k < p.dists@.len(),
        num(PICKUP_MOVED).less(p.dists@[k]),
        forall|j: int| 0 <= j < k ==> !num(PICKUP_MOVED).less(#[trigger] p.dists@[j]),
    ensures
        p.late() <==> !num(PICKUP_T).less(p.ages@[k]) && p.dists@.len() >= 3 && !p.spread.at_most(
            num(NO_SPREAD),
        ) && !p.speed.less(num(DRIFT)),
        p.implausible() <==> num(BACK_T).less(p.detected_gap) || p.allowed_gap.less(p.traced_gap),
{
    assert(p.moves_at(k));
    assert forall|j: int| p.moves_at(j) implies j == k by {}
    if p.late() {
        let j = choose|j: int|
            p.moves_at(j) && !num(PICKUP_T).less(#[trigger] p.ages@[j]);
        assert(j == k);
    }
}

/// The bend that is found is a real one, not later than asked for, and no later one is.
pub proof fn law_last_bend_is_real(turns: Seq<Turn>, t_max: Scalar, k: int, j: int)
    requires
        last_bend_at(turns, t_max, k),
        0 <= j < turns.len(),
    ensures
        0 <= k < turns.len(),
        !turns[k].before.less(num(NO_TRAVEL)),
        !turns[k].after.less(num(NO_TRAVEL)),
        turns[k].cosine.less(num(BEND_COS)),
        !t_max.less(turns[k].t),
        j > k && (forall|i: int| 0 <= i <= j ==> !t_max.less((#[trigger] turns[i]).t)) ==> !(
        !turns[j].before.less(num(NO_TRAVEL)) && !turns[j].after.less(num(NO_TRAVEL))
            && turns[j].cosine.less(num(BEND_COS))),
{
    assert(turns[j].bends() == turns[j].bends());
}

/// A window holds the times from its beginning to its end, both included.
pub proof fn law_window_is_closed(t: Scalar, lo: Scalar, hi: Scalar)
    ensures
        t.less(lo) || hi.less(t) ==> !in_window(t, lo, hi),
        lo.at_most(t) && t.at_most(hi) ==> in_window(t, lo, hi),
        t.nan() ==> !in_window(t, lo, hi),
{
}

} // verus!
