//! Where to look for the aim and the speed of a shot.
//!
//! The cue ball's heading is the aim and its free-flight speed is the launch
//! speed, so the search is a narrow window around each. Where the launch was
//! barely observed, or the window misses a ball that verifiably was struck, the
//! window grows to span both.

use vstd::prelude::*;

use crate::scalar::{num, Scalar};
use crate::solver::testimony::FirstMove;

verus! {

/// The window grows with the heading spread up to this (rad): 0.12.
pub const SPREAD_MAX: u64 = 0x3FBE_B851_EB85_1EB8;

/// A heading spread (rad) above this is barely observed: 0.05.
pub const SPREAD_POOR: u64 = 0x3FA9_9999_9999_999A;

/// A first contact comes within this time (s): 0.8.
pub const EARLY: u64 = 0x3FE9_9999_9999_999A;

/// A ball this far (m) from every rail departs in the open: 0.10.
pub const OPEN: u64 = 0x3FB9_9999_9999_999A;

/// A target this far (m) from the cue ball gives a direction: 0.08.
pub const FAR_ENOUGH: u64 = 0x3FB4_7AE1_47AE_147B;

/// Two estimates of the aim this close (rad) roughly agree: 0.35.
pub const AGREES: u64 = 0x3FD6_6666_6666_6666;

/// The window that spans two estimates is at most this wide (rad): 0.20.
pub const SPAN_MAX: u64 = 0x3FC9_9999_9999_999A;

/// A sample this far (m) from a ball's rest shows its departure speed: 0.025.
pub const AWAY: u64 = 0x3F99_9999_9999_999A;

/// The aim window: the observed heading uncertainty, at least the caller's.
pub fn aim_window(base: Scalar, spread: Scalar) -> (w: Scalar)
    ensures
        w == base.greater_of(spread.lesser_of(num(SPREAD_MAX))),
        !base.nan() ==> base.at_most(w),
        !base.nan() && spread.at_most(num(SPREAD_MAX)) ==> spread.at_most(w),
        !base.nan() && base.at_most(num(SPREAD_MAX)) ==> w.at_most(num(SPREAD_MAX)),
{
    base.max(spread.min(num(SPREAD_MAX)))
}

/// Whether the launch direction was barely observed.
pub fn barely_observed(spread: Scalar) -> (r: bool)
    ensures
        r == num(SPREAD_POOR).less(spread),
{
    spread.gt(num(SPREAD_POOR))
}

/// An object ball's first motion: when, and how long after the shot began.
#[derive(Clone, Copy, Debug)]
pub struct FirstMotion {
    pub t: Scalar,
    pub age: Scalar,
}

/// Whether motion `k` is the earliest of the early ones.
pub open spec fn first_early_at(moves: Seq<FirstMotion>, k: int) -> bool {
    &&& 0 <= k < moves.len()
    &&& moves[k].age.less(num(EARLY))
    &&& forall|j: int|
        0 <= j < moves.len() && (#[trigger] moves[j]).age.less(num(EARLY)) ==> moves[k].t.rank()
            <= moves[j].t.rank() && (j < k ==> moves[k].t.rank() < moves[j].t.rank())
}

/// The earliest of the motions that come early enough to be the first contact.
pub fn first_early(moves: &[FirstMotion]) -> (r: Option<usize>)
    ensures
        match r {
            Some(k) => first_early_at(moves@, k as int),
            None => forall|k: int| 0 <= k < moves@.len() ==> !(#[trigger] moves@[k]).age.less(
                num(EARLY),
            ),
        },
{
    let mut best: Option<usize> = None;
    for k in 0..moves.len()
        invariant
            match best {
                Some(b) => b < k && moves@[b as int].age.less(num(EARLY)) && forall|j: int|
                    0 <= j < k && (#[trigger] moves@[j]).age.less(num(EARLY))
                        ==> moves@[b as int].t.rank() <= moves@[j].t.rank() && (j < b
                        ==> moves@[b as int].t.rank() < moves@[j].t.rank()),
                None => forall|j: int| 0 <= j < k ==> !(#[trigger] moves@[j]).age.less(num(EARLY)),
            },
    {
        if moves[k].age.lt(num(EARLY)) {
            let sooner: bool = match best {
                Some(b) => moves[k].t.ranks_before(moves[b].t),
                None => true,
            };
            if sooner {
                best = Some(k);
            }
        }
    }
    best
}

/// Whether object ball `k` is the first that verifiably was struck.
pub open spec fn first_struck_at(moves: Seq<FirstMove>, k: int) -> bool {
    &&& 0 <= k < moves.len()
    &&& moves[k] is At
    &&& forall|j: int|
        0 <= j < moves.len() && (#[trigger] moves[j]) is At ==> moves[k]->At_0.rank()
            <= moves[j]->At_0.rank() && (j < k ==> moves[k]->At_0.rank() < moves[j]->At_0.rank())
}

/// The first object ball that verifiably was struck.
pub fn first_struck(moves: &[FirstMove]) -> (r: Option<(usize, Scalar)>)
    ensures
        match r {
            Some((k, t)) => first_struck_at(moves@, k as int) && moves@[k as int] == FirstMove::At(
                t,
            ),
            None => forall|k: int| 0 <= k < moves@.len() ==> (#[trigger] moves@[k]) !is At,
        },
{
    let mut best: Option<(usize, Scalar)> = None;
    for k in 0..moves.len()
        invariant
            match best {
                Some((b, tb)) => b < k && moves@[b as int] == FirstMove::At(tb) && forall|j: int|
                    0 <= j < k && (#[trigger] moves@[j]) is At ==> tb.rank()
                        <= moves@[j]->At_0.rank() && (j < b ==> tb.rank() < moves@[j]->At_0.rank()),
                None => forall|j: int| 0 <= j < k ==> (#[trigger] moves@[j]) !is At,
            },
    {
        if let FirstMove::At(t) = moves[k] {
            let sooner: bool = match best {
                Some((_, tb)) => t.ranks_before(tb),
                None => true,
            };
            if sooner {
                best = Some((k, t));
            }
        }
    }
    best
}

/// Whether a time since the shot began is early enough for the first contact.
pub fn is_early(age: Scalar) -> (r: bool)
    ensures
        r == age.less(num(EARLY)),
{
    age.lt(num(EARLY))
}

/// Whether a ball departs in the open: it rests clear of all four rails.
pub fn in_the_open(rails: &[Scalar; 4]) -> (r: bool)
    ensures
        r == num(OPEN).less(
            rails@[0].lesser_of(rails@[1]).lesser_of(rails@[2]).lesser_of(rails@[3]),
        ),
        (forall|k: int| 0 <= k < 4 ==> !(#[trigger] rails@[k]).nan()) ==> (r <==> forall|k: int|
            0 <= k < 4 ==> num(OPEN).less(#[trigger] rails@[k])),
{
    proof {
        if forall|k: int| 0 <= k < 4 ==> !(#[trigger] rails@[k]).nan() {
            assert(!rails@[0].nan() && !rails@[1].nan() && !rails@[2].nan() && !rails@[3].nan());
            let low = rails@[0].lesser_of(rails@[1]).lesser_of(rails@[2]).lesser_of(rails@[3]);
            assert(num(OPEN).less(low) <==> num(OPEN).less(rails@[0]) && num(OPEN).less(rails@[1])
                && num(OPEN).less(rails@[2]) && num(OPEN).less(rails@[3]));
        }
    }
    rails[0].min(rails[1]).min(rails[2]).min(rails[3]).gt(num(OPEN))
}

/// Whether a target is far enough from the cue ball to give a direction.
pub fn gives_direction(distance: Scalar) -> (r: bool)
    ensures
        r == num(FAR_ENOUGH).less(distance),
{
    distance.gt(num(FAR_ENOUGH))
}

/// The aim window that spans the observed heading and a second estimate `off`
/// from it; `half` is half their distance and a margin. None where the two do
/// not roughly agree: then the direct observation is trusted.
pub fn spanning_window(base: Scalar, off: Scalar, half: Scalar) -> (w: Option<Scalar>)
    ensures
        w == (if off.less(num(AGREES)) {
            Some(base.greater_of(half.lesser_of(num(SPAN_MAX))))
        } else {
            None
        }),
        w is Some <==> off.less(num(AGREES)),
        w is Some && !base.nan() ==> base.at_most(w->0),
        w is Some && !base.nan() && half.at_most(num(SPAN_MAX)) ==> half.at_most(w->0),
{
    if off.lt(num(AGREES)) {
        Some(base.max(half.min(num(SPAN_MAX))))
    } else {
        None
    }
}

/// Whether the cue ball was seen at a rail before it struck at `t_hit`.
pub fn banked_first(bounces: &[(Scalar, u8)], t_hit: Scalar) -> (r: bool)
    ensures
        r <==> exists|k: int| 0 <= k < bounces@.len() && (#[trigger] bounces@[k]).0.less(t_hit),
{
    for k in 0..bounces.len()
        invariant
            forall|j: int| 0 <= j < k ==> !(#[trigger] bounces@[j]).0.less(t_hit),
    {
        if bounces[k].0.lt(t_hit) {
            return true;
        }
    }
    false
}

/// Whether the speed is searched in full: the window cannot reach well into the
/// contact cone of the ball that was struck, or that ball left faster than the
/// measured launch allows.
pub fn unpins_speed(off: Scalar, reach: Scalar, departure: Scalar, ceiling: Scalar) -> (r: bool)
    ensures
        r == (reach.less(off) || ceiling.less(departure)),
{
    off.gt(reach) || departure.gt(ceiling)
}

/// Whether `a` and `b` are the first two samples away from the rest.
pub open spec fn first_two_away(dists: Seq<Scalar>, a: int, b: int) -> bool {
    &&& 0 <= a < b < dists.len()
    &&& num(AWAY).less(dists[a]) && num(AWAY).less(dists[b])
    &&& forall|j: int| 0 <= j < b && j != a ==> !num(AWAY).less(#[trigger] dists[j])
}

/// The two samples a struck ball's departure speed is read from: its first two
/// away from the rest, the second one later.
pub fn departure_pair(dists: &[Scalar], times: &[Scalar]) -> (r: Option<(usize, usize)>)
    requires
        dists@.len() == times@.len(),
    ensures
        match r {
            Some((a, b)) => first_two_away(dists@, a as int, b as int) && times@[a as int].less(
                times@[b as int],
            ),
            None => forall|a: int, b: int|
                first_two_away(dists@, a, b) ==> !times@[a].less(times@[b]),
        },
{
    let mut first: Option<usize> = None;
    for k in 0..dists.len()
        invariant
            dists@.len() == times@.len(),
            match first {
                Some(a) => a < k && num(AWAY).less(dists@[a as int]) && forall|j: int|
                    0 <= j < k && j != a ==> !num(AWAY).less(#[trigger] dists@[j]),
                None => forall|j: int| 0 <= j < k ==> !num(AWAY).less(#[trigger] dists@[j]),
            },
    {
        if dists[k].gt(num(AWAY)) {
            match first {
                None => {
                    first = Some(k);
                },
                Some(a) => {
                    assert(first_two_away(dists@, a as int, k as int));
                    assert forall|c: int, d: int| first_two_away(dists@, c, d) implies c == a && d
                        == k by {
                        assert(num(AWAY).less(dists@[c]) && num(AWAY).less(dists@[d]));
                        assert(num(AWAY).less(dists@[a as int]) && num(AWAY).less(
                            dists@[k as int],
                        ));
                    }
                    if times[k].gt(times[a]) {
                        return Some((a, k));
                    } else {
                        return None;
                    }
                },
            }
        }
    }
    None
}

/// The union of the observed-heading window and a ball's contact cone.
pub fn window_union(
    minus_window: Scalar,
    window: Scalar,
    cone_lo: Scalar,
    cone_hi: Scalar,
) -> (r: (Scalar, Scalar))
    ensures
        r.0 == minus_window.lesser_of(cone_lo),
        r.1 == window.greater_of(cone_hi),
        !minus_window.nan() && !cone_lo.nan() ==> r.0.at_most(minus_window) && r.0.at_most(cone_lo),
        !window.nan() && !cone_hi.nan() ==> window.at_most(r.1) && cone_hi.at_most(r.1),
{
    (minus_window.min(cone_lo), window.max(cone_hi))
}

/// The speeds searched: the whole range, or the window around the launch speed
/// within it.
pub fn speed_range(
    unpinned: bool,
    speed_min: Scalar,
    speed_max: Scalar,
    lo: Scalar,
    hi: Scalar,
) -> (r: (Scalar, Scalar))
    ensures
        r == (if unpinned {
            (speed_min, speed_max)
        } else {
            (lo.greater_of(speed_min), hi.lesser_of(speed_max))
        }),
        !speed_min.nan() && !speed_max.nan() ==> speed_min.at_most(r.0) && r.1.at_most(speed_max),
        !unpinned && speed_min.at_most(lo) && hi.at_most(speed_max) ==> r == (lo, hi),
{
    if unpinned {
        (speed_min, speed_max)
    } else {
        (lo.max(speed_min), hi.min(speed_max))
    }
}

/// The first contact is the earliest of the early motions, and the first ball struck the
/// earliest of those that verifiably were.
pub proof fn law_first_contact_is_earliest(
    moves: Seq<FirstMotion>,
    k: int,
    struck: Seq<FirstMove>,
    b: int,
    j: int,
)
    requires
        first_early_at(moves, k),
        first_struck_at(struck, b),
    ensures
        0 <= k < moves.len() && moves[k].age.less(num(EARLY)),
        0 <= j < moves.len() && moves[j].age.less(num(EARLY)) ==> !moves[j].t.less(moves[k].t),
        0 <= b < struck.len() && struck[b] is At,
        0 <= j < struck.len() && struck[j] is At ==> !struck[j]->At_0.less(struck[b]->At_0),
{
    if 0 <= j < moves.len() {
        assert(moves[j].age == moves[j].age);
    }
    if 0 <= j < struck.len() {
        assert(struck[j] is At || !(struck[j] is At));
    }
}

/// The two samples a departure speed is read from are away from the rest, and there is no
/// other such sample up to the second of them.
pub proof fn law_first_two_away(dists: Seq<Scalar>, a: int, b: int, j: int)
    requires
        first_two_away(dists, a, b),
        0 <= j < b,
    ensures
        0 <= a < b < dists.len(),
        num(AWAY).less(dists[a]) && num(AWAY).less(dists[b]),
        j != a ==> !num(AWAY).less(dists[j]),
{
}

} // verus!
