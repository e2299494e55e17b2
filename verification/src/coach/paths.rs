//! Tracked paths as they are drawn: in runs, with gaps shown as gaps.

use vstd::prelude::*;

use crate::order::lemma_places_step;
use crate::scalar::{num, Scalar};

verus! {

/// Largest time step (s) across which a tracked path is still one continuous run:
/// 0.1. A bigger jump is a detection gap, and must not be drawn or interpolated
/// across.
pub const TRACK_GAP_S: u64 = 0x3FB9_9999_9999_999A;

/// A ball slower than this (m/s) is essentially stationary: 0.05.
pub const BRIDGE_SPEED: u64 = 0x3FA9_9999_9999_999A;

/// A step shorter than this (m) gives no heading: 1e-6.
pub const BRIDGE_STEP: u64 = 0x3EB0_C6F7_A0B5_ED8D;

/// A bridge must come this close (m) to where the ball was seen again: 0.09.
pub const BRIDGE_CLOSE: u64 = 0x3FB7_0A3D_70A3_D70A;

/// A ray must leave its start by more than this (m): 1e-6.
pub const RAY_MIN: u64 = 0x3EB0_C6F7_A0B5_ED8D;

/// A ray's slope below this runs along the rail: 1e-9.
pub const RAY_FLAT: u64 = 0x3E11_2E0B_E826_D695;

/// Where a time falls on a tracked path.
#[derive(Clone, Copy, Debug, PartialEq, Eq, Structural)]
pub enum Spot {
    /// The place is unknown: there is no path, or the time falls in a gap.
    Unknown,
    /// At this sample.
    At(usize),
    /// Between this sample and the next.
    Between(usize),
}

/// Whether `k` is the first sample, after the first one, that is not before `t`.
pub open spec fn next_sample(times: Seq<Scalar>, t: Scalar, k: int) -> bool {
    &&& 1 <= k < times.len()
    &&& t.at_most(times[k])
    &&& forall|j: int| 1 <= j < k ==> !t.at_most(#[trigger] times[j])
}

/// Where time `t` falls on a path; `steps[i]` is the time from sample `i` to the
/// next. A time before the first sample is at it, one after the last is there.
pub fn interp(times: &[Scalar], steps: &[Scalar], t: Scalar) -> (r: Spot)
    requires
        times@.len() > 0 ==> steps@.len() == times@.len() - 1,
    ensures
        times@.len() == 0 ==> r == Spot::Unknown,
        times@.len() > 0 && t.at_most(times@[0]) ==> r == Spot::At(0),
        times@.len() > 0 && !t.at_most(times@[0]) ==> {
            &&& forall|k: int| #[trigger]
                next_sample(times@, t, k) ==> r == (if num(TRACK_GAP_S).less(steps@[k - 1]) {
                    Spot::Unknown
                } else if times@[k - 1].less(times@[k]) {
                    Spot::Between((k - 1) as usize)
                } else {
                    Spot::At((k - 1) as usize)
                })
            &&& (forall|k: int| !#[trigger] next_sample(times@, t, k)) ==> r == Spot::At(
                (times@.len() - 1) as usize,
            )
        },
{
    let n: usize = times.len();
    if n == 0 {
        return Spot::Unknown;
    }
    if t.le(times[0]) {
        return Spot::At(0);
    }
    for k in 1..n
        invariant
            n == times@.len(),
            steps@.len() == n - 1,
            !t.at_most(times@[0]),
            forall|j: int| 1 <= j < k ==> !t.at_most(#[trigger] times@[j]),
    {
        if t.le(times[k]) {
            assert(next_sample(times@, t, k as int));
            assert forall|j: int| #[trigger] next_sample(times@, t, j) implies j == k by {
                assert(t.at_most(times@[j]) && t.at_most(times@[k as int]));
            }
            if steps[k - 1].gt(num(TRACK_GAP_S)) {
                return Spot::Unknown;
            }
            if times[k].gt(times[k - 1]) {
                return Spot::Between(k - 1);
            }
            return Spot::At(k - 1);
        }
    }
    Spot::At(n - 1)
}

/// Whether there is a detection gap before sample `k`.
pub open spec fn gap_before(steps: Seq<Scalar>, k: int) -> bool {
    num(TRACK_GAP_S).less(steps[k - 1])
}

/// The sample at which the run begins that ends with sample `n - 1`.
pub open spec fn run_start(steps: Seq<Scalar>, n: int) -> int
    decreases n,
{
    if n <= 1 {
        0
    } else if gap_before(steps, n - 1) {
        n - 1
    } else {
        run_start(steps, n - 1)
    }
}

/// The runs that are over within the first `n` samples, as (first, past the last);
/// a single sample is no run.
pub open spec fn closed_runs(steps: Seq<Scalar>, n: int) -> Seq<(int, int)>
    decreases n,
{
    if n <= 1 {
        seq![]
    } else if gap_before(steps, n - 1) && (n - 1) - run_start(steps, n - 1) >= 2 {
        closed_runs(steps, n - 1).push((run_start(steps, n - 1), n - 1))
    } else {
        closed_runs(steps, n - 1)
    }
}

/// The runs of a path of `n` samples.
pub open spec fn runs_of(steps: Seq<Scalar>, n: int) -> Seq<(int, int)> {
    if n - run_start(steps, n) >= 2 {
        closed_runs(steps, n).push((run_start(steps, n), n))
    } else {
        closed_runs(steps, n)
    }
}

pub open spec fn run_views(v: Seq<(usize, usize)>) -> Seq<(int, int)> {
    Seq::new(v.len(), |k: int| (v[k].0 as int, v[k].1 as int))
}

/// Split a tracked path of `n` samples into continuous runs, breaking at detection
/// gaps.
pub fn tracked_runs(steps: &[Scalar], n: usize) -> (r: Vec<(usize, usize)>)
    requires
        n > 0 ==> steps@.len() == n - 1,
    ensures
        run_views(r@) == runs_of(steps@, n as int),
{
    let mut r: Vec<(usize, usize)> = Vec::new();
    let mut start: usize = 0;
    assert(run_views(r@) =~= closed_runs(steps@, 0));
    for k in 0..n
        invariant
            n > 0 ==> steps@.len() == n - 1,
            start == run_start(steps@, k as int),
            start <= k,
            run_views(r@) == closed_runs(steps@, k as int),
    {
        let ghost before = run_views(r@);
        if k > 0 && steps[k - 1].gt(num(TRACK_GAP_S)) {
            if k - start >= 2 {
                r.push((start, k));
                assert(run_views(r@) =~= before.push((start as int, k as int)));
            }
            start = k;
        }
    }
    let ghost before = run_views(r@);
    if n - start >= 2 {
        r.push((start, n));
        assert(run_views(r@) =~= before.push((start as int, n as int)));
    }
    r
}

/// Inside a run there is no gap, and a run has at least two samples.
pub proof fn law_runs_have_no_gap(steps: Seq<Scalar>, n: int, k: int, i: int)
    requires
        1 <= n,
        steps.len() == n - 1,
        0 <= k < runs_of(steps, n).len(),
        runs_of(steps, n)[k].0 < i < runs_of(steps, n)[k].1,
    ensures
        !gap_before(steps, i),
        runs_of(steps, n)[k].1 - runs_of(steps, n)[k].0 >= 2,
{
    lemma_closed_runs(steps, n);
    lemma_no_gap_since(steps, n, i);
}

proof fn lemma_no_gap_since(steps: Seq<Scalar>, n: int, i: int)
    requires
        1 <= n,
    ensures
        run_start(steps, n) < i < n ==> !gap_before(steps, i),
    decreases n,
{
    if n > 1 {
        lemma_no_gap_since(steps, n - 1, i);
    }
}

proof fn lemma_closed_runs(steps: Seq<Scalar>, n: int)
    requires
        1 <= n,
    ensures
        forall|k: int, i: int|
            0 <= k < closed_runs(steps, n).len() && (#[trigger] closed_runs(steps, n)[k]).0 < i
                < closed_runs(steps, n)[k].1 ==> !#[trigger] gap_before(steps, i),
        forall|k: int|
            0 <= k < closed_runs(steps, n).len() ==> (#[trigger] closed_runs(steps, n)[k]).1
                - closed_runs(steps, n)[k].0 >= 2,
    decreases n,
{
    if n > 1 {
        lemma_closed_runs(steps, n - 1);
        let before = closed_runs(steps, n - 1);
        let now = closed_runs(steps, n);
        assert forall|k: int, i: int| 0 <= k < now.len() && (#[trigger] now[k]).0 < i
            < now[k].1 implies !#[trigger] gap_before(steps, i) by {
            if k < before.len() {
                assert(now[k] == before[k]);
            } else {
                lemma_no_gap_since(steps, n - 1, i);
            }
        }
        assert forall|k: int| 0 <= k < now.len() implies (#[trigger] now[k]).1 - now[k].0 >= 2 by {
            if k < before.len() {
                assert(now[k] == before[k]);
            }
        }
    }
}

/// Whether a gap ends at sample `i`, with the sample before the gap arrived at
/// without one.
pub open spec fn gap_at(steps: Seq<Scalar>, i: int) -> bool {
    2 <= i <= steps.len() && gap_before(steps, i) && steps[i - 2].at_most(num(TRACK_GAP_S))
}

/// The gaps among the first `n` samples, by the sample at which each ends.
pub open spec fn gaps_among(steps: Seq<Scalar>, n: int) -> Seq<int>
    decreases n,
{
    if n <= 2 {
        seq![]
    } else if gap_at(steps, n - 1) {
        gaps_among(steps, n - 1).push(n - 1)
    } else {
        gaps_among(steps, n - 1)
    }
}

/// The detection gaps of a path of `n` samples that a heading leads into, by the
/// sample at which each ends. A gap at the very start is skipped.
pub fn track_gaps(steps: &[Scalar], n: usize) -> (r: Vec<usize>)
    requires
        n > 0 ==> steps@.len() == n - 1,
    ensures
        r@.map_values(|k: usize| k as int) == gaps_among(steps@, n as int),
        forall|a: int| 0 <= a < r@.len() ==> 2 <= (#[trigger] r@[a]) < n,
{
    let mut r: Vec<usize> = Vec::new();
    let ghost as_int = |k: usize| k as int;
    if n < 2 {
        assert(r@.map_values(as_int) =~= gaps_among(steps@, n as int));
        return r;
    }
    assert(r@.map_values(as_int) =~= gaps_among(steps@, 2));
    let mut k: usize = 2;
    while k < n
        invariant
            as_int == (|k: usize| k as int),
            steps@.len() == n - 1,
            2 <= k <= n,
            r@.map_values(as_int) == gaps_among(steps@, k as int),
            forall|a: int| 0 <= a < r@.len() ==> 2 <= (#[trigger] r@[a]) < k,
        decreases n - k,
    {
        let ghost before = r@;
        if steps[k - 1].gt(num(TRACK_GAP_S)) && steps[k - 2].le(num(TRACK_GAP_S)) {
            r.push(k);
            assert(r@.map_values(as_int) =~= before.map_values(as_int).push(k as int));
        }
        k += 1;
    }
    r
}

/// Whether a ball enters a gap with a heading that can be followed.
pub fn can_follow(entry_speed: Scalar, step: Scalar) -> (r: bool)
    ensures
        r == (!entry_speed.less(num(BRIDGE_SPEED)) && !step.less(num(BRIDGE_STEP))),
{
    !entry_speed.lt(num(BRIDGE_SPEED)) && !step.lt(num(BRIDGE_STEP))
}

/// Which end of a range a number lies beyond.
#[derive(Clone, Copy, Debug, PartialEq, Eq, Structural)]
pub enum Side {
    Below,
    Inside,
    Above,
}

/// Where a rolling ball is with respect to two opposite cushions.
pub fn side_of(p: Scalar, lo: Scalar, hi: Scalar) -> (s: Side)
    ensures
        s == (if p.less(lo) {
            Side::Below
        } else if hi.less(p) {
            Side::Above
        } else {
            Side::Inside
        }),
{
    if p.lt(lo) {
        Side::Below
    } else if p.gt(hi) {
        Side::Above
    } else {
        Side::Inside
    }
}

/// The closest place among the first `n`: one is taken only when it is closer than
/// all before it.
pub open spec fn closest_among(dists: Seq<Scalar>, n: int) -> int
    decreases n,
{
    if n <= 1 {
        0
    } else {
        let b = closest_among(dists, n - 1);
        if dists[n - 1].less(dists[b]) {
            n - 1
        } else {
            b
        }
    }
}

/// Among numbers, the closest place is the first of the least distances.
pub proof fn law_closest_is_least(dists: Seq<Scalar>, n: int)
    requires
        1 <= n <= dists.len(),
        forall|k: int| 0 <= k < n ==> !(#[trigger] dists[k]).nan(),
    ensures
        0 <= closest_among(dists, n) < n,
        forall|k: int|
            0 <= k < n ==> dists[closest_among(dists, n)].at_most(#[trigger] dists[k]) && (k
                < closest_among(dists, n) ==> dists[closest_among(dists, n)].less(dists[k])),
    decreases n,
{
    if n > 1 {
        law_closest_is_least(dists, n - 1);
    }
}

/// Where a bridge across a gap ends, from the distances along it to where the ball
/// was seen again: at the closest place, if that is past the start and close
/// enough. None where a simple roll-and-bounce does not reconnect.
pub fn bridge_end(dists: &[Scalar]) -> (r: Option<usize>)
    ensures
        match r {
            Some(k) => {
                &&& 1 <= k < dists@.len()
                &&& k == closest_among(dists@, dists@.len() as int)
                &&& !num(BRIDGE_CLOSE).less(dists@[k as int])
            },
            None => dists@.len() == 0 || closest_among(dists@, dists@.len() as int) == 0 || num(
                BRIDGE_CLOSE,
            ).less(dists@[closest_among(dists@, dists@.len() as int)]),
        },
{
    if dists.len() == 0 {
        return None;
    }
    let mut best: usize = 0;
    for k in 1..dists.len()
        invariant
            best < k <= dists@.len(),
            best == closest_among(dists@, k as int),
    {
        if dists[k].lt(dists[best]) {
            best = k;
        }
    }
    if best < 1 || dists[best].gt(num(BRIDGE_CLOSE)) {
        None
    } else {
        Some(best)
    }
}

/// A ray's possible contact with a rail: its slope toward the rail, how far along
/// it, where on the rail, and the extent of the rail.
#[derive(Clone, Copy, Debug)]
pub struct RayHit {
    pub slope: Scalar,
    pub t: Scalar,
    pub along: Scalar,
    pub lo: Scalar,
    pub hi: Scalar,
}

impl RayHit {
    /// Whether the ray meets the rail ahead of it, and within its extent.
    pub open spec fn meets(self) -> bool {
        &&& num(RAY_FLAT).less(self.slope.unsigned())
        &&& num(RAY_MIN).less(self.t)
        &&& self.lo.at_most(self.along)
        &&& self.along.at_most(self.hi)
    }
}

/// Whether rail `k` is the first the ray meets.
pub open spec fn first_met(hits: Seq<RayHit>, k: int) -> bool {
    &&& 0 <= k < hits.len()
    &&& hits[k].meets()
    &&& forall|j: int|
        0 <= j < hits.len() && (#[trigger] hits[j]).meets() ==> hits[k].t.at_most(hits[j].t) && (j
            < k ==> hits[k].t.less(hits[j].t))
}

/// The first rail an aim ray meets, in the order top, bottom, left, right.
pub fn aim_rail_hit(hits: &[RayHit; 4]) -> (r: Option<usize>)
    ensures
        match r {
            Some(k) => first_met(hits@, k as int),
            None => forall|k: int| 0 <= k < 4 ==> !(#[trigger] hits@[k]).meets(),
        },
{
    let mut best: Option<usize> = None;
    for k in 0..4usize
        invariant
            match best {
                Some(b) => {
                    &&& b < k
                    &&& hits@[b as int].meets()
                    &&& forall|j: int|
                        0 <= j < k && (#[trigger] hits@[j]).meets() ==> hits@[b as int].t.at_most(
                            hits@[j].t,
                        ) && (j < b ==> hits@[b as int].t.less(hits@[j].t))
                },
                None => forall|j: int| 0 <= j < k ==> !(#[trigger] hits@[j]).meets(),
            },
    {
        let h: RayHit = hits[k];
        if h.slope.abs().gt(num(RAY_FLAT)) && h.t.gt(num(RAY_MIN)) && h.along.ge(h.lo)
            && h.along.le(h.hi) {
            assert(hits@[k as int].meets());
            let nearer: bool = match best {
                Some(b) => h.t.lt(hits[b].t),
                None => true,
            };
            if nearer {
                best = Some(k);
            }
        }
    }
    best
}

/// Whether two samples follow one another in some run.
pub open spec fn runs_through(runs: Seq<(int, int)>, i: int) -> bool {
    exists|k: int| 0 <= k < runs.len() && (#[trigger] runs[k]).0 < i < runs[k].1
}

proof fn lemma_run_start(steps: Seq<Scalar>, n: int)
    requires
        1 <= n,
    ensures
        0 <= run_start(steps, n) < n,
        run_start(steps, n) > 0 ==> num(TRACK_GAP_S).less(steps[run_start(steps, n) - 1]),
        forall|i: int|
            run_start(steps, n) < i < n ==> !num(TRACK_GAP_S).less(#[trigger] steps[i - 1]),
    decreases n,
{
    if n > 1 {
        lemma_run_start(steps, n - 1);
    }
}

proof fn lemma_closed_runs_cover(steps: Seq<Scalar>, n: int)
    requires
        1 <= n,
    ensures
        forall|k: int|
            0 <= k < closed_runs(steps, n).len() ==> {
                let (a, b) = #[trigger] closed_runs(steps, n)[k];
                &&& 0 <= a && a + 2 <= b <= run_start(steps, n)
                &&& a > 0 ==> num(TRACK_GAP_S).less(steps[a - 1])
                &&& num(TRACK_GAP_S).less(steps[b - 1])
            },
        forall|k: int, m: int|
            0 <= k < m < closed_runs(steps, n).len() ==> (#[trigger] closed_runs(steps, n)[k]).1
                <= (#[trigger] closed_runs(steps, n)[m]).0,
        forall|i: int|
            1 <= i <= run_start(steps, n) && !num(TRACK_GAP_S).less(steps[i - 1])
                ==> #[trigger] runs_through(closed_runs(steps, n), i),
    decreases n,
{
    lemma_run_start(steps, n);
    if n > 1 {
        lemma_closed_runs_cover(steps, n - 1);
        lemma_run_start(steps, n - 1);
        let had = closed_runs(steps, n - 1);
        let now = closed_runs(steps, n);
        let s = run_start(steps, n - 1);
        assert forall|k: int| 0 <= k < now.len() implies {
            let (a, b) = #[trigger] now[k];
            &&& 0 <= a && a + 2 <= b <= run_start(steps, n)
            &&& a > 0 ==> num(TRACK_GAP_S).less(steps[a - 1])
            &&& num(TRACK_GAP_S).less(steps[b - 1])
        } by {
            if k < had.len() {
                assert(now[k] == had[k]);
            }
        }
        assert forall|k: int, m: int| 0 <= k < m < now.len() implies (#[trigger] now[k]).1 <= (
        #[trigger] now[m]).0 by {
            assert(now[k] == had[k]);
            if m < had.len() {
                assert(now[m] == had[m]);
            }
        }
        assert forall|i: int|
            1 <= i <= run_start(steps, n) && !num(TRACK_GAP_S).less(
                steps[i - 1],
            ) implies #[trigger] runs_through(now, i) by {
            if i <= s {
                assert(runs_through(had, i));
                let k = choose|k: int| 0 <= k < had.len() && (#[trigger] had[k]).0 < i < had[k].1;
                assert(now[k] == had[k]);
            } else {
                assert(i < n - 1);
                assert(now[had.len() as int] == (s, n - 1));
            }
        }
    }
}

/// A path's runs are as long as they can be and nothing is lost between them: each begins
/// with the path or at a gap and ends with the path or at a gap, they follow one another, and
/// two samples without a gap between them are in one run.
pub proof fn law_runs_break_only_at_gaps(steps: Seq<Scalar>, n: int)
    requires
        1 <= n,
        steps.len() == n - 1,
    ensures
        forall|k: int|
            0 <= k < runs_of(steps, n).len() ==> {
                let (a, b) = #[trigger] runs_of(steps, n)[k];
                &&& 0 <= a && a + 2 <= b <= n
                &&& a > 0 ==> num(TRACK_GAP_S).less(steps[a - 1])
                &&& b < n ==> num(TRACK_GAP_S).less(steps[b - 1])
            },
        forall|k: int, m: int|
            0 <= k < m < runs_of(steps, n).len() ==> (#[trigger] runs_of(steps, n)[k]).1 <= (
            #[trigger] runs_of(steps, n)[m]).0,
        forall|i: int|
            1 <= i < n && !num(TRACK_GAP_S).less(steps[i - 1]) ==> #[trigger] runs_through(
                runs_of(steps, n),
                i,
            ),
        forall|i: int|
            1 <= i < n && num(TRACK_GAP_S).less(steps[i - 1]) ==> !#[trigger] runs_through(
                runs_of(steps, n),
                i,
            ),
{
    lemma_run_start(steps, n);
    lemma_closed_runs_cover(steps, n);
    let had = closed_runs(steps, n);
    let now = runs_of(steps, n);
    let s = run_start(steps, n);
    assert forall|k: int| 0 <= k < now.len() implies {
        let (a, b) = #[trigger] now[k];
        &&& 0 <= a && a + 2 <= b <= n
        &&& a > 0 ==> num(TRACK_GAP_S).less(steps[a - 1])
        &&& b < n ==> num(TRACK_GAP_S).less(steps[b - 1])
    } by {
        if k < had.len() {
            assert(now[k] == had[k]);
        }
    }
    assert forall|k: int, m: int| 0 <= k < m < now.len() implies (#[trigger] now[k]).1 <= (
    #[trigger] now[m]).0 by {
        assert(now[k] == had[k]);
        if m < had.len() {
            assert(now[m] == had[m]);
        }
    }
    assert forall|i: int|
        1 <= i < n && !num(TRACK_GAP_S).less(steps[i - 1]) implies #[trigger] runs_through(
        now,
        i,
    ) by {
        if i <= s {
            assert(runs_through(had, i));
            let k = choose|k: int| 0 <= k < had.len() && (#[trigger] had[k]).0 < i < had[k].1;
            assert(now[k] == had[k]);
        } else {
            assert(now[had.len() as int] == (s, n));
        }
    }
    assert forall|i: int|
        1 <= i < n && num(TRACK_GAP_S).less(steps[i - 1]) implies !#[trigger] runs_through(
        now,
        i,
    ) by {
        if runs_through(now, i) {
            let k = choose|k: int| 0 <= k < now.len() && (#[trigger] now[k]).0 < i < now[k].1;
            law_runs_have_no_gap(steps, n, k, i);
        }
    }
}

/// The gaps to be bridged are all those that a step without a gap leads into, and no others,
/// in their order.
pub proof fn law_gaps_are_all_found(steps: Seq<Scalar>, n: int)
    requires
        n - 1 <= steps.len(),
    ensures
        forall|k: int| #[trigger]
            gaps_among(steps, n).contains(k) <==> 2 <= k < n && num(TRACK_GAP_S).less(steps[k - 1])
                && steps[k - 2].at_most(num(TRACK_GAP_S)),
        forall|a: int, b: int|
            0 <= a < b < gaps_among(steps, n).len() ==> (#[trigger] gaps_among(steps, n)[a]) < (
            #[trigger] gaps_among(steps, n)[b]),
    decreases n,
{
    if n > 2 {
        law_gaps_are_all_found(steps, n - 1);
        lemma_places_step(
            gaps_among(steps, n - 1),
            gaps_among(steps, n),
            n - 1,
            gap_at(steps, n - 1),
        );
    }
}

/// The next sample is not before the time asked for, and all between the first and it are.
pub proof fn law_next_sample_is_first(times: Seq<Scalar>, t: Scalar, k: int, j: int)
    requires
        next_sample(times, t, k),
        1 <= j < times.len(),
    ensures
        1 <= k < times.len(),
        t.at_most(times[k]),
        t.at_most(times[j]) ==> k <= j,
{
}

/// The rail an aim ray meets lies ahead of it and holds the place where it is met, and no
/// rail that does so is nearer.
pub proof fn law_first_rail_is_nearest(hits: Seq<RayHit>, k: int, j: int)
    requires
        first_met(hits, k),
        0 <= j < hits.len(),
    ensures
        0 <= k < hits.len(),
        num(RAY_FLAT).less(hits[k].slope.unsigned()) && num(RAY_MIN).less(hits[k].t)
            && hits[k].lo.at_most(hits[k].along) && hits[k].along.at_most(hits[k].hi),
        num(RAY_FLAT).less(hits[j].slope.unsigned()) && num(RAY_MIN).less(hits[j].t)
            && hits[j].lo.at_most(hits[j].along) && hits[j].along.at_most(hits[j].hi)
            ==> hits[k].t.at_most(hits[j].t) && (j < k ==> hits[k].t.less(hits[j].t)),
{
    assert(hits[j].meets() || !hits[j].meets());
}

/// What runs are said to be is what is held of them, in their order.
pub proof fn law_runs_say_what_they_hold(v: Seq<(usize, usize)>, k: int)
    requires
        0 <= k < v.len(),
    ensures
        run_views(v).len() == v.len(),
        run_views(v)[k].0 == v[k].0,
        run_views(v)[k].1 == v[k].1,
{
}

} // verus!
