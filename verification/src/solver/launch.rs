//! The cue ball's launch, read directly off its initial free flight.
//!
//! A level shot travels straight on the cloth regardless of spin, so the
//! free-flight heading is the aim, and the speed over the same window is the
//! launch speed. The window is bounded by geometry and sufficiency: samples
//! accumulate until there are enough, stopping early where the cue ball nears an
//! object ball, approaches a rail it did not start beside, or bends off the
//! running chord.

use vstd::prelude::*;

use crate::order::lemma_places_step;
use crate::scalar::{num, Scalar};

verus! {

/// Wobble (m) as the ball leaves rest that is ignored: 0.015.
pub const MIN_MOVE: u64 = 0x3F8E_B851_EB85_1EB8;

/// Longest usable launch window (s): 0.45.
pub const MAX_T: u64 = 0x3FDC_CCCC_CCCC_CCCD;

/// A chord of this many samples…
pub const ENOUGH_N: usize = 3;

/// …spanning at least this much travel (m) is enough: 0.20.
pub const ENOUGH_D: u64 = 0x3FC9_9999_9999_999A;

/// Distance (m) at which an approaching rail ends the window: 0.035.
pub const RAIL_GUARD: u64 = 0x3FA1_EB85_1EB8_51EC;

/// The least cross-track jump (m) that counts as a bend: 0.025.
pub const BEND_MIN: u64 = 0x3F99_9999_9999_999A;

/// The launch speed is read over this time (s), and at least two samples: 0.17.
pub const SPEED_T: u64 = 0x3FC5_C28F_5C28_F5C3;

/// A spread of squared times below this is none: 1e-9.
pub const NO_SPREAD: u64 = 0x3E11_2E0B_E826_D695;

/// The slowest and the fastest launch (m/s): 0.1 and 8.
pub const SPEED_LO: u64 = 0x3FB9_9999_9999_999A;

pub const SPEED_HI: u64 = 0x4020_0000_0000_0000;

/// The launch speed (m/s) where none can be read: 2.
pub const SPEED_UNKNOWN: u64 = 0x4000_0000_0000_0000;

/// The heading spread (rad) where the heading is barely observed: 0.12.
pub const SPREAD_UNKNOWN: u64 = 0x3FBE_B851_EB85_1EB8;

/// The least heading spread (rad) of a single sample: 0.10.
pub const SPREAD_SINGLE: u64 = 0x3FB9_9999_9999_999A;

/// A sample this far (m) from a struck ball's rest shows its departure: 0.05.
pub const DEPARTED: u64 = 0x3FA9_9999_9999_999A;

/// A departure is read out to this distance (m): 0.20.
pub const DEPARTURE_END: u64 = 0x3FC9_9999_9999_999A;

/// A sample of the cue ball's track, as seen from where it started.
#[derive(Debug)]
pub struct LaunchSample {
    pub t: Scalar,
    /// Time since the first sample.
    pub age: Scalar,
    /// Distance from the first sample.
    pub moved: Scalar,
    /// Distances to the places where an object ball may rest.
    pub obstacles: Vec<Scalar>,
    /// Distances to the four rails.
    pub rails: [Scalar; 4],
    /// Distance from the chord to the sample before it that had moved.
    pub cross: Scalar,
    /// The share of the distance moved that a jump off the chord must exceed.
    pub bend: Scalar,
}

/// The cue ball's track, and what bounds its free flight.
#[derive(Debug)]
pub struct Launch {
    pub samples: Vec<LaunchSample>,
    /// Distances of the start to the four rails.
    pub start_rails: [Scalar; 4],
    /// Half a frame before an object ball is first seen moving.
    pub stop_at: Scalar,
    /// How near (m) an object ball's rest ends the flight.
    pub guard: Scalar,
}

/// The free flight: the last sample still at rest, and the samples in flight.
#[derive(Debug)]
pub struct Flight {
    pub rest: usize,
    pub free: Vec<usize>,
}

impl Launch {
    /// Whether sample `k` has left the rest.
    pub open spec fn moving(self, k: int) -> bool {
        0 <= k < self.samples@.len() && !self.samples@[k].moved.less(num(MIN_MOVE))
    }

    /// Whether sample `k` is at an object ball.
    pub open spec fn at_obstacle(self, k: int) -> bool {
        exists|o: int|
            0 <= o < self.samples@[k].obstacles@.len() && (
            #[trigger] self.samples@[k].obstacles@[o]).less(self.guard)
    }

    /// Whether sample `k` is beside rail `r`, and the start was not.
    pub open spec fn nears_rail(self, k: int, r: int) -> bool {
        self.samples@[k].rails@[r].less(num(RAIL_GUARD)) && !self.start_rails@[r].less(
            num(RAIL_GUARD),
        )
    }

    /// Whether sample `k` lies off the chord to the sample in flight before it.
    pub open spec fn bends(self, k: int) -> bool {
        &&& exists|j: int| j < k && #[trigger] self.moving(j)
        &&& self.samples@[k].bend.greater_of(num(BEND_MIN)).less(self.samples@[k].cross)
    }

    /// Whether the flight is over at sample `k`.
    pub open spec fn ends(self, k: int) -> bool {
        &&& self.moving(k)
        &&& {
            ||| num(MAX_T).less(self.samples@[k].age)
            ||| self.stop_at.at_most(self.samples@[k].t)
            ||| self.at_obstacle(k)
            ||| self.nears_rail(k, 0)
            ||| self.nears_rail(k, 1)
            ||| self.nears_rail(k, 2)
            ||| self.nears_rail(k, 3)
            ||| self.bends(k)
        }
    }

    /// Whether the flight lasts through the first `n` samples.
    pub open spec fn lasts(self, n: int) -> bool {
        forall|k: int| 0 <= k < n ==> !#[trigger] self.ends(k)
    }

    /// The samples in flight among the first `n`.
    pub open spec fn in_flight(self, n: int) -> Seq<int>
        decreases n,
    {
        if n <= 0 {
            seq![]
        } else if self.moving(n - 1) {
            self.in_flight(n - 1).push(n - 1)
        } else {
            self.in_flight(n - 1)
        }
    }

    /// The last sample at rest among the first `n`; the first sample where there
    /// is none.
    pub open spec fn last_rest(self, n: int) -> int
        decreases n,
    {
        if n <= 0 {
            0
        } else if !self.moving(n - 1) {
            n - 1
        } else {
            self.last_rest(n - 1)
        }
    }

    fn ended(&self, k: usize, flying: bool) -> (r: bool)
        requires
            k < self.samples@.len(),
            self.moving(k as int),
            flying <==> exists|j: int| j < k && #[trigger] self.moving(j),
        ensures
            r == self.ends(k as int),
    {
        let s: &LaunchSample = &self.samples[k];
        if s.age.gt(num(MAX_T)) || s.t.ge(self.stop_at) {
            return true;
        }
        for o in 0..s.obstacles.len()
            invariant
                k < self.samples@.len(),
                *s == self.samples@[k as int],
                self.moving(k as int),
                forall|i: int| 0 <= i < o ==> !(#[trigger] s.obstacles@[i]).less(self.guard),
        {
            if s.obstacles[o].lt(self.guard) {
                assert(self.samples@[k as int].obstacles@[o as int].less(self.guard));
                assert(self.at_obstacle(k as int));
                return true;
            }
        }
        assert(!self.at_obstacle(k as int));
        for r in 0..4usize
            invariant
                k < self.samples@.len(),
                *s == self.samples@[k as int],
                self.moving(k as int),
                forall|i: int| 0 <= i < r ==> !#[trigger] self.nears_rail(k as int, i),
        {
            if s.rails[r].lt(num(RAIL_GUARD)) && !self.start_rails[r].lt(num(RAIL_GUARD)) {
                assert(self.nears_rail(k as int, r as int));
                return true;
            }
        }
        assert(!self.nears_rail(k as int, 0) && !self.nears_rail(k as int, 1) && !self.nears_rail(
            k as int,
            2,
        ) && !self.nears_rail(k as int, 3));
        flying && s.cross.gt(s.bend.max(num(BEND_MIN)))
    }

    /// Whether these are the last sample at rest and the samples in flight, up to the
    /// one at which the flight is over.
    pub open spec fn flies(self, rest: int, free: Seq<int>) -> bool {
        exists|n: int| #[trigger]
            self.lasts(n) && 0 <= n <= self.samples@.len() && (n == self.samples@.len()
                || self.ends(n)) && rest == self.last_rest(n) && free == self.in_flight(n)
    }

    /// The free flight of the cue ball.
    pub fn flight(&self) -> (f: Flight)
        ensures
            self.flies(f.rest as int, f.free@.map_values(|k: usize| k as int)),
            forall|a: int|
                0 <= a < f.free@.len() ==> (#[trigger] f.free@[a]) < self.samples@.len(),
            f.rest < self.samples@.len() || f.rest == 0,
    {
        let mut rest: usize = 0;
        let mut free: Vec<usize> = Vec::new();
        let ghost as_int = |k: usize| k as int;
        assert(free@.map_values(as_int) =~= self.in_flight(0));
        for k in 0..self.samples.len()
            invariant
                as_int == (|k: usize| k as int),
                self.lasts(k as int),
                rest == self.last_rest(k as int),
                rest < k || rest == 0,
                free@.map_values(as_int) == self.in_flight(k as int),
                forall|a: int| 0 <= a < free@.len() ==> (#[trigger] free@[a]) < k,
                free@.len() > 0 <==> exists|j: int| j < k && #[trigger] self.moving(j),
        {
            if self.samples[k].moved.lt(num(MIN_MOVE)) {
                assert(!self.moving(k as int));
                rest = k;
            } else {
                assert(self.moving(k as int));
                if self.ended(k, free.len() > 0) {
                    assert(self.lasts(k as int));
                    assert(self.flies(rest as int, free@.map_values(as_int)));
                    return Flight { rest, free };
                }
                let ghost before = free@;
                free.push(k);
                assert(free@.map_values(as_int) =~= before.map_values(as_int).push(k as int));
            }
        }
        assert(self.lasts(self.samples@.len() as int));
        assert(self.flies(rest as int, free@.map_values(as_int)));
        Flight { rest, free }
    }

    /// How far each sample has moved.
    pub open spec fn moves(self) -> Seq<Scalar> {
        Seq::new(self.samples@.len(), |k: int| self.samples@[k].moved)
    }

    /// Read the launch off the flight: its chord ends at the first sample that
    /// suffices. Without a flight there is still the first sample past the wobble.
    pub fn read(&self) -> (r: LaunchReading)
        ensures
            match r {
                LaunchReading::Unknown => {
                    &&& exists|rest: int| #[trigger] self.flies(rest, seq![])
                    &&& forall|k: int| !#[trigger] first_past(self.moves(), k)
                },
                LaunchReading::Blurred { rest, sample } => {
                    &&& self.flies(rest as int, seq![])
                    &&& first_past(self.moves(), sample as int)
                    &&& rest < self.samples@.len()
                },
                LaunchReading::Flight { rest, free, end } => {
                    &&& self.flies(rest as int, free@.map_values(|k: usize| k as int))
                    &&& chord_ends(
                        free@.map_values(|k: usize| self.samples@[k as int].moved),
                        end as int,
                    )
                    &&& rest < self.samples@.len()
                    &&& forall|a: int|
                        0 <= a < free@.len() ==> (#[trigger] free@[a]) < self.samples@.len()
                },
            },
    {
        let f: Flight = self.flight();
        let ghost as_int = |k: usize| k as int;
        if f.free.len() == 0 {
            assert(f.free@.map_values(as_int) =~= seq![]);
            let mut moved: Vec<Scalar> = Vec::new();
            for k in 0..self.samples.len()
                invariant
                    moved@ == self.moves().take(k as int),
            {
                moved.push(self.samples[k].moved);
                assert(moved@ =~= self.moves().take(k + 1));
            }
            assert(moved@ =~= self.moves());
            match fallback_sample(moved.as_slice()) {
                Some(sample) => LaunchReading::Blurred { rest: f.rest, sample },
                None => LaunchReading::Unknown,
            }
        } else {
            let ghost moved_by = |k: usize| self.samples@[k as int].moved;
            let mut moved: Vec<Scalar> = Vec::new();
            for a in 0..f.free.len()
                invariant
                    moved_by == (|k: usize| self.samples@[k as int].moved),
                    moved@ == f.free@.map_values(moved_by).take(a as int),
                    forall|a: int|
                        0 <= a < f.free@.len() ==> (#[trigger] f.free@[a]) < self.samples@.len(),
            {
                moved.push(self.samples[f.free[a]].moved);
                assert(moved@ =~= f.free@.map_values(moved_by).take(a + 1));
            }
            assert(moved@ =~= f.free@.map_values(moved_by));
            assert(f.free@[0] < self.samples@.len());
            let end: usize = chord_end(moved.as_slice());
            LaunchReading::Flight { rest: f.rest, free: f.free, end }
        }
    }
}

/// What the cue ball's samples say of its launch.
#[derive(Debug)]
pub enum LaunchReading {
    /// Nothing: it never left the wobble.
    Unknown,
    /// Only one sample, after the last one at rest.
    Blurred { rest: usize, sample: usize },
    /// A flight after the last sample at rest, whose heading is the chord to the sample
    /// in place `end` of it.
    Flight { rest: usize, free: Vec<usize>, end: usize },
}

/// Whether the chord to sample `i` of a flight is enough.
pub open spec fn suffices(moved: Seq<Scalar>, i: int) -> bool {
    i + 1 >= ENOUGH_N && num(ENOUGH_D).at_most(moved[i])
}

/// Whether the chord to sample `end` is the heading: the first that suffices, or the
/// last there is.
pub open spec fn chord_ends(moved: Seq<Scalar>, end: int) -> bool {
    &&& 0 <= end < moved.len()
    &&& suffices(moved, end) || end == moved.len() - 1
    &&& forall|i: int| #![trigger moved[i]] 0 <= i < end ==> !suffices(moved, i)
}

/// The sample of a flight whose chord is the heading.
pub fn chord_end(moved: &[Scalar]) -> (end: usize)
    requires
        moved@.len() > 0,
    ensures
        chord_ends(moved@, end as int),
{
    for i in 0..moved.len()
        invariant
            forall|k: int| #![trigger moved@[k]] 0 <= k < i ==> !suffices(moved@, k),
    {
        if i >= ENOUGH_N - 1 && moved[i].ge(num(ENOUGH_D)) {
            return i;
        }
    }
    moved.len() - 1
}

/// How many samples of a flight the launch speed is read from, given the time of
/// each since the rest.
pub fn speed_samples(dts: &[Scalar]) -> (n: usize)
    ensures
        n <= dts@.len(),
        forall|i: int| 2 <= i < n ==> !num(SPEED_T).less(#[trigger] dts@[i]),
        n < dts@.len() ==> n >= 2 && num(SPEED_T).less(dts@[n as int]),
{
    for i in 0..dts.len()
        invariant
            forall|k: int| 2 <= k < i ==> !num(SPEED_T).less(#[trigger] dts@[k]),
    {
        if dts[i].gt(num(SPEED_T)) && i >= 2 {
            return i;
        }
    }
    dts.len()
}

/// The launch speed, from the spread of squared times and the slope.
pub fn launch_speed(spread: Scalar, slope: Scalar) -> (v: Scalar)
    ensures
        v == (if num(NO_SPREAD).less(spread) {
            slope.clamped(num(SPEED_LO), num(SPEED_HI))
        } else {
            num(SPEED_UNKNOWN)
        }),
        !slope.nan() ==> num(SPEED_LO).at_most(v) && v.at_most(num(SPEED_HI)),
        num(NO_SPREAD).less(spread) && num(SPEED_LO).at_most(slope) && slope.at_most(num(SPEED_HI))
            ==> v == slope,
{
    if spread.gt(num(NO_SPREAD)) {
        slope.clamp(num(SPEED_LO), num(SPEED_HI))
    } else {
        num(SPEED_UNKNOWN)
    }
}

/// Whether sample `k` is the first past the wobble.
pub open spec fn first_past(moved: Seq<Scalar>, k: int) -> bool {
    &&& 0 <= k < moved.len()
    &&& num(MIN_MOVE).at_most(moved[k])
    &&& forall|j: int| 0 <= j < k ==> !num(MIN_MOVE).at_most(#[trigger] moved[j])
}

/// The first sample past the wobble, where there is no flight.
pub fn fallback_sample(moved: &[Scalar]) -> (r: Option<usize>)
    ensures
        match r {
            Some(k) => first_past(moved@, k as int),
            None => forall|k: int| !#[trigger] first_past(moved@, k),
        },
{
    for k in 0..moved.len()
        invariant
            forall|j: int| 0 <= j < k ==> !num(MIN_MOVE).at_most(#[trigger] moved@[j]),
    {
        if moved[k].ge(num(MIN_MOVE)) {
            return Some(k);
        }
    }
    None
}

/// Whether a struck ball's departure is read no further than sample `k`.
pub open spec fn read_through(dists: Seq<Scalar>, k: int) -> bool {
    forall|j: int| 0 <= j < k ==> !num(DEPARTURE_END).less(#[trigger] dists[j])
}

/// Whether sample `k` shows a struck ball's departure: the last one away from its
/// rest, out to the first that is far away.
pub open spec fn departure_at(dists: Seq<Scalar>, k: int) -> bool {
    &&& 0 <= k < dists.len()
    &&& num(DEPARTED).less(dists[k])
    &&& read_through(dists, k)
    &&& forall|j: int|
        k < j < dists.len() && num(DEPARTED).less(#[trigger] dists[j]) ==> !read_through(dists, j)
}

/// The sample that shows a struck ball's departure.
pub fn departure_sample(dists: &[Scalar]) -> (r: Option<usize>)
    ensures
        match r {
            Some(k) => departure_at(dists@, k as int),
            None => forall|j: int|
                0 <= j < dists@.len() && num(DEPARTED).less(#[trigger] dists@[j])
                    ==> !read_through(dists@, j),
        },
{
    let mut best: Option<usize> = None;
    for k in 0..dists.len()
        invariant
            read_through(dists@, k as int),
            match best {
                Some(b) => b < k && num(DEPARTED).less(dists@[b as int]) && forall|j: int|
                    b < j < k ==> !num(DEPARTED).less(#[trigger] dists@[j]),
                None => forall|j: int| 0 <= j < k ==> !num(DEPARTED).less(#[trigger] dists@[j]),
            },
    {
        if dists[k].gt(num(DEPARTED)) {
            best = Some(k);
        }
        if dists[k].gt(num(DEPARTURE_END)) {
            assert forall|j: int| k < j < dists@.len() implies !read_through(dists@, j) by {
                assert(num(DEPARTURE_END).less(dists@[k as int]));
            }
            return best;
        }
    }
    best
}

/// Whether a departure is long enough to give a direction.
pub fn departs(length: Scalar) -> (r: bool)
    ensures
        r == num(DEPARTED).less(length),
{
    length.gt(num(DEPARTED))
}

impl Launch {
    /// The samples in flight are all that have left the rest, in their order; the last one at
    /// rest is the last that has not, or the first sample where all have.
    pub proof fn law_flight_is_what_moved(self, n: int)
        requires
            0 <= n <= self.samples@.len(),
        ensures
            forall|k: int| #[trigger]
                self.in_flight(n).contains(k) <==> 0 <= k < n && !self.samples@[k].moved.less(
                    num(MIN_MOVE),
                ),
            forall|a: int, b: int|
                0 <= a < b < self.in_flight(n).len() ==> (#[trigger] self.in_flight(n)[a]) < (
                #[trigger] self.in_flight(n)[b]),
            0 <= self.last_rest(n),
            n > 0 ==> self.last_rest(n) < n,
            forall|k: int|
                self.last_rest(n) < k < n ==> !(#[trigger] self.samples@[k]).moved.less(
                    num(MIN_MOVE),
                ),
            n > 0 && self.last_rest(n) > 0 ==> self.samples@[self.last_rest(n)].moved.less(
                num(MIN_MOVE),
            ),
        decreases n,
    {
        if n > 0 {
            self.law_flight_is_what_moved(n - 1);
            lemma_places_step(
                self.in_flight(n - 1),
                self.in_flight(n),
                n - 1,
                self.moving(n - 1),
            );
        }
    }

    /// The flight goes on exactly as long as nothing ends it: it is over at the first sample
    /// past the wobble that comes too late, is at an object ball, beside a rail where the
    /// start was not, or bent off the chord.
    pub proof fn law_flight_ends_at_the_first_cause(self, rest: int, free: Seq<int>) -> (n: int)
        requires
            self.flies(rest, free),
        ensures
            0 <= n <= self.samples@.len(),
            rest == self.last_rest(n),
            free == self.in_flight(n),
            forall|k: int| #![trigger self.samples@[k]]
                0 <= k < n && !self.samples@[k].moved.less(num(MIN_MOVE)) ==> {
                    &&& !num(MAX_T).less(self.samples@[k].age)
                    &&& !self.stop_at.at_most(self.samples@[k].t)
                    &&& forall|o: int|
                        0 <= o < self.samples@[k].obstacles@.len() ==> !(
                        #[trigger] self.samples@[k].obstacles@[o]).less(self.guard)
                    &&& forall|r: int|
                        0 <= r < 4 && (#[trigger] self.samples@[k].rails@[r]).less(num(RAIL_GUARD))
                            ==> self.start_rails@[r].less(num(RAIL_GUARD))
                    &&& k > rest && free.contains(k) && free[0] < k ==> !self.samples@[k].bend.greater_of(
                        num(BEND_MIN),
                    ).less(self.samples@[k].cross)
                },
            n < self.samples@.len() ==> !self.samples@[n].moved.less(num(MIN_MOVE)) && {
                ||| num(MAX_T).less(self.samples@[n].age)
                ||| self.stop_at.at_most(self.samples@[n].t)
                ||| exists|o: int|
                    0 <= o < self.samples@[n].obstacles@.len() && (
                    #[trigger] self.samples@[n].obstacles@[o]).less(self.guard)
                ||| exists|r: int|
                    0 <= r < 4 && (#[trigger] self.samples@[n].rails@[r]).less(num(RAIL_GUARD))
                        && !self.start_rails@[r].less(num(RAIL_GUARD))
                ||| free.len() > 0 && self.samples@[n].bend.greater_of(num(BEND_MIN)).less(
                    self.samples@[n].cross,
                )
            },
    {
        let n = choose|n: int| #[trigger]
            self.lasts(n) && 0 <= n <= self.samples@.len() && (n == self.samples@.len()
                || self.ends(n)) && rest == self.last_rest(n) && free == self.in_flight(n);
        self.law_flight_is_what_moved(n);
        assert forall|k: int| #![trigger self.samples@[k]]
            0 <= k < n && !self.samples@[k].moved.less(num(MIN_MOVE)) implies {
            &&& !num(MAX_T).less(self.samples@[k].age)
            &&& !self.stop_at.at_most(self.samples@[k].t)
            &&& forall|o: int|
                0 <= o < self.samples@[k].obstacles@.len() ==> !(
                #[trigger] self.samples@[k].obstacles@[o]).less(self.guard)
            &&& forall|r: int|
                0 <= r < 4 && (#[trigger] self.samples@[k].rails@[r]).less(num(RAIL_GUARD))
                    ==> self.start_rails@[r].less(num(RAIL_GUARD))
            &&& k > rest && free.contains(k) && free[0] < k ==> !self.samples@[k].bend.greater_of(
                num(BEND_MIN),
            ).less(self.samples@[k].cross)
        } by {
            assert(!self.ends(k));
            assert(self.moving(k));
            assert(!self.at_obstacle(k));
            if free.contains(k) && free[0] < k {
                assert(free.contains(free[0]));
                assert(self.moving(free[0]));
            }
            assert forall|r: int|
                0 <= r < 4 && (#[trigger] self.samples@[k].rails@[r]).less(
                    num(RAIL_GUARD),
                ) implies self.start_rails@[r].less(num(RAIL_GUARD)) by {
                assert(!self.nears_rail(k, r));
            }
        }
        if n < self.samples@.len() {
            assert(self.ends(n));
            if self.bends(n) {
                let j = choose|j: int| j < n && #[trigger] self.moving(j);
                assert(free.contains(j));
            }
            if self.nears_rail(n, 0) {
                assert(self.samples@[n].rails@[0].less(num(RAIL_GUARD)));
            }
            if self.nears_rail(n, 1) {
                assert(self.samples@[n].rails@[1].less(num(RAIL_GUARD)));
            }
            if self.nears_rail(n, 2) {
                assert(self.samples@[n].rails@[2].less(num(RAIL_GUARD)));
            }
            if self.nears_rail(n, 3) {
                assert(self.samples@[n].rails@[3].less(num(RAIL_GUARD)));
            }
        }
        n
    }
}

/// The heading is the chord to the first sample of a flight, from the third on, with enough
/// travel, or to the last one.
pub proof fn law_chord_is_long_enough(moved: Seq<Scalar>, end: int)
    requires
        chord_ends(moved, end),
    ensures
        0 <= end < moved.len(),
        end < moved.len() - 1 ==> end >= 2 && num(ENOUGH_D).at_most(moved[end]),
        forall|i: int| 2 <= i < end ==> !num(ENOUGH_D).at_most(#[trigger] moved[i]),
{
    assert forall|i: int| 2 <= i < end implies !num(ENOUGH_D).at_most(
        #[trigger] moved[i],
    ) by {
        assert(!suffices(moved, i));
    }
}

/// A struck ball's departure is its last sample away from the rest before it is read no
/// further, which is once a sample is far away.
pub proof fn law_departure_is_the_last_read(dists: Seq<Scalar>, k: int, j: int)
    requires
        departure_at(dists, k),
        0 <= j < dists.len(),
    ensures
        0 <= k < dists.len() && num(DEPARTED).less(dists[k]),
        j < k ==> !num(DEPARTURE_END).less(dists[j]),
        j > k && num(DEPARTED).less(dists[j]) ==> exists|f: int|
            0 <= f < j && num(DEPARTURE_END).less(#[trigger] dists[f]),
{
}

/// The moves of a launch are those of its samples, in their order.
pub proof fn law_moves_are_the_samples(l: Launch, k: int)
    requires
        0 <= k < l.samples@.len(),
    ensures
        l.moves().len() == l.samples@.len(),
        l.moves()[k] == l.samples@[k].moved,
{
}

/// Without a flight the launch is read off the first sample past the wobble.
pub proof fn law_fallback_is_the_first_past(moved: Seq<Scalar>, k: int, j: int)
    requires
        first_past(moved, k),
        0 <= j < moved.len(),
    ensures
        0 <= k < moved.len(),
        num(MIN_MOVE).at_most(moved[k]),
        num(MIN_MOVE).at_most(moved[j]) ==> k <= j,
{
}

} // verus!
