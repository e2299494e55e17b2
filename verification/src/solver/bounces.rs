//! Cushion bounces that a track confidently shows.
//!
//! A bounce is a V in the distance to a rail: the ball comes near and verifiably
//! approaches and departs, with real perpendicular speed both ways.

use vstd::prelude::*;

use crate::order::{lemma_places_step, rank_keys, rank_keys_of, sorts, stable_order};
use crate::scalar::{num, Scalar, ZERO};
use crate::solver::testimony::{Sighting, REACH};

verus! {

/// A V this close (m) to the nose makes a contact plausible: 0.16.
pub const NEAR: u64 = 0x3FC4_7AE1_47AE_147B;

/// The perpendicular speed (m/s) a bounce has both ways: 0.20.
pub const V_MIN: u64 = 0x3FC9_9999_9999_999A;

/// How far (s) around the minimum the rise is looked for: 0.40.
pub const SIDE_T: u64 = 0x3FD9_9999_9999_999A;

/// Two rails' minima this close (s) are one event: 0.10.
pub const CORNER_T: u64 = 0x3FB9_9999_9999_999A;

/// How close in time (s) a ball nearby casts doubt on a bounce: 0.2.
pub const CROWD_T: u64 = 0x3FC9_9999_9999_999A;

/// The last index of the near stretch that `i` is in.
pub open spec fn stretch_end(d: Seq<Scalar>, i: int) -> int
    decreases d.len() - i,
{
    if 0 <= i && i + 1 < d.len() && d[i + 1].less(num(NEAR)) {
        stretch_end(d, i + 1)
    } else {
        i
    }
}

/// Whether `m` is the first of the least distances from `i` to `j`.
pub open spec fn lowest(d: Seq<Scalar>, i: int, j: int, m: int) -> bool {
    &&& i <= m <= j
    &&& forall|k: int|
        i <= k <= j ==> d[m].rank() <= (#[trigger] d[k]).rank() && (k < m ==> d[m].rank()
            < d[k].rank())
}

/// The places, from `i` on, at which a near stretch is closest to the rail.
pub open spec fn dips_from(d: Seq<Scalar>, i: int) -> Seq<int>
    decreases d.len() - i,
    via dips_from_decreases
{
    if i < 0 || i >= d.len() {
        seq![]
    } else if num(NEAR).at_most(d[i]) {
        dips_from(d, i + 1)
    } else {
        let j = stretch_end(d, i);
        seq![choose|m: int| lowest(d, i, j, m)] + dips_from(d, j + 1)
    }
}

#[via_fn]
proof fn dips_from_decreases(d: Seq<Scalar>, i: int) {
    lemma_stretch_end(d, i);
}

proof fn lemma_stretch_end(d: Seq<Scalar>, i: int)
    ensures
        stretch_end(d, i) >= i,
        0 <= i < d.len() ==> stretch_end(d, i) < d.len(),
    decreases d.len() - i,
{
    if 0 <= i && i + 1 < d.len() && d[i + 1].less(num(NEAR)) {
        lemma_stretch_end(d, i + 1);
    }
}

/// Where each near stretch is closest to the rail, from the distances to it.
pub fn dips(d: &[Scalar]) -> (r: Vec<usize>)
    ensures
        r@.len() == dips_from(d@, 0).len(),
        forall|k: int| 0 <= k < r@.len() ==> #[trigger] r@[k] == dips_from(d@, 0)[k],
        forall|k: int| 0 <= k < r@.len() ==> #[trigger] r@[k] < d@.len(),
{
    let mut r: Vec<usize> = Vec::new();
    let ghost mut done: Seq<int> = seq![];
    let mut i: usize = 0;
    assert(done + dips_from(d@, 0) =~= dips_from(d@, 0));
    while i < d.len()
        invariant
            i <= d@.len(),
            dips_from(d@, 0) == done + dips_from(d@, i as int),
            r@.len() == done.len(),
            forall|k: int| 0 <= k < r@.len() ==> #[trigger] r@[k] == done[k] && r@[k] < d@.len(),
        decreases d@.len() - i,
    {
        if d[i].ge(num(NEAR)) {
            i += 1;
            continue;
        }
        let mut j: usize = i;
        let mut m: usize = i;
        while j < d.len() - 1 && d[j + 1].lt(num(NEAR))
            invariant
                i <= j < d@.len(),
                lowest(d@, i as int, j as int, m as int),
                stretch_end(d@, i as int) == stretch_end(d@, j as int),
            decreases d@.len() - j,
        {
            j += 1;
            if d[j].ranks_before(d[m]) {
                m = j;
            }
        }
        proof {
            let w = choose|w: int| lowest(d@, i as int, j as int, w);
            assert(lowest(d@, i as int, j as int, w));
            assert(w == m);
            let next = dips_from(d@, j + 1);
            assert(dips_from(d@, i as int) == seq![m as int] + next);
            assert(done + (seq![m as int] + next) =~= done.push(m as int) + next);
            done = done.push(m as int);
        }
        r.push(m);
        i = j + 1;
    }
    assert(dips_from(d@, 0) =~= done);
    r
}

/// A sample beside a minimum: how far away in time, its distance to the rail, and
/// the slope from the minimum to it.
#[derive(Clone, Copy, Debug)]
pub struct SideSample {
    pub age: Scalar,
    pub height: Scalar,
    pub slope: Scalar,
}

/// Whether sample `k` counts: it and all samples nearer to the minimum are within
/// the time looked at, and it rises above `floor`.
pub open spec fn rises(side: Seq<SideSample>, floor: Scalar, k: int) -> bool {
    &&& 0 <= k < side.len()
    &&& forall|i: int| 0 <= i <= k ==> (#[trigger] side[i]).age.at_most(num(SIDE_T))
    &&& floor.less(side[k].height)
}

/// The steepest rise beside a minimum, going away from it; 0 when there is none.
pub fn steepest(side: &[SideSample], floor: Scalar) -> (v: Scalar)
    ensures
        !v.nan(),
        v == num(ZERO) || exists|k: int| #[trigger] rises(side@, floor, k) && v == side@[k].slope,
        num(ZERO).at_most(v),
        forall|k: int| #[trigger]
            rises(side@, floor, k) && !side@[k].slope.nan() ==> side@[k].slope.at_most(v),
{
    let mut v: Scalar = num(ZERO);
    for k in 0..side.len()
        invariant
            !v.nan(),
            num(ZERO).at_most(v),
            v == num(ZERO) || exists|i: int| #[trigger]
                rises(side@, floor, i) && v == side@[i].slope,
            forall|i: int| 0 <= i < k ==> (#[trigger] side@[i]).age.at_most(num(SIDE_T)),
            forall|i: int| #[trigger]
                rises(side@, floor, i) && i < k && !side@[i].slope.nan() ==> side@[i].slope.at_most(
                    v,
                ),
    {
        if !side[k].age.le(num(SIDE_T)) {
            return v;
        }
        if side[k].height.gt(floor) {
            assert(rises(side@, floor, k as int));
            v = v.max(side[k].slope);
        }
    }
    v
}

/// Whether a minimum is a bounce: real perpendicular speed both ways.
pub fn is_bounce(v_in: Scalar, v_out: Scalar) -> (r: bool)
    ensures
        r == (num(V_MIN).less(v_in) && num(V_MIN).less(v_out)),
{
    v_in.gt(num(V_MIN)) && v_out.gt(num(V_MIN))
}

/// A bounce candidate: when, off which rail, and how hard.
#[derive(Clone, Copy, Debug)]
pub struct Bounce {
    pub time: Scalar,
    pub rail: u8,
    pub strength: Scalar,
}

/// The candidates of one track.
#[derive(Debug)]
pub struct Found {
    pub bounces: Vec<Bounce>,
    /// `gaps[a][b]`: how much later candidate `b` is than candidate `a`.
    pub gaps: Vec<Vec<Scalar>>,
}

impl Found {
    pub open spec fn wf(self) -> bool {
        &&& self.gaps@.len() == self.bounces@.len()
        &&& forall|a: int|
            0 <= a < self.gaps@.len() ==> (#[trigger] self.gaps@[a])@.len() == self.bounces@.len()
    }

    pub open spec fn times(self) -> Seq<Scalar> {
        self.bounces@.map_values(|b: Bounce| b.time)
    }

    /// Whether the candidates at places `a` and `b` of the order `p` are too far
    /// apart in time to be one event.
    pub open spec fn apart(self, p: Seq<usize>, a: int, b: int) -> bool {
        num(CORNER_T).less(self.gaps@[p[a] as int]@[p[b] as int])
    }

    pub open spec fn rail_at(self, p: Seq<usize>, a: int) -> u8 {
        self.bounces@[p[a] as int].rail
    }

    pub open spec fn strength_at(self, p: Seq<usize>, a: int) -> Scalar {
        self.bounces@[p[a] as int].strength
    }

    /// Two candidates off different rails at one moment are one impact: the softer
    /// one is dropped, the later one where they are equally hard.
    pub open spec fn judged(self, p: Seq<usize>, keep: Seq<bool>, a: int, b: int) -> Seq<bool> {
        if keep[a] && keep[b] && self.rail_at(p, a) != self.rail_at(p, b) {
            if self.strength_at(p, b).at_most(self.strength_at(p, a)) {
                keep.update(b, false)
            } else {
                keep.update(a, false)
            }
        } else {
            keep
        }
    }

    /// Candidate `a` against those from `b` on, as long as they are one event.
    pub open spec fn row(self, p: Seq<usize>, keep: Seq<bool>, a: int, b: int) -> Seq<bool>
        decreases p.len() - b,
    {
        if b >= p.len() || self.apart(p, a, b) {
            keep
        } else {
            self.row(p, self.judged(p, keep, a, b), a, b + 1)
        }
    }

    /// All candidates from `a` on, each against those after it.
    pub open spec fn rows(self, p: Seq<usize>, keep: Seq<bool>, a: int) -> Seq<bool>
        decreases p.len() - a,
    {
        if a >= p.len() {
            keep
        } else {
            self.rows(p, self.row(p, keep, a, a + 1), a + 1)
        }
    }

    /// What is kept of the candidates in the order `p`.
    pub open spec fn kept(self, p: Seq<usize>) -> Seq<bool> {
        self.rows(p, Seq::new(p.len(), |i: int| true), 0)
    }

    /// The candidates that are kept, of the first `n` in the order `p`.
    pub open spec fn claimed(self, p: Seq<usize>, n: int) -> Seq<usize>
        decreases n,
    {
        if n <= 0 {
            seq![]
        } else if self.kept(p)[n - 1] {
            self.claimed(p, n - 1).push(p[n - 1])
        } else {
            self.claimed(p, n - 1)
        }
    }

    /// The bounces the track shows, as indices of candidates in the order of
    /// time: where two rails have their minimum at one moment, only the harder
    /// impact is claimed.
    pub fn settle(&self) -> (r: Vec<usize>)
        requires
            self.wf(),
        ensures
            exists|p: Seq<usize>| #[trigger]
                sorts(rank_keys_of(self.times()), p) && r@ == self.claimed(p, p.len() as int),
    {
        let n: usize = self.bounces.len();
        let mut times: Vec<Scalar> = Vec::new();
        for k in 0..n
            invariant
                n == self.bounces@.len(),
                times@ == self.times().take(k as int),
        {
            times.push(self.bounces[k].time);
            assert(self.times().take(k + 1) =~= self.times().take(k as int).push(
                self.bounces@[k as int].time,
            ));
        }
        assert(self.times().take(n as int) =~= self.times());
        let p: Vec<usize> = stable_order(rank_keys(times.as_slice()).as_slice());
        let mut keep: Vec<bool> = Vec::new();
        for k in 0..n
            invariant
                keep@ == Seq::new(k as nat, |i: int| true),
        {
            keep.push(true);
            assert(keep@ =~= Seq::new((k + 1) as nat, |i: int| true));
        }
        for a in 0..n
            invariant
                self.wf(),
                n == self.bounces@.len(),
                p@.len() == n,
                forall|i: int| 0 <= i < n ==> #[trigger] p@[i] < n,
                keep@.len() == n,
                self.rows(p@, keep@, a as int) == self.kept(p@),
        {
            let ghost start = keep@;
            let mut b: usize = a + 1;
            while b < n && !self.gaps[p[a]][p[b]].gt(num(CORNER_T))
                invariant
                    self.wf(),
                    n == self.bounces@.len(),
                    p@.len() == n,
                    forall|i: int| 0 <= i < n ==> #[trigger] p@[i] < n,
                    keep@.len() == n,
                    a < b <= n,
                    self.row(p@, keep@, a as int, b as int) == self.row(
                        p@,
                        start,
                        a as int,
                        a + 1,
                    ),
                decreases n - b,
            {
                let x: Bounce = self.bounces[p[a]];
                let y: Bounce = self.bounces[p[b]];
                if keep[a] && keep[b] && x.rail != y.rail {
                    let drop: usize = if x.strength.ge(y.strength) {
                        b
                    } else {
                        a
                    };
                    keep[drop] = false;
                }
                b += 1;
            }
        }
        let mut r: Vec<usize> = Vec::new();
        for k in 0..n
            invariant
                p@.len() == n,
                keep@.len() == n,
                keep@ == self.kept(p@),
                r@ == self.claimed(p@, k as int),
        {
            if keep[k] {
                r.push(p[k]);
            }
        }
        r
    }

    proof fn lemma_row_lowers(self, p: Seq<usize>, keep: Seq<bool>, a: int, b: int)
        requires
            keep.len() == p.len(),
            0 <= a < b,
        ensures
            self.row(p, keep, a, b).len() == keep.len(),
            forall|i: int| 0 <= i < keep.len() && #[trigger] self.row(p, keep, a, b)[i] ==> keep[i],
        decreases p.len() - b,
    {
        if b < p.len() && !self.apart(p, a, b) {
            self.lemma_row_lowers(p, self.judged(p, keep, a, b), a, b + 1);
        }
    }

    proof fn lemma_rows_lower(self, p: Seq<usize>, keep: Seq<bool>, a: int)
        requires
            keep.len() == p.len(),
            0 <= a,
        ensures
            self.rows(p, keep, a).len() == keep.len(),
            forall|i: int| 0 <= i < keep.len() && #[trigger] self.rows(p, keep, a)[i] ==> keep[i],
        decreases p.len() - a,
    {
        if a < p.len() {
            self.lemma_row_lowers(p, keep, a, a + 1);
            self.lemma_rows_lower(p, self.row(p, keep, a, a + 1), a + 1);
        }
    }

    proof fn lemma_row_settles(self, p: Seq<usize>, keep: Seq<bool>, a: int, b: int, c: int)
        requires
            keep.len() == p.len(),
            0 <= a < b <= c < p.len(),
            forall|k: int| b <= k <= c ==> !#[trigger] self.apart(p, a, k),
            self.rail_at(p, a) != self.rail_at(p, c),
        ensures
            !(self.row(p, keep, a, b)[a] && self.row(p, keep, a, b)[c]),
        decreases c - b,
    {
        let next = self.judged(p, keep, a, b);
        self.lemma_row_lowers(p, next, a, b + 1);
        if b < c {
            self.lemma_row_settles(p, next, a, b + 1, c);
        }
    }

    proof fn lemma_rows_settle(self, p: Seq<usize>, keep: Seq<bool>, from: int, a: int, c: int)
        requires
            keep.len() == p.len(),
            0 <= from <= a < c < p.len(),
            forall|k: int| a < k <= c ==> !#[trigger] self.apart(p, a, k),
            self.rail_at(p, a) != self.rail_at(p, c),
        ensures
            !(self.rows(p, keep, from)[a] && self.rows(p, keep, from)[c]),
        decreases a - from,
    {
        let next = self.row(p, keep, from, from + 1);
        self.lemma_row_lowers(p, keep, from, from + 1);
        self.lemma_rows_lower(p, next, from + 1);
        if from == a {
            self.lemma_row_settles(p, keep, a, a + 1, c);
        } else {
            self.lemma_rows_settle(p, next, from + 1, a, c);
        }
    }

    /// Of two bounces off different rails that are one event, at most one is kept.
    pub proof fn law_one_rail_per_moment(self, p: Seq<usize>, a: int, c: int)
        requires
            0 <= a < c < p.len(),
            forall|k: int| a < k <= c ==> !#[trigger] self.apart(p, a, k),
            self.rail_at(p, a) != self.rail_at(p, c),
        ensures
            !(self.kept(p)[a] && self.kept(p)[c]),
    {
        self.lemma_rows_settle(p, Seq::new(p.len(), |i: int| true), 0, a, c);
    }
}

/// Whether sample `s` of ball `j` shows it close to a bounce of `ball`.
pub open spec fn beside(others: Seq<Vec<Sighting>>, ball: usize, j: int, s: int) -> bool {
    &&& 0 <= j < others.len()
    &&& j != ball
    &&& 0 <= s < others[j]@.len()
    &&& others[j]@[s].t.less(num(CROWD_T))
    &&& others[j]@[s].from_rest.less(num(REACH))
}

/// Whether some ball other than `ball` was close to a bounce: the sightings give
/// the time between, and the distance from where it happened. A collision with
/// that ball would explain the reversal as well.
pub fn crowded(ball: usize, others: &[Vec<Sighting>]) -> (r: bool)
    ensures
        r <==> exists|j: int, s: int| beside(others@, ball, j, s),
{
    for j in 0..others.len()
        invariant
            forall|j2: int, s: int| j2 < j ==> !#[trigger] beside(others@, ball, j2, s),
    {
        if j != ball {
            let len: usize = others[j].len();
            for s in 0..len
                invariant
                    j < others@.len(),
                    j != ball,
                    len == others@[j as int]@.len(),
                    forall|s2: int| s2 < s ==> !#[trigger] beside(others@, ball, j as int, s2),
            {
                let x: Sighting = others[j][s];
                if x.t.lt(num(CROWD_T)) && x.from_rest.lt(num(REACH)) {
                    assert(beside(others@, ball, j as int, s as int));
                    return true;
                }
            }
        }
    }
    false
}

/// A bounce that a track shows: the sample that is closest to the rail, and which of the
/// rail's near stretches it is in.
#[derive(Clone, Copy, Debug)]
pub struct Seen {
    pub sample: usize,
    pub dip: usize,
    pub bounce: Bounce,
}

/// What lies on both sides of a minimum.
#[derive(Debug)]
pub struct Sides {
    /// The height a sample must rise above, past the minimum and the jitter.
    pub floor: Scalar,
    /// The samples before it and after it, each going away from it.
    pub before: Vec<SideSample>,
    pub after: Vec<SideSample>,
    /// How hard an impact here would be: the steepest rises of both sides together.
    pub strength: Scalar,
    /// Where the balls were seen: how far away in time, and from where the minimum is.
    pub around: Vec<Vec<Sighting>>,
}

/// Whether some sample beside a minimum rises with real speed.
pub open spec fn springs(side: Seq<SideSample>, floor: Scalar) -> bool {
    exists|k: int| #[trigger] rises(side, floor, k) && num(V_MIN).less(side[k].slope)
}

impl Sides {
    /// Whether the minimum is a bounce: it rises with real speed on both sides.
    pub open spec fn shows(self) -> bool {
        springs(self.before@, self.floor) && springs(self.after@, self.floor)
    }

    fn show(&self) -> (r: bool)
        ensures
            r == self.shows(),
    {
        let v_in: Scalar = steepest(self.before.as_slice(), self.floor);
        let v_out: Scalar = steepest(self.after.as_slice(), self.floor);
        proof {
            lemma_springs(self.before@, self.floor, v_in);
            lemma_springs(self.after@, self.floor, v_out);
        }
        is_bounce(v_in, v_out)
    }
}

proof fn lemma_springs(side: Seq<SideSample>, floor: Scalar, v: Scalar)
    requires
        !v.nan(),
        v == num(ZERO) || exists|k: int| #[trigger] rises(side, floor, k) && v == side[k].slope,
        forall|k: int| #[trigger]
            rises(side, floor, k) && !side[k].slope.nan() ==> side[k].slope.at_most(v),
    ensures
        num(V_MIN).less(v) == springs(side, floor),
{
    assert(!num(V_MIN).less(num(ZERO)));
    if num(V_MIN).less(v) {
        let k = choose|k: int| #[trigger] rises(side, floor, k) && v == side[k].slope;
        assert(rises(side, floor, k) && num(V_MIN).less(side[k].slope));
    }
    if springs(side, floor) {
        let k = choose|k: int| #[trigger]
            rises(side, floor, k) && num(V_MIN).less(side[k].slope);
        assert(side[k].slope.at_most(v));
    }
}

/// A track beside one rail: its distance per sample, and per near stretch the sides of
/// where it is closest.
#[derive(Debug)]
pub struct RailTable {
    pub dists: Vec<Scalar>,
    pub sides: Vec<Sides>,
}

impl RailTable {
    pub open spec fn wf(self, n: int) -> bool {
        self.dists@.len() == n && self.sides@.len() == dips_from(self.dists@, 0).len()
    }

    /// The bounces off rail `rail` at the first `n` minima.
    pub open spec fn shown(self, times: Seq<Scalar>, rail: int, n: int) -> Seq<Seen>
        decreases n,
    {
        if n <= 0 {
            seq![]
        } else {
            let sofar = self.shown(times, rail, n - 1);
            let m = dips_from(self.dists@, 0)[n - 1];
            let s = self.sides@[n - 1];
            if s.shows() {
                sofar.push(
                    Seen {
                        sample: m as usize,
                        dip: (n - 1) as usize,
                        bounce: Bounce { time: times[m], rail: rail as u8, strength: s.strength },
                    },
                )
            } else {
                sofar
            }
        }
    }
}

/// The bounce candidates of a track off the first `n` rails.
pub open spec fn off_rails(times: Seq<Scalar>, rails: Seq<RailTable>, n: int) -> Seq<Seen>
    decreases n,
{
    if n <= 0 {
        seq![]
    } else {
        off_rails(times, rails, n - 1) + rails[n - 1].shown(
            times,
            n - 1,
            rails[n - 1].sides@.len() as int,
        )
    }
}

/// Whether candidates are bounces at samples of a track, off one of its first `n` rails, in
/// one of the stretches near it.
pub open spec fn on_track(
    seen: Seq<Seen>,
    times: Seq<Scalar>,
    rails: Seq<RailTable>,
    n: int,
) -> bool {
    forall|k: int|
        0 <= k < seen.len() ==> {
            &&& (#[trigger] seen[k]).sample < times.len()
            &&& seen[k].bounce.time == times[seen[k].sample as int]
            &&& seen[k].bounce.rail < n
            &&& seen[k].dip < rails[seen[k].bounce.rail as int].sides@.len()
        }
}

/// Find the bounce candidates of a track off its four rails.
fn find_off_rails(times: &[Scalar], rails: &[RailTable; 4]) -> (seen: Vec<Seen>)
    requires
        forall|i: int| 0 <= i < 4 ==> (#[trigger] rails@[i]).wf(times@.len() as int),
    ensures
        seen@ == off_rails(times@, rails@, 4),
        on_track(seen@, times@, rails@, 4),
{
    let mut seen: Vec<Seen> = Vec::new();
    for rail in 0..4usize
        invariant
            forall|i: int| 0 <= i < 4 ==> (#[trigger] rails@[i]).wf(times@.len() as int),
            seen@ == off_rails(times@, rails@, rail as int),
            on_track(seen@, times@, rails@, rail as int),
    {
        let table: &RailTable = &rails[rail];
        let ghost before = seen@;
        assert(table.wf(times@.len() as int));
        let low: Vec<usize> = dips(table.dists.as_slice());
        assert(before + table.shown(times@, rail as int, 0) =~= before);
        for k in 0..low.len()
            invariant
                rail < 4,
                *table == rails@[rail as int],
                table.wf(times@.len() as int),
                low@.len() == table.sides@.len(),
                forall|i: int| 0 <= i < low@.len() ==> #[trigger] low@[i] == dips_from(
                    table.dists@,
                    0,
                )[i],
                forall|i: int| 0 <= i < low@.len() ==> #[trigger] low@[i] < times@.len(),
                seen@ == before + table.shown(times@, rail as int, k as int),
                on_track(seen@, times@, rails@, rail + 1),
        {
            let ghost had = seen@;
            let m: usize = low[k];
            if table.sides[k].show() {
                let bounce: Bounce = Bounce {
                    time: times[m],
                    rail: rail as u8,
                    strength: table.sides[k].strength,
                };
                seen.push(Seen { sample: m, dip: k, bounce });
            }
            assert(seen@ =~= before + table.shown(times@, rail as int, k + 1));
        }
    }
    seen
}

/// Whether the gaps respect time: what is apart from a sample stays apart later on.
pub open spec fn steady(times: Seq<Scalar>, later: Seq<Vec<Scalar>>) -> bool {
    forall|a: int, b: int, c: int|
        0 <= a < times.len() && 0 <= b < times.len() && 0 <= c < times.len() && times[b].rank()
            <= times[c].rank() && num(CORNER_T).less(#[trigger] later[a]@[b]) ==> num(
            CORNER_T,
        ).less(#[trigger] later[a]@[c])
}

/// Whether `found` holds these candidates, with the gaps between their samples.
pub open spec fn gathers(found: Found, seen: Seq<Seen>, later: Seq<Vec<Scalar>>) -> bool {
    &&& found.wf()
    &&& found.bounces@ == seen.map_values(|s: Seen| s.bounce)
    &&& forall|a: int, b: int|
        0 <= a < seen.len() && 0 <= b < seen.len() ==> #[trigger] found.gaps@[a]@[b]
            == later[seen[a].sample as int]@[seen[b].sample as int]
}

/// Whether these are the bounces that a track shows: the candidates of the four rails in
/// the order of time, settled.
pub open spec fn track_bounces(
    times: Seq<Scalar>,
    rails: Seq<RailTable>,
    later: Seq<Vec<Scalar>>,
    r: Seq<Seen>,
) -> bool {
    let all = off_rails(times, rails, 4);
    exists|found: Found, p: Seq<usize>| #[trigger]
        gathers(found, all, later) && #[trigger] sorts(rank_keys_of(found.times()), p) && r
            == found.claimed(p, p.len() as int).map_values(|k: usize| all[k as int])
}

/// The cushion bounces that one track confidently shows, from its distances to the four
/// rails: `later[a][b]` is how much later sample `b` is than sample `a`. They come in the
/// order of time; where two rails have their minimum at one moment, only the harder impact
/// is claimed.
pub fn observed_bounces(times: &[Scalar], rails: &[RailTable; 4], later: &[Vec<Scalar>]) -> (r: Vec<
    Seen,
>)
    requires
        forall|i: int| 0 <= i < 4 ==> (#[trigger] rails@[i]).wf(times@.len() as int),
        later@.len() == times@.len(),
        forall|a: int| 0 <= a < later@.len() ==> (#[trigger] later@[a])@.len() == times@.len(),
    ensures
        track_bounces(times@, rails@, later@, r@),
        on_track(r@, times@, rails@, 4),
        forall|i: int, j: int|
            0 <= i < j < r@.len() ==> (#[trigger] r@[i]).bounce.time.rank() <= (
            #[trigger] r@[j]).bounce.time.rank(),
        steady(times@, later@) ==> forall|i: int, j: int|
            0 <= i < j < r@.len() && (#[trigger] r@[i]).bounce.rail != (
            #[trigger] r@[j]).bounce.rail ==> num(CORNER_T).less(
                later@[r@[i].sample as int]@[r@[j].sample as int],
            ),
{
    let all: Vec<Seen> = find_off_rails(times, rails);
    let n: usize = all.len();
    let mut bounces: Vec<Bounce> = Vec::new();
    let mut gaps: Vec<Vec<Scalar>> = Vec::new();
    for a in 0..n
        invariant
            n == all@.len(),
            on_track(all@, times@, rails@, 4),
            later@.len() == times@.len(),
            forall|i: int| 0 <= i < later@.len() ==> (#[trigger] later@[i])@.len() == times@.len(),
            bounces@.len() == a,
            forall|i: int| 0 <= i < a ==> #[trigger] bounces@[i] == all@[i].bounce,
            gaps@.len() == a,
            forall|i: int| 0 <= i < a ==> (#[trigger] gaps@[i])@.len() == n,
            forall|i: int, j: int|
                0 <= i < a && 0 <= j < n ==> #[trigger] gaps@[i]@[j]
                    == later@[all@[i].sample as int]@[all@[j].sample as int],
    {
        bounces.push(all[a].bounce);
        let mut row: Vec<Scalar> = Vec::new();
        for b in 0..n
            invariant
                a < n,
                n == all@.len(),
                on_track(all@, times@, rails@, 4),
                later@.len() == times@.len(),
                forall|i: int|
                    0 <= i < later@.len() ==> (#[trigger] later@[i])@.len() == times@.len(),
                row@.len() == b,
                forall|j: int|
                    0 <= j < b ==> #[trigger] row@[j]
                        == later@[all@[a as int].sample as int]@[all@[j].sample as int],
        {
            row.push(later[all[a].sample][all[b].sample]);
        }
        gaps.push(row);
    }
    let found: Found = Found { bounces, gaps };
    assert(found.bounces@ =~= all@.map_values(|s: Seen| s.bounce));
    assert(gathers(found, all@, later@));
    let list: Vec<usize> = found.settle();
    let ghost p = choose|p: Seq<usize>| #[trigger]
        sorts(rank_keys_of(found.times()), p) && list@ == found.claimed(p, p.len() as int);
    proof {
        assert(found.times().len() == n);
        found.lemma_claimed_places(p, p.len() as int);
    }
    let mut r: Vec<Seen> = Vec::new();
    let ghost pick = |k: usize| all@[k as int];
    for k in 0..list.len()
        invariant
            n == all@.len(),
            pick == (|k: usize| all@[k as int]),
            forall|i: int| 0 <= i < list@.len() ==> #[trigger] list@[i] < n,
            r@ == list@.map_values(pick).take(k as int),
    {
        r.push(all[list[k]]);
        assert(r@ =~= list@.map_values(pick).take(k + 1));
    }
    proof {
        assert(r@ =~= list@.map_values(pick));
        let q = found.lemma_claimed_order(p, p.len() as int);
        let keys = rank_keys_of(found.times());
        assert forall|i: int, j: int| 0 <= i < j < r@.len() implies (
        #[trigger] r@[i]).bounce.time.rank() <= (#[trigger] r@[j]).bounce.time.rank() && (steady(
            times@,
            later@,
        ) && r@[i].bounce.rail != r@[j].bounce.rail ==> num(CORNER_T).less(
            later@[r@[i].sample as int]@[r@[j].sample as int],
        )) by {
            lemma_settled_pair(found, all@, times@, rails@, later@, p, q, i, j);
            assert(r@[i] == all@[list@[i] as int] && r@[j] == all@[list@[j] as int]);
        }
    }
    r
}

/// The bounces, among the first `n`, that no other ball was close to, as (time, rail).
pub open spec fn claimed_among(
    seen: Seq<Seen>,
    ball: usize,
    rails: Seq<RailTable>,
    n: int,
) -> Seq<(Scalar, u8)>
    decreases n,
{
    if n <= 0 {
        seq![]
    } else {
        let sofar = claimed_among(seen, ball, rails, n - 1);
        let b = seen[n - 1];
        let others = rails[b.bounce.rail as int].sides@[b.dip as int].around@;
        if exists|j: int, s: int| beside(others, ball, j, s) {
            sofar
        } else {
            sofar.push((b.bounce.time, b.bounce.rail))
        }
    }
}

/// What one ball's track says of its cushions: its times, its distances to the four rails,
/// and how much later sample `b` is than sample `a`, in `later[a][b]`.
#[derive(Debug)]
pub struct BallTables {
    pub times: Vec<Scalar>,
    pub rails: [RailTable; 4],
    pub later: Vec<Vec<Scalar>>,
}

impl BallTables {
    pub open spec fn wf(self) -> bool {
        &&& forall|i: int|
            0 <= i < 4 ==> (#[trigger] self.rails@[i]).wf(self.times@.len() as int)
        &&& self.later@.len() == self.times@.len()
        &&& forall|a: int|
            0 <= a < self.later@.len() ==> (#[trigger] self.later@[a])@.len()
                == self.times@.len()
    }

    /// Whether these are the bounces that are claimed of ball `ball`: those that its track
    /// shows and no other ball was close to.
    pub open spec fn claimed(self, ball: usize, r: Seq<(Scalar, u8)>) -> bool {
        exists|seen: Seq<Seen>| #[trigger]
            track_bounces(self.times@, self.rails@, self.later@, seen) && r == claimed_among(
                seen,
                ball,
                self.rails@,
                seen.len() as int,
            )
    }

    /// The cushion bounces that are claimed of ball `ball`, as (time, rail). A V beside a
    /// rail proves a reversal, not its cause: the rail is claimed only where no other ball
    /// was within reach at that moment.
    pub fn claims(&self, ball: usize) -> (r: Vec<(Scalar, u8)>)
        requires
            self.wf(),
        ensures
            self.claimed(ball, r@),
            forall|k: int| 0 <= k < r@.len() ==> (#[trigger] r@[k]).1 < 4,
    {
        let seen: Vec<Seen> = observed_bounces(
            self.times.as_slice(),
            &self.rails,
            self.later.as_slice(),
        );
        let mut r: Vec<(Scalar, u8)> = Vec::new();
        for k in 0..seen.len()
            invariant
                self.wf(),
                on_track(seen@, self.times@, self.rails@, 4),
                r@ == claimed_among(seen@, ball, self.rails@, k as int),
                forall|i: int| 0 <= i < r@.len() ==> (#[trigger] r@[i]).1 < 4,
        {
            let b: Seen = seen[k];
            assert(seen@[k as int].bounce.rail < 4);
            let rail: usize = b.bounce.rail as usize;
            if !crowded(ball, self.rails[rail].sides[b.dip].around.as_slice()) {
                r.push((b.bounce.time, b.bounce.rail));
            }
        }
        assert(track_bounces(self.times@, self.rails@, self.later@, seen@));
        r
    }
}

proof fn lemma_settled_pair(
    found: Found,
    all: Seq<Seen>,
    times: Seq<Scalar>,
    rails: Seq<RailTable>,
    later: Seq<Vec<Scalar>>,
    p: Seq<usize>,
    q: Seq<int>,
    i: int,
    j: int,
)
    requires
        gathers(found, all, later),
        on_track(all, times, rails, 4),
        sorts(rank_keys_of(found.times()), p),
        found.claims_at(p, q, p.len() as int),
        0 <= i < j < q.len(),
    ensures
        ({
            let x = all[found.claimed(p, p.len() as int)[i] as int];
            let y = all[found.claimed(p, p.len() as int)[j] as int];
            &&& x.bounce.time.rank() <= y.bounce.time.rank()
            &&& steady(times, later) && x.bounce.rail != y.bounce.rail ==> num(CORNER_T).less(
                later[x.sample as int]@[y.sample as int],
            )
        }),
{
    let (a, c) = (q[i], q[j]);
    let keys = rank_keys_of(found.times());
    let n = p.len() as int;
    assert(found.times().len() == all.len());
    assert forall|k: int| 0 <= k < n implies 0 <= #[trigger] p[k] < all.len()
        && found.bounces@[p[k] as int] == all[p[k] as int].bounce && keys[p[k] as int]
        == all[p[k] as int].bounce.time.rank() by {
        assert(found.times()[p[k] as int] == found.bounces@[p[k] as int].time);
    }
    assert(found.claimed(p, n)[i] == p[a] && found.claimed(p, n)[j] == p[c]);
    assert(keys[p[a] as int] <= keys[p[c] as int]);
    let x = all[p[a] as int];
    let y = all[p[c] as int];
    if steady(times, later) && x.bounce.rail != y.bounce.rail && !num(CORNER_T).less(
        later[x.sample as int]@[y.sample as int],
    ) {
        assert forall|k: int| a < k <= c implies !#[trigger] found.apart(p, a, k) by {
            let z = all[p[k] as int];
            assert(keys[p[k] as int] <= keys[p[c] as int]);
            assert(found.gaps@[p[a] as int]@[p[k] as int]
                == later[x.sample as int]@[z.sample as int]);
            assert(times[z.sample as int].rank() <= times[y.sample as int].rank());
        }
        found.law_one_rail_per_moment(p, a, c);
    }
}

impl Found {
    /// Whether `q` are the places, in the order `p`, of the candidates kept among the
    /// first `n`.
    spec fn claims_at(self, p: Seq<usize>, q: Seq<int>, n: int) -> bool {
        &&& q.len() == self.claimed(p, n).len()
        &&& forall|i: int|
            0 <= i < q.len() ==> 0 <= (#[trigger] q[i]) < n && self.kept(p)[q[i]]
                && self.claimed(p, n)[i] == p[q[i]]
        &&& forall|i: int, j: int| 0 <= i < j < q.len() ==> (#[trigger] q[i]) < (#[trigger] q[j])
    }

    proof fn lemma_claimed_order(self, p: Seq<usize>, n: int) -> (q: Seq<int>)
        requires
            0 <= n <= p.len(),
        ensures
            self.claims_at(p, q, n),
        decreases n,
    {
        if n <= 0 {
            seq![]
        } else {
            let q = self.lemma_claimed_order(p, n - 1);
            if self.kept(p)[n - 1] {
                q.push(n - 1)
            } else {
                q
            }
        }
    }

    proof fn lemma_claimed_places(self, p: Seq<usize>, n: int)
        requires
            0 <= n <= p.len(),
            forall|i: int| 0 <= i < p.len() ==> #[trigger] p[i] < self.bounces@.len(),
        ensures
            forall|i: int|
                0 <= i < self.claimed(p, n).len() ==> #[trigger] self.claimed(p, n)[i]
                    < self.bounces@.len(),
    {
        let q = self.lemma_claimed_order(p, n);
        assert forall|i: int| 0 <= i < self.claimed(p, n).len() implies #[trigger] self.claimed(
            p,
            n,
        )[i] < self.bounces@.len() by {
            assert(self.claimed(p, n)[i] == p[q[i]]);
        }
    }
}

proof fn lemma_stretch(d: Seq<Scalar>, i: int)
    requires
        0 <= i < d.len(),
    ensures
        forall|f: int| i < f <= stretch_end(d, i) ==> (#[trigger] d[f]).less(num(NEAR)),
        stretch_end(d, i) + 1 < d.len() ==> !d[stretch_end(d, i) + 1].less(num(NEAR)),
    decreases d.len() - i,
{
    if i + 1 < d.len() && d[i + 1].less(num(NEAR)) {
        lemma_stretch(d, i + 1);
    }
}

proof fn lemma_some_lowest(d: Seq<Scalar>, i: int, j: int) -> (m: int)
    requires
        i <= j,
    ensures
        lowest(d, i, j, m),
    decreases j - i,
{
    if i == j {
        i
    } else {
        let m = lemma_some_lowest(d, i, j - 1);
        if d[j].rank() < d[m].rank() {
            j
        } else {
            m
        }
    }
}

/// The closest sample of the stretch that begins at `i`, and the end of that stretch.
proof fn lemma_dip(d: Seq<Scalar>, i: int) -> (r: (int, int))
    requires
        0 <= i < d.len(),
        !num(NEAR).at_most(d[i]),
    ensures
        ({
            let (m, j) = r;
            &&& j == stretch_end(d, i)
            &&& i <= m <= j < d.len()
            &&& lowest(d, i, j, m)
            &&& dips_from(d, i) == seq![m] + dips_from(d, j + 1)
            &&& forall|f: int| i <= f <= j ==> !num(NEAR).at_most(#[trigger] d[f])
            &&& j + 1 < d.len() ==> !d[j + 1].less(num(NEAR))
        }),
{
    lemma_stretch_end(d, i);
    lemma_stretch(d, i);
    let j = stretch_end(d, i);
    let low = lemma_some_lowest(d, i, j);
    let m = choose|m: int| lowest(d, i, j, m);
    assert(lowest(d, i, j, m));
    (m, j)
}

/// The closest samples of the stretches are near the rail, and in order.
pub proof fn law_dips_are_near(d: Seq<Scalar>, i: int)
    requires
        0 <= i,
    ensures
        forall|a: int|
            0 <= a < dips_from(d, i).len() ==> i <= (#[trigger] dips_from(d, i)[a]) < d.len()
                && !num(NEAR).at_most(d[dips_from(d, i)[a]]),
        forall|a: int, b: int|
            0 <= a < b < dips_from(d, i).len() ==> (#[trigger] dips_from(d, i)[a]) < (
            #[trigger] dips_from(d, i)[b]),
    decreases d.len() - i,
{
    let all = dips_from(d, i);
    if i < d.len() {
        if num(NEAR).at_most(d[i]) {
            law_dips_are_near(d, i + 1);
            let next = dips_from(d, i + 1);
            assert(all == next);
            assert forall|a: int| 0 <= a < all.len() implies i <= (#[trigger] all[a]) < d.len()
                && !num(NEAR).at_most(d[all[a]]) by {
                assert(next[a] == all[a]);
            }
        } else {
            let (m, j) = lemma_dip(d, i);
            law_dips_are_near(d, j + 1);
            let next = dips_from(d, j + 1);
            assert forall|a: int| 0 <= a < all.len() implies i <= (#[trigger] all[a]) < d.len()
                && !num(NEAR).at_most(d[all[a]]) by {
                if a > 0 {
                    assert(all[a] == next[a - 1]);
                }
            }
            assert forall|a: int, b: int| 0 <= a < b < all.len() implies (#[trigger] all[a]) < (
            #[trigger] all[b]) by {
                assert(all[b] == next[b - 1]);
                if a > 0 {
                    assert(all[a] == next[a - 1]);
                }
            }
        }
    }
}

/// No stretch counts twice: after a closest sample and up to the next one there is a sample
/// that is not near.
pub proof fn law_dips_are_apart(d: Seq<Scalar>, i: int, a: int) -> (f: int)
    requires
        0 <= i,
        0 <= a,
        a + 1 < dips_from(d, i).len(),
    ensures
        dips_from(d, i)[a] < f <= dips_from(d, i)[a + 1],
        !d[f].less(num(NEAR)),
    decreases d.len() - i,
{
    if num(NEAR).at_most(d[i]) {
        law_dips_are_apart(d, i + 1, a)
    } else {
        let (m, j) = lemma_dip(d, i);
        law_dips_are_near(d, j + 1);
        let next = dips_from(d, j + 1);
        assert(dips_from(d, i)[a + 1] == next[a]);
        if a == 0 {
            assert(dips_from(d, i)[0] == m);
            assert(j + 1 <= next[0] < d.len());
            j + 1
        } else {
            assert(dips_from(d, i)[a] == next[a - 1]);
            law_dips_are_apart(d, j + 1, a - 1)
        }
    }
}

/// Every sample near the rail lies in a stretch whose closest sample is found: all between
/// the two are near, and it is no closer, nor as close if it comes before.
pub proof fn law_dips_are_the_lowest(d: Seq<Scalar>, i: int, s: int) -> (a: int)
    requires
        0 <= i <= s < d.len(),
        !num(NEAR).at_most(d[s]),
    ensures
        0 <= a < dips_from(d, i).len(),
        ({
            let m = dips_from(d, i)[a];
            &&& forall|f: int|
                (s <= f <= m || m <= f <= s) ==> !num(NEAR).at_most(#[trigger] d[f])
            &&& d[m].rank() <= d[s].rank()
            &&& s < m ==> d[m].rank() < d[s].rank()
        }),
    decreases d.len() - i,
{
    if num(NEAR).at_most(d[i]) {
        law_dips_are_the_lowest(d, i + 1, s)
    } else {
        let (m, j) = lemma_dip(d, i);
        if s <= j {
            assert(dips_from(d, i)[0] == m);
            0
        } else {
            let a = law_dips_are_the_lowest(d, j + 1, s);
            assert(dips_from(d, i)[a + 1] == dips_from(d, j + 1)[a]);
            a + 1
        }
    }
}

/// A side springs from its minimum exactly if some sample on it, with all those nearer to the
/// minimum within the time looked at, is above the floor and steep enough.
pub proof fn law_side_springs(side: Seq<SideSample>, floor: Scalar, k: int)
    requires
        0 <= k < side.len(),
        forall|i: int| 0 <= i <= k ==> (#[trigger] side[i]).age.at_most(num(SIDE_T)),
        floor.less(side[k].height),
        num(V_MIN).less(side[k].slope),
    ensures
        springs(side, floor),
{
    assert(rises(side, floor, k));
}

/// A minimum is a bounce only with real speed on both sides: a side without a steep sample
/// in time and above the floor makes it none.
pub proof fn law_bounce_has_speed_both_ways(s: Sides) -> (r: (int, int))
    requires
        s.shows(),
    ensures
        0 <= r.0 < s.before@.len(),
        forall|i: int| 0 <= i <= r.0 ==> (#[trigger] s.before@[i]).age.at_most(num(SIDE_T)),
        s.floor.less(s.before@[r.0].height),
        num(V_MIN).less(s.before@[r.0].slope),
        0 <= r.1 < s.after@.len(),
        forall|i: int| 0 <= i <= r.1 ==> (#[trigger] s.after@[i]).age.at_most(num(SIDE_T)),
        s.floor.less(s.after@[r.1].height),
        num(V_MIN).less(s.after@[r.1].slope),
{
    let a = choose|k: int| #[trigger]
        rises(s.before@, s.floor, k) && num(V_MIN).less(s.before@[k].slope);
    let b = choose|k: int| #[trigger]
        rises(s.after@, s.floor, k) && num(V_MIN).less(s.after@[k].slope);
    (a, b)
}

impl Found {
    /// Whether candidate `c`, in the order `p`, gives way to candidate `o`: they are off
    /// different rails, not too far apart to be one event, and `o` is the harder impact, or
    /// as hard and earlier.
    pub open spec fn gives_way(self, p: Seq<usize>, c: int, o: int) -> bool {
        &&& 0 <= o < p.len()
        &&& o != c
        &&& self.bounces@[p[o] as int].rail != self.bounces@[p[c] as int].rail
        &&& o < c ==> !num(CORNER_T).less(self.gaps@[p[o] as int]@[p[c] as int])
            && self.bounces@[p[c] as int].strength.at_most(self.bounces@[p[o] as int].strength)
        &&& c < o ==> !num(CORNER_T).less(self.gaps@[p[c] as int]@[p[o] as int])
            && !self.bounces@[p[o] as int].strength.at_most(self.bounces@[p[c] as int].strength)
    }

    proof fn lemma_row_reason(self, p: Seq<usize>, keep: Seq<bool>, a: int, b: int, c: int)
        requires
            keep.len() == p.len(),
            0 <= a < b,
            0 <= c < p.len(),
        ensures
            self.row(p, keep, a, b).len() == keep.len(),
            keep[c] && !self.row(p, keep, a, b)[c] ==> exists|o: int| #[trigger]
                self.gives_way(p, c, o),
        decreases p.len() - b,
    {
        if b < p.len() && !self.apart(p, a, b) {
            let next = self.judged(p, keep, a, b);
            self.lemma_row_reason(p, next, a, b + 1, c);
            if keep[c] && !next[c] {
                if c == a {
                    assert(self.gives_way(p, c, b));
                } else {
                    assert(self.gives_way(p, c, a));
                }
            }
        }
    }

    proof fn lemma_rows_reason(self, p: Seq<usize>, keep: Seq<bool>, a: int, c: int)
        requires
            keep.len() == p.len(),
            0 <= a,
            0 <= c < p.len(),
        ensures
            keep[c] && !self.rows(p, keep, a)[c] ==> exists|o: int| #[trigger]
                self.gives_way(p, c, o),
        decreases p.len() - a,
    {
        if a < p.len() {
            self.lemma_row_reason(p, keep, a, a + 1, c);
            self.lemma_rows_reason(p, self.row(p, keep, a, a + 1), a + 1, c);
        }
    }

    /// A candidate is dropped only for another one off a different rail at that moment that
    /// is harder, or as hard and earlier: `o` names it. So a candidate that no other is close
    /// to is kept.
    pub proof fn law_dropped_for_a_harder_one(self, p: Seq<usize>, c: int) -> (o: int)
        requires
            0 <= c < p.len(),
            !self.kept(p)[c],
        ensures
            0 <= o < p.len() && o != c,
            self.bounces@[p[o] as int].rail != self.bounces@[p[c] as int].rail,
            o < c ==> !num(CORNER_T).less(self.gaps@[p[o] as int]@[p[c] as int])
                && self.bounces@[p[c] as int].strength.at_most(
                self.bounces@[p[o] as int].strength,
            ),
            c < o ==> !num(CORNER_T).less(self.gaps@[p[c] as int]@[p[o] as int])
                && !self.bounces@[p[o] as int].strength.at_most(
                self.bounces@[p[c] as int].strength,
            ),
    {
        let all = Seq::new(p.len(), |i: int| true);
        self.lemma_rows_reason(p, all, 0, c);
        assert(all[c]);
        choose|o: int| #[trigger] self.gives_way(p, c, o)
    }

    /// The bounces that are claimed are the candidates that are kept, all of them, in the
    /// order of time: claim `i` is the candidate in place `q[i]`.
    pub proof fn law_kept_are_claimed(self, p: Seq<usize>) -> (q: Seq<int>)
        ensures
            q.len() == self.claimed(p, p.len() as int).len(),
            forall|i: int|
                0 <= i < q.len() ==> #[trigger] self.claimed(p, p.len() as int)[i] == p[q[i]],
            forall|k: int| #[trigger] q.contains(k) <==> 0 <= k < p.len() && self.kept(p)[k],
            forall|i: int, j: int| 0 <= i < j < q.len() ==> (#[trigger] q[i]) < (#[trigger] q[j]),
    {
        self.lemma_kept_are_claimed(p, p.len() as int)
    }

    proof fn lemma_kept_are_claimed(self, p: Seq<usize>, n: int) -> (q: Seq<int>)
        requires
            0 <= n <= p.len(),
        ensures
            q.len() == self.claimed(p, n).len(),
            forall|i: int| 0 <= i < q.len() ==> #[trigger] self.claimed(p, n)[i] == p[q[i]],
            forall|k: int| #[trigger] q.contains(k) <==> 0 <= k < n && self.kept(p)[k],
            forall|i: int, j: int| 0 <= i < j < q.len() ==> (#[trigger] q[i]) < (#[trigger] q[j]),
        decreases n,
    {
        if n <= 0 {
            seq![]
        } else {
            let before = self.lemma_kept_are_claimed(p, n - 1);
            let more = self.kept(p)[n - 1];
            let q = if more {
                before.push(n - 1)
            } else {
                before
            };
            lemma_places_step(before, q, n - 1, more);
            let all = self.claimed(p, n);
            assert forall|i: int| 0 <= i < q.len() implies #[trigger] all[i] == p[q[i]] by {
                if i < before.len() {
                    assert(all[i] == self.claimed(p, n - 1)[i]);
                }
            }
            q
        }
    }
}

/// A ball casts doubt on a bounce exactly if it is another one that was seen near it, in time
/// and in place.
pub proof fn law_crowd_is_another_ball(others: Seq<Vec<Sighting>>, ball: usize, j: int, s: int)
    ensures
        beside(others, ball, j, s) <==> 0 <= j < others.len() && j != ball && 0 <= s
            < others[j]@.len() && others[j]@[s].t.less(num(CROWD_T))
            && others[j]@[s].from_rest.less(num(REACH)),
{
}

impl RailTable {
    /// The bounces off a rail are at its minima that show one, all of them, in their order:
    /// bounce `i` is at minimum `from[i]`, at that sample's time, off this rail, and as hard
    /// as its sides say.
    pub proof fn law_shown_are_the_bounces(self, times: Seq<Scalar>, rail: int, n: int) -> (from:
        Seq<int>)
        requires
            0 <= n <= self.sides@.len(),
        ensures
            from.len() == self.shown(times, rail, n).len(),
            forall|k: int| #[trigger]
                from.contains(k) <==> 0 <= k < n && springs(
                    self.sides@[k].before@,
                    self.sides@[k].floor,
                ) && springs(self.sides@[k].after@, self.sides@[k].floor),
            forall|i: int, j: int|
                0 <= i < j < from.len() ==> (#[trigger] from[i]) < (#[trigger] from[j]),
            forall|i: int|
                0 <= i < from.len() ==> {
                    let b = #[trigger] self.shown(times, rail, n)[i];
                    let m = dips_from(self.dists@, 0)[from[i]];
                    &&& b.dip == from[i] as usize
                    &&& b.sample == m as usize
                    &&& b.bounce.time == times[m]
                    &&& b.bounce.rail == rail as u8
                    &&& b.bounce.strength == self.sides@[from[i]].strength
                },
        decreases n,
    {
        if n <= 0 {
            seq![]
        } else {
            let before = self.law_shown_are_the_bounces(times, rail, n - 1);
            let more = self.sides@[n - 1].shows();
            let from = if more {
                before.push(n - 1)
            } else {
                before
            };
            lemma_places_step(before, from, n - 1, more);
            let all = self.shown(times, rail, n);
            assert forall|i: int| 0 <= i < from.len() implies {
                let b = #[trigger] all[i];
                let m = dips_from(self.dists@, 0)[from[i]];
                &&& b.dip == from[i] as usize
                &&& b.sample == m as usize
                &&& b.bounce.time == times[m]
                &&& b.bounce.rail == rail as u8
                &&& b.bounce.strength == self.sides@[from[i]].strength
            } by {
                if i < before.len() {
                    assert(all[i] == self.shown(times, rail, n - 1)[i]);
                }
            }
            from
        }
    }
}

/// The candidates are those of all rails, one rail after the other: candidate `x` of rail `r`
/// comes after all those of the rails before it.
pub proof fn law_candidates_are_of_all_rails(
    times: Seq<Scalar>,
    rails: Seq<RailTable>,
    n: int,
    r: int,
    x: int,
)
    requires
        0 <= r < n <= rails.len(),
        0 <= x < rails[r].shown(times, r, rails[r].sides@.len() as int).len(),
    ensures
        off_rails(times, rails, r).len() + x < off_rails(times, rails, n).len(),
        off_rails(times, rails, n)[off_rails(times, rails, r).len() + x] == rails[r].shown(
            times,
            r,
            rails[r].sides@.len() as int,
        )[x],
    decreases n,
{
    if r < n - 1 {
        law_candidates_are_of_all_rails(times, rails, n - 1, r, x);
    }
}

/// There are as many candidates as the rails have together.
pub proof fn law_no_candidate_is_made_up(times: Seq<Scalar>, rails: Seq<RailTable>, n: int)
    requires
        0 <= n < rails.len(),
    ensures
        off_rails(times, rails, 0).len() == 0,
        off_rails(times, rails, n + 1).len() == off_rails(times, rails, n).len()
            + rails[n].shown(times, n, rails[n].sides@.len() as int).len(),
{
}

/// The bounces claimed of a ball are those that no other ball was close to, all of them, in
/// their order, each with its own time and rail: claim `i` is bounce `from[i]`.
pub proof fn law_uncrowded_are_claimed(
    seen: Seq<Seen>,
    ball: usize,
    rails: Seq<RailTable>,
    n: int,
) -> (from: Seq<int>)
    requires
        0 <= n <= seen.len(),
    ensures
        from.len() == claimed_among(seen, ball, rails, n).len(),
        forall|i: int|
            0 <= i < from.len() ==> #[trigger] claimed_among(seen, ball, rails, n)[i] == (
                seen[from[i]].bounce.time,
                seen[from[i]].bounce.rail,
            ),
        forall|i: int, j: int|
            0 <= i < j < from.len() ==> (#[trigger] from[i]) < (#[trigger] from[j]),
        forall|k: int| #[trigger]
            from.contains(k) <==> 0 <= k < n && !exists|j: int, s: int|
                beside(
                    rails[seen[k].bounce.rail as int].sides@[seen[k].dip as int].around@,
                    ball,
                    j,
                    s,
                ),
    decreases n,
{
    if n <= 0 {
        seq![]
    } else {
        let before = law_uncrowded_are_claimed(seen, ball, rails, n - 1);
        let b = seen[n - 1];
        let others = rails[b.bounce.rail as int].sides@[b.dip as int].around@;
        let more = !exists|j: int, s: int| beside(others, ball, j, s);
        let from = if more {
            before.push(n - 1)
        } else {
            before
        };
        lemma_places_step(before, from, n - 1, more);
        let all = claimed_among(seen, ball, rails, n);
        assert forall|i: int| 0 <= i < from.len() implies #[trigger] all[i] == (
            seen[from[i]].bounce.time,
            seen[from[i]].bounce.rail,
        ) by {
            if i < before.len() {
                assert(all[i] == claimed_among(seen, ball, rails, n - 1)[i]);
            }
        }
        from
    }
}

/// Candidates are gathered as they were seen: each with its own time, rail and strength, and
/// between each two of them the time between their samples.
pub proof fn law_candidates_are_gathered(
    found: Found,
    seen: Seq<Seen>,
    later: Seq<Vec<Scalar>>,
    a: int,
    b: int,
)
    requires
        gathers(found, seen, later),
        0 <= a < seen.len(),
        0 <= b < seen.len(),
    ensures
        found.bounces@.len() == seen.len(),
        found.bounces@[a] == seen[a].bounce,
        found.times()[a] == seen[a].bounce.time,
        found.gaps@[a]@[b] == later[seen[a].sample as int]@[seen[b].sample as int],
{
    assert(found.gaps@[a]@[b] == later[seen[a].sample as int]@[seen[b].sample as int]);
}

} // verus!
