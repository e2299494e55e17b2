//! What a simulated shot is charged for contradicting the observed one.
//!
//! Hitting a ball that verifiably sat still is a fabricated contact; leaving an
//! observably struck ball untouched is a missing one; matching contacts should
//! also roughly match in time. Every observed bounce must appear in the
//! simulation, and a simulated bounce that the track positively contradicts is
//! charged too.

use vstd::prelude::*;

use crate::engine::cushion::Bounds;
use crate::model::math::DVec3;
use crate::model::simulation::{ContactEvent, ContactKind};
use crate::order::{
    first_least, first_least_at, law_first_least, lemma_one_more, lemma_places_step,
    rank_keys, rank_keys_of,
};
use crate::scalar::{num, Scalar};
use crate::solver::align::{Alignment, BounceLists, MATCH_W};
use crate::solver::bounces::BallTables;
use crate::solver::testimony::{FirstMove, Testimony};

verus! {

/// Charge (m) for a fabricated or a missing contact: 1.5.
pub const CONTACT_PEN: u64 = 0x3FF8_0000_0000_0000;

/// Charge (m) for a fabricated or a missing bounce: 0.70.
pub const CUSHION_PEN: u64 = 0x3FE6_6666_6666_6666;

/// Charge per second (m/s) for a contact at another time: 0.5.
pub const DELAY_RATE: u64 = 0x3FE0_0000_0000_0000;

/// A delay is charged up to this (s): 0.6.
pub const DELAY_MAX: u64 = 0x3FE3_3333_3333_3333;

/// A ball observed this far (m) from a rail did not touch it: 0.25.
pub const EXCLUDE_D: u64 = 0x3FD0_0000_0000_0000;

/// Samples that it takes to contradict a bounce.
pub const EXCLUDE_N: usize = 5;

/// A simulated ball this far (m) from its start has moved: 0.02.
pub const SIM_MOVED: u64 = 0x3F94_7AE1_47AE_147B;

/// One ball's observed path: time (s) and position. Aligned with the scene's ball
/// order (index 0 = cue).
pub type ObservedTrack = Vec<(Scalar, DVec3)>;

/// The observed event skeleton: which physical events the tracks actually show.
#[derive(Debug)]
pub struct ObservedEvents {
    /// Per object (cue-first order, so index 0 here is track 1).
    pub first_move: Vec<FirstMove>,
    /// Per ball, the observed cushion bounces as (time, rail), rails 0 to 3 being
    /// -x, +x, -y, +y.
    pub cushions: Vec<Vec<(Scalar, u8)>>,
    /// Center bounds the rails were read against.
    pub bounds: Bounds,
    /// The tracks themselves.
    pub tracks: Vec<ObservedTrack>,
}

impl ObservedEvents {
    /// The skeleton of a shot: each object ball's first move as its testimony shows
    /// it, and of the bounces that each ball's track shows those that no other ball was
    /// close to.
    pub fn from_tracks(
        testimonies: &Vec<Testimony>,
        balls: &Vec<BallTables>,
        bounds: Bounds,
        tracks: Vec<ObservedTrack>,
    ) -> (r: ObservedEvents)
        requires
            forall|k: int| 0 <= k < testimonies@.len() ==> (#[trigger] testimonies@[k]).wf(),
            forall|k: int| 0 <= k < balls@.len() ==> (#[trigger] balls@[k]).wf(),
        ensures
            r.first_move@.len() == testimonies@.len(),
            forall|k: int|
                0 <= k < testimonies@.len() ==> (#[trigger] testimonies@[k]).shows(
                    r.first_move@[k],
                ),
            r.cushions@.len() == balls@.len(),
            forall|k: int|
                0 <= k < balls@.len() ==> (#[trigger] balls@[k]).claimed(
                    k as usize,
                    r.cushions@[k]@,
                ),
            r.bounds == bounds,
            r.tracks == tracks,
    {
        let mut cushions: Vec<Vec<(Scalar, u8)>> = Vec::new();
        for k in 0..balls.len()
            invariant
                forall|j: int| 0 <= j < balls@.len() ==> (#[trigger] balls@[j]).wf(),
                cushions@.len() == k,
                forall|j: int|
                    0 <= j < k ==> (#[trigger] balls@[j]).claimed(j as usize, cushions@[j]@),
        {
            assert(balls@[k as int].wf());
            cushions.push(balls[k].claims(k));
        }
        let mut first_move: Vec<FirstMove> = Vec::new();
        for k in 0..testimonies.len()
            invariant
                forall|j: int| 0 <= j < testimonies@.len() ==> (#[trigger] testimonies@[j]).wf(),
                first_move@.len() == k,
                forall|j: int| 0 <= j < k ==> (#[trigger] testimonies@[j]).shows(first_move@[j]),
        {
            first_move.push(testimonies[k].first_move());
        }
        ObservedEvents { first_move, cushions, bounds, tracks }
    }

    /// Take back what was observed of the cushions: no bounce is demanded, and no
    /// track contradicts a simulated one.
    pub fn forget_cushions(&mut self)
        ensures
            final(self).first_move == old(self).first_move,
            final(self).bounds == old(self).bounds,
            final(self).cushions@.len() == old(self).cushions@.len(),
            forall|k: int|
                0 <= k < final(self).cushions@.len() ==>
                    (#[trigger] final(self).cushions@[k])@.len() == 0,
            final(self).tracks@.len() == old(self).tracks@.len(),
            forall|k: int|
                0 <= k < final(self).tracks@.len() ==> (#[trigger] final(self).tracks@[k])@.len()
                    == 0,
    {
        let n: usize = self.cushions.len();
        let mut cushions: Vec<Vec<(Scalar, u8)>> = Vec::new();
        for k in 0..n
            invariant
                cushions@.len() == k,
                forall|i: int| 0 <= i < k ==> (#[trigger] cushions@[i])@.len() == 0,
        {
            cushions.push(Vec::new());
        }
        let m: usize = self.tracks.len();
        let mut tracks: Vec<ObservedTrack> = Vec::new();
        for k in 0..m
            invariant
                tracks@.len() == k,
                forall|i: int| 0 <= i < k ==> (#[trigger] tracks@[i])@.len() == 0,
        {
            tracks.push(Vec::new());
        }
        self.cushions = cushions;
        self.tracks = tracks;
    }
}

/// The first of the numbers above a limit.
pub fn first_above(xs: &[Scalar], limit: Scalar) -> (r: Option<usize>)
    ensures
        match r {
            Some(k) => {
                &&& k < xs@.len()
                &&& limit.less(xs@[k as int])
                &&& forall|j: int| 0 <= j < k ==> !limit.less(#[trigger] xs@[j])
            },
            None => forall|j: int| 0 <= j < xs@.len() ==> !limit.less(#[trigger] xs@[j]),
        },
{
    for k in 0..xs.len()
        invariant
            forall|j: int| 0 <= j < k ==> !limit.less(#[trigger] xs@[j]),
    {
        if xs[k].gt(limit) {
            return Some(k);
        }
    }
    None
}

/// The rail a ball is nearest to, from its distances to the four; the first one
/// where two are equally near.
pub fn nearest_rail(dists: &[Scalar; 4]) -> (rail: u8)
    ensures
        rail < 4,
        first_least_at(rank_keys_of(dists@), rail as int),
{
    let keys: Vec<i64> = rank_keys(dists.as_slice());
    match first_least(keys.as_slice()) {
        Some(k) => k as u8,
        None => 0,
    }
}

/// The bounces of each of `n` balls in a contact log, as (time, rail), where
/// `dists[e]` are the distances to the rails at contact `e` of the ball that made
/// it.
pub open spec fn bounces_of(
    events: Seq<ContactEvent>,
    rails: Seq<u8>,
    ball: int,
    n: int,
) -> Seq<(Scalar, u8)>
    decreases n,
{
    if n <= 0 {
        seq![]
    } else {
        let sofar = bounces_of(events, rails, ball, n - 1);
        match events[n - 1].kind {
            ContactKind::Cushion { ball: b } => if b.0 == ball {
                sofar.push((events[n - 1].time, rails[n - 1]))
            } else {
                sofar
            },
            _ => sofar,
        }
    }
}

/// Sort the bounces of a contact log by ball. `rails[e]` is the rail at which
/// contact `e` happened, if it is one with a cushion.
pub fn sim_bounces(events: &[ContactEvent], rails: &[u8], n_balls: usize) -> (r: Vec<
    Vec<(Scalar, u8)>,
>)
    requires
        rails@.len() == events@.len(),
    ensures
        r@.len() == n_balls,
        forall|b: int|
            0 <= b < n_balls ==> (#[trigger] r@[b])@ == bounces_of(
                events@,
                rails@,
                b,
                events@.len() as int,
            ),
{
    let mut r: Vec<Vec<(Scalar, u8)>> = Vec::new();
    for b in 0..n_balls
        invariant
            r@.len() == b,
            forall|k: int| 0 <= k < b ==> (#[trigger] r@[k])@ == bounces_of(events@, rails@, k, 0),
    {
        r.push(Vec::new());
    }
    for e in 0..events.len()
        invariant
            rails@.len() == events@.len(),
            r@.len() == n_balls,
            forall|k: int|
                0 <= k < n_balls ==> (#[trigger] r@[k])@ == bounces_of(
                    events@,
                    rails@,
                    k,
                    e as int,
                ),
    {
        if let ContactKind::Cushion { ball } = events[e].kind {
            let b: usize = ball.0 as usize;
            if b < n_balls {
                r[b].push((events[e].time, rails[e]));
            }
        }
    }
    r
}

/// What one object ball's contact is charged.
#[derive(Clone, Copy, Debug, PartialEq, Eq, Structural)]
pub enum ContactCharge {
    /// Nothing.
    Free,
    /// The simulation moves a ball that sat still.
    Fabricated,
    /// The simulation leaves a struck ball untouched.
    Missing,
    /// Both move, at these observed and simulated times.
    Delay(Scalar, Scalar),
}

/// The charge for an object ball's observed first move and its simulated one. A
/// track that cannot be trusted charges nothing.
pub open spec fn charge_of(observed: FirstMove, simulated: Option<Scalar>) -> ContactCharge {
    match (observed, simulated) {
        (FirstMove::Still, Some(_)) => ContactCharge::Fabricated,
        (FirstMove::At(_), None) => ContactCharge::Missing,
        (FirstMove::At(to), Some(ts)) => ContactCharge::Delay(to, ts),
        (FirstMove::Still, None) => ContactCharge::Free,
        (FirstMove::Unreliable, _) => ContactCharge::Free,
    }
}

/// Compare an object ball's observed first move with its simulated one.
pub fn contact_charge(observed: FirstMove, simulated: Option<Scalar>) -> (c: ContactCharge)
    ensures
        c == charge_of(observed, simulated),
{
    match (observed, simulated) {
        (FirstMove::Still, Some(_)) => ContactCharge::Fabricated,
        (FirstMove::At(_), None) => ContactCharge::Missing,
        (FirstMove::At(to), Some(ts)) => ContactCharge::Delay(to, ts),
        (FirstMove::Still, None) => ContactCharge::Free,
        (FirstMove::Unreliable, _) => ContactCharge::Free,
    }
}

/// Compare every object ball's observed first move with its simulated one, as far as
/// both are given.
pub fn contact_charges(observed: &[FirstMove], simulated: &[Option<Scalar>]) -> (r: Vec<
    ContactCharge,
>)
    ensures
        r@.len() == (if observed@.len() <= simulated@.len() {
            observed@.len()
        } else {
            simulated@.len()
        }),
        forall|k: int|
            0 <= k < r@.len() ==> #[trigger] r@[k] == charge_of(observed@[k], simulated@[k]),
{
    let n: usize = if observed.len() <= simulated.len() {
        observed.len()
    } else {
        simulated.len()
    };
    let mut r: Vec<ContactCharge> = Vec::new();
    for k in 0..n
        invariant
            n <= observed@.len(),
            n <= simulated@.len(),
            r@.len() == k,
            forall|j: int|
                0 <= j < k ==> #[trigger] r@[j] == charge_of(observed@[j], simulated@[j]),
    {
        r.push(contact_charge(observed[k], simulated[k]));
    }
    r
}

/// How much of a delay is charged.
pub fn charged_delay(delay: Scalar) -> (d: Scalar)
    ensures
        d == delay.lesser_of(num(DELAY_MAX)),
        d.at_most(num(DELAY_MAX)),
        delay.at_most(num(DELAY_MAX)) ==> d == delay,
{
    delay.min(num(DELAY_MAX))
}

/// A sample of a track beside a simulated bounce: the time between them, and the
/// distance to the rail of that bounce.
#[derive(Clone, Copy, Debug)]
pub struct RailSample {
    pub apart: Scalar,
    pub dist: Scalar,
}

/// Number of samples around the time of a bounce.
pub open spec fn witnesses(samples: Seq<RailSample>) -> nat {
    samples.filter(|s: RailSample| s.apart.at_most(num(MATCH_W))).len()
}

/// Whether the track contradicts a bounce: the ball was observed around that time,
/// often enough, and always far from that rail.
pub open spec fn contradicts(samples: Seq<RailSample>) -> bool {
    &&& witnesses(samples) >= EXCLUDE_N
    &&& forall|k: int|
        0 <= k < samples.len() && (#[trigger] samples[k]).apart.at_most(num(MATCH_W)) ==> num(
            EXCLUDE_D,
        ).less(samples[k].dist)
}

pub fn contradicted(samples: &[RailSample]) -> (r: bool)
    ensures
        r == contradicts(samples@),
{
    let ghost near = |s: RailSample| s.apart.at_most(num(MATCH_W));
    let mut seen: usize = 0;
    assert(witnesses(samples@.take(0)) == 0) by {
        reveal(Seq::filter);
    }
    for k in 0..samples.len()
        invariant
            near == (|s: RailSample| s.apart.at_most(num(MATCH_W))),
            seen == witnesses(samples@.take(k as int)),
            seen <= k,
            forall|j: int|
                0 <= j < k && (#[trigger] samples@[j]).apart.at_most(num(MATCH_W)) ==> num(
                    EXCLUDE_D,
                ).less(samples@[j].dist),
    {
        proof {
            samples@.take(k as int).lemma_filter_len_push(near, samples@[k as int]);
            assert(samples@.take(k as int).push(samples@[k as int]) =~= samples@.take(k + 1));
        }
        if samples[k].apart.le(num(MATCH_W)) {
            seen += 1;
            if !samples[k].dist.gt(num(EXCLUDE_D)) {
                return false;
            }
        }
    }
    assert(samples@.take(samples@.len() as int) =~= samples@);
    seen >= EXCLUDE_N
}

/// What one ball's bounces are charged, in bounces.
#[derive(Clone, Copy, Debug, PartialEq, Eq, Structural)]
pub struct CushionCharge {
    /// Observed bounces that the simulation lacks.
    pub missing: usize,
    /// Simulated bounces that the track contradicts.
    pub fabricated: usize,
}

/// Number of simulated bounces, among the first `n`, that are not paired and that
/// the track contradicts.
pub open spec fn fabricated_among(used: Seq<bool>, around: Seq<Vec<RailSample>>, n: int) -> nat
    decreases n,
{
    if n <= 0 {
        0
    } else {
        fabricated_among(used, around, n - 1) + if !used[n - 1] && contradicts(around[n - 1]@) {
            1nat
        } else {
            0nat
        }
    }
}

/// Whether simulated bounce `c` belongs to the pairing of the two lists.
pub open spec fn paired(lists: BounceLists, c: int) -> bool {
    exists|a: int| 0 <= a < lists.trace(0, 0).len() && (#[trigger] lists.trace(0, 0)[a]).1 == c
}

/// Charge one ball's bounces: `around[j]` are the track's samples with respect to
/// simulated bounce `j`.
pub fn cushion_charge(lists: &BounceLists, around: &[Vec<RailSample>]) -> (c: CushionCharge)
    requires
        lists.wf(),
        around@.len() == lists.simulated@.len(),
    ensures
        c.missing == lists.observed@.len() - lists.best(0, 0),
        c.fabricated == fabricated_among(
            Seq::new(lists.simulated@.len(), |j: int| paired(*lists, j)),
            around@,
            around@.len() as int,
        ),
        c.fabricated == Set::new(
            |j: int|
                0 <= j < around@.len() && !paired(*lists, j) && contradicts(around@[j]@),
        ).len(),
{
    let alignment: Alignment = lists.align();
    let ghost used = Seq::new(lists.simulated@.len(), |j: int| paired(*lists, j));
    assert(alignment.used@ =~= used);
    let mut fabricated: usize = 0;
    for j in 0..around.len()
        invariant
            alignment.used@ == used,
            used.len() == around@.len(),
            fabricated == fabricated_among(used, around@, j as int),
            fabricated <= j,
    {
        if !alignment.used[j] && contradicted(around[j].as_slice()) {
            fabricated += 1;
        }
    }
    proof {
        law_fabricated_are_counted(used, around@, around@.len() as int);
        assert(Set::new(|j: int| 0 <= j < around@.len() && !used[j] && contradicts(around@[j]@))
            =~= Set::new(
            |j: int|
                0 <= j < around@.len() && !paired(*lists, j) && contradicts(around@[j]@),
        ));
    }
    CushionCharge { missing: lists.observed.len() - alignment.matched, fabricated }
}

/// Every simulated bounce that is not paired and that the track contradicts is charged,
/// each once and nothing else.
pub proof fn law_fabricated_are_counted(used: Seq<bool>, around: Seq<Vec<RailSample>>, n: int)
    requires
        0 <= n <= used.len(),
    ensures
        Set::new(|j: int| 0 <= j < n && !used[j] && contradicts(around[j]@)).finite(),
        fabricated_among(used, around, n) == Set::new(
            |j: int| 0 <= j < n && !used[j] && contradicts(around[j]@),
        ).len(),
    decreases n,
{
    let now = Set::new(|j: int| 0 <= j < n && !used[j] && contradicts(around[j]@));
    if n > 0 {
        law_fabricated_are_counted(used, around, n - 1);
        let before = Set::new(|j: int| 0 <= j < n - 1 && !used[j] && contradicts(around[j]@));
        lemma_one_more(before, now, n - 1, !used[n - 1] && contradicts(around[n - 1]@));
    } else {
        assert(now =~= Set::empty());
    }
}

/// A simulation that bounces a ball where none was observed, and that the track contradicts
/// each time, is charged for every one of those bounces; one more such bounce is one more
/// charge.
pub proof fn law_invented_bounces_are_all_charged(lists: BounceLists, around: Seq<Vec<RailSample>>)
    requires
        lists.wf(),
        around.len() == lists.simulated@.len(),
        forall|j: int| 0 <= j < around.len() ==> contradicts((#[trigger] around[j])@),
        forall|i: int, j: int|
            0 <= i < lists.observed@.len() && 0 <= j < lists.simulated@.len() ==> (
            #[trigger] lists.observed@[i]) != (#[trigger] lists.simulated@[j]),
    ensures
        fabricated_among(
            Seq::new(lists.simulated@.len(), |j: int| paired(lists, j)),
            around,
            around.len() as int,
        ) == lists.simulated@.len(),
        lists.best(0, 0) == 0,
{
    let used = Seq::new(lists.simulated@.len(), |j: int| paired(lists, j));
    let n = around.len() as int;
    lists.law_trace_is_best(0, 0);
    let t = lists.trace(0, 0);
    if t.len() > 0 {
        assert(lists.mates(t[0].0, t[0].1));
        assert(lists.observed@[t[0].0] == lists.simulated@[t[0].1]);
    }
    law_fabricated_are_counted(used, around, n);
    let all = Set::new(|j: int| 0 <= j < n && !used[j] && contradicts(around[j]@));
    assert(all =~= vstd::set_lib::set_int_range(0, n));
    vstd::set_lib::lemma_int_range(0, n);
}

/// A track contradicts a bounce only where it has five samples or more around that time, every
/// one of them far from the rail; and a single sample then that is not far clears the bounce.
pub proof fn law_contradiction_is_unanimous(samples: Seq<RailSample>, k: int)
    requires
        0 <= k < samples.len(),
        samples[k].apart.at_most(num(MATCH_W)),
    ensures
        !num(EXCLUDE_D).less(samples[k].dist) ==> !contradicts(samples),
        (forall|j: int|
            0 <= j < samples.len() ==> (#[trigger] samples[j]).apart.at_most(num(MATCH_W)) && num(
                EXCLUDE_D,
            ).less(samples[j].dist)) ==> (contradicts(samples) <==> samples.len() >= 5),
{
    let near = |s: RailSample| s.apart.at_most(num(MATCH_W));
    if forall|j: int|
        0 <= j < samples.len() ==> (#[trigger] samples[j]).apart.at_most(num(MATCH_W)) && num(
            EXCLUDE_D,
        ).less(samples[j].dist) {
        lemma_all_kept(samples, near);
    }
}

proof fn lemma_all_kept(samples: Seq<RailSample>, near: spec_fn(RailSample) -> bool)
    requires
        forall|j: int| 0 <= j < samples.len() ==> near(#[trigger] samples[j]),
    ensures
        samples.filter(near).len() == samples.len(),
    decreases samples.len(),
{
    reveal(Seq::filter);
    if samples.len() > 0 {
        lemma_all_kept(samples.drop_last(), near);
    }
}

/// Samples away from the time of a bounce say nothing about it.
pub proof fn law_distant_samples_do_not_testify(samples: Seq<RailSample>, other: RailSample)
    requires
        !other.apart.at_most(num(MATCH_W)),
    ensures
        contradicts(samples.push(other)) == contradicts(samples),
{
    let near = |s: RailSample| s.apart.at_most(num(MATCH_W));
    let more = samples.push(other);
    samples.lemma_filter_len_push(near, other);
    assert(forall|k: int| 0 <= k < samples.len() ==> #[trigger] more[k] == samples[k]);
    if contradicts(more) {
        assert forall|k: int| 0 <= k < samples.len() && (#[trigger] samples[k]).apart.at_most(
            num(MATCH_W),
        ) implies num(EXCLUDE_D).less(samples[k].dist) by {
            assert(more[k] == samples[k]);
        }
    }
}

/// A bounce is missing wherever an observed one has no mate: those of any pairing that keeps
/// the order are not, and the charge is never more than what such a pairing leaves over.
pub proof fn law_missing_bounces_are_left_over(lists: BounceLists, m: Seq<(int, int)>)
    requires
        lists.wf(),
        forall|a: int|
            0 <= a < m.len() ==> 0 <= (#[trigger] m[a]).0 < lists.observed@.len() && 0 <= m[a].1
                < lists.simulated@.len() && lists.observed@[m[a].0] == lists.simulated@[m[a].1]
                && lists.gaps@[m[a].0]@[m[a].1].at_most(num(MATCH_W)),
        forall|a: int, b: int|
            0 <= a < b < m.len() ==> (#[trigger] m[a]).0 < (#[trigger] m[b]).0 && m[a].1 < m[b].1,
    ensures
        lists.observed@.len() - lists.best(0, 0) <= lists.observed@.len() - m.len(),
{
    assert(lists.pairing(m, 0, 0));
    lists.law_best_is_greatest(m, 0, 0);
}

/// What a contact is charged, by what was observed of the ball: one that sat still is
/// charged exactly if the simulation moves it, one that was struck always, by the two times
/// or for want of one, and an untrusted track never.
pub proof fn law_contacts_are_charged(observed: FirstMove, simulated: Option<Scalar>)
    ensures
        charge_of(observed, simulated) == ContactCharge::Fabricated <==> observed
            == FirstMove::Still && simulated is Some,
        charge_of(observed, simulated) == ContactCharge::Missing <==> observed is At
            && simulated is None,
        charge_of(observed, simulated) is Delay <==> observed is At && simulated is Some,
        observed is At && simulated is Some ==> charge_of(observed, simulated)
            == ContactCharge::Delay(observed->At_0, simulated->0),
        observed == FirstMove::Unreliable ==> charge_of(observed, simulated)
            == ContactCharge::Free,
{
}

/// A bounce is put to the rail that the ball is nearest to.
pub proof fn law_nearest_rail_is_nearest(dists: Seq<Scalar>, rail: int, other: int)
    requires
        first_least_at(rank_keys_of(dists), rail),
        0 <= other < dists.len(),
    ensures
        0 <= rail < dists.len(),
        !dists[other].less(dists[rail]),
{
    law_first_least(rank_keys_of(dists), rail, other);
}

/// The bounces of a ball are its cushion contacts, all of them and no others, in the order
/// of the log, each with its own time and rail: bounce `i` is contact `from[i]`.
pub proof fn law_bounces_are_the_balls_own(
    events: Seq<ContactEvent>,
    rails: Seq<u8>,
    ball: int,
    n: int,
) -> (from: Seq<int>)
    requires
        0 <= n <= events.len(),
    ensures
        from.len() == bounces_of(events, rails, ball, n).len(),
        forall|e: int| #[trigger]
            from.contains(e) <==> 0 <= e < n && events[e].kind is Cushion
                && events[e].kind->Cushion_ball.0 == ball,
        forall|i: int, j: int|
            0 <= i < j < from.len() ==> (#[trigger] from[i]) < (#[trigger] from[j]),
        forall|i: int|
            0 <= i < from.len() ==> bounces_of(events, rails, ball, n)[i] == (
                events[#[trigger] from[i]].time,
                rails[from[i]],
            ),
    decreases n,
{
    if n <= 0 {
        seq![]
    } else {
        let before = law_bounces_are_the_balls_own(events, rails, ball, n - 1);
        let more = events[n - 1].kind is Cushion && events[n - 1].kind->Cushion_ball.0 == ball;
        let from = if more {
            before.push(n - 1)
        } else {
            before
        };
        lemma_places_step(before, from, n - 1, more);
        from
    }
}

/// A ball whose simulated bounces all pair with its observed ones is charged
/// nothing.
pub proof fn law_faithful_bounces_are_free(lists: BounceLists, around: Seq<Vec<RailSample>>)
    requires
        lists.wf(),
        lists.observed@.len() == lists.simulated@.len(),
        forall|k: int|
            0 <= k < lists.observed@.len() ==> lists.mates(k, k) && #[trigger] lists.observed@[k]
                == lists.simulated@[k],
        around.len() == lists.simulated@.len(),
    ensures
        lists.best(0, 0) == lists.observed@.len(),
        fabricated_among(
            Seq::new(lists.simulated@.len(), |j: int| paired(lists, j)),
            around,
            around.len() as int,
        ) == 0,
{
    let n = lists.observed@.len() as int;
    let m = Seq::new(n as nat, |k: int| (k, k));
    assert forall|a: int| 0 <= a < m.len() implies 0 <= (#[trigger] m[a]).0
        < lists.observed@.len() && 0 <= m[a].1 < lists.simulated@.len() && lists.mates(
        m[a].0,
        m[a].1,
    ) by {
        assert(lists.observed@[a] == lists.simulated@[a]);
    }
    assert(lists.pairing(m, 0, 0));
    lists.law_best_is_greatest(m, 0, 0);
    lists.law_trace_is_best(0, 0);
    let t = lists.trace(0, 0);
    if t.len() > 0 {
        lemma_at_least(lists, t, t.len() - 1);
    }
    lemma_full_pairing(lists, t, n);
    assert forall|j: int| 0 <= j < n implies paired(lists, j) by {
        assert(t[j].1 == j);
    }
    let used = Seq::new(lists.simulated@.len(), |j: int| paired(lists, j));
    lemma_none_fabricated(used, around, around.len() as int);
}

proof fn lemma_full_pairing(lists: BounceLists, t: Seq<(int, int)>, n: int)
    requires
        n == lists.simulated@.len(),
        lists.pairing(t, 0, 0),
        t.len() >= n,
    ensures
        forall|k: int| 0 <= k < n ==> (#[trigger] t[k]).1 == k,
{
    assert forall|k: int| 0 <= k < n implies (#[trigger] t[k]).1 == k by {
        lemma_at_least(lists, t, k);
        lemma_at_most(lists, t, n, k);
    }
}

proof fn lemma_at_least(lists: BounceLists, t: Seq<(int, int)>, i: int)
    requires
        lists.pairing(t, 0, 0),
        0 <= i < t.len(),
    ensures
        t[i].1 >= i,
    decreases i,
{
    if i > 0 {
        lemma_at_least(lists, t, i - 1);
        assert(t[i - 1].1 < t[i].1);
    }
}

proof fn lemma_at_most(lists: BounceLists, t: Seq<(int, int)>, n: int, i: int)
    requires
        n == lists.simulated@.len(),
        lists.pairing(t, 0, 0),
        0 <= i < t.len(),
    ensures
        t[i].1 <= n - (t.len() - i),
    decreases t.len() - i,
{
    if i + 1 < t.len() {
        lemma_at_most(lists, t, n, i + 1);
        assert(t[i].1 < t[i + 1].1);
    }
}

proof fn lemma_none_fabricated(used: Seq<bool>, around: Seq<Vec<RailSample>>, n: int)
    requires
        0 <= n <= used.len(),
        forall|j: int| 0 <= j < n ==> #[trigger] used[j],
    ensures
        fabricated_among(used, around, n) == 0,
    decreases n,
{
    if n > 0 {
        lemma_none_fabricated(used, around, n - 1);
    }
}

} // verus!
