//! Three-cushion scoring, read off a contact log.
//!
//! A point is scored when the cue ball contacts **both** object balls and makes
//! **at least three cushion contacts before touching the second** object ball.
//! (The three cushions may fall anywhere before that second contact.)

use vstd::prelude::*;

use crate::model::ball::BallId;
use crate::model::simulation::{
    cushions_of, is_cushion_of, lemma_cushions_step, ContactEvent, ContactKind, Simulation,
};

verus! {

/// The ball that `cue` meets in a contact, if it is a ball contact of `cue`.
pub open spec fn met(kind: ContactKind, cue: BallId) -> Option<BallId> {
    match kind {
        ContactKind::BallBall { a, b } => if a == cue {
            Some(b)
        } else if b == cue {
            Some(a)
        } else {
            None
        },
        _ => None,
    }
}

/// Whether a contact has `cue` in it, with a cushion or with a ball.
pub open spec fn involves(kind: ContactKind, cue: BallId) -> bool {
    is_cushion_of(kind, cue) || met(kind, cue) is Some
}

/// Whether contact `k` is the one at which `cue` touches its second distinct ball.
pub open spec fn second_ball_at(events: Seq<ContactEvent>, cue: BallId, k: int) -> bool {
    &&& 0 <= k < events.len()
    &&& met(events[k].kind, cue) is Some
    &&& exists|j: int|
        0 <= j < k && met((#[trigger] events[j]).kind, cue) is Some && met(events[j].kind, cue)
            != met(events[k].kind, cue)
    &&& forall|i: int, j: int|
        0 <= i < k && 0 <= j < k && met((#[trigger] events[i]).kind, cue) is Some && met(
            (#[trigger] events[j]).kind,
            cue,
        ) is Some ==> met(events[i].kind, cue) == met(events[j].kind, cue)
}

/// The scoring rule: three cushions of `cue` come before its second ball.
pub open spec fn scores_point(events: Seq<ContactEvent>, cue: BallId) -> bool {
    exists|k: int| #[trigger]
        second_ball_at(events, cue, k) && cushions_of(events.take(k), cue) >= 3
}

/// No second ball among the first `n` contacts: every ball met there is `first`.
spec fn one_ball_so_far(
    events: Seq<ContactEvent>,
    cue: BallId,
    n: int,
    first: Option<BallId>,
) -> bool {
    &&& forall|j: int|
        0 <= j < n && met((#[trigger] events[j]).kind, cue) is Some ==> met(events[j].kind, cue)
            == first
    &&& first is Some ==> exists|j: int|
        0 <= j < n && met((#[trigger] events[j]).kind, cue) == first
}

proof fn lemma_second_ball_unique(events: Seq<ContactEvent>, cue: BallId, j: int, k: int)
    requires
        second_ball_at(events, cue, j),
        second_ball_at(events, cue, k),
    ensures
        j == k,
{
    if j < k {
        let i = choose|i: int|
            0 <= i < j && met((#[trigger] events[i]).kind, cue) is Some && met(events[i].kind, cue)
                != met(events[j].kind, cue);
        assert(met(events[i].kind, cue) == met(events[j].kind, cue));
    } else if k < j {
        let i = choose|i: int|
            0 <= i < k && met((#[trigger] events[i]).kind, cue) is Some && met(events[i].kind, cue)
                != met(events[k].kind, cue);
        assert(met(events[i].kind, cue) == met(events[k].kind, cue));
    }
}

/// Whether the log shows a three-cushion point of `cue`.
pub fn three_cushion_scored(events: &[ContactEvent], cue: BallId) -> (r: bool)
    ensures
        r == scores_point(events@, cue),
{
    let mut cue_cushions: usize = 0;
    let mut first: Option<BallId> = None;
    assert(cushions_of(events@.take(0), cue) == 0) by {
        reveal(Seq::filter);
    }
    for k in 0..events.len()
        invariant
            cue_cushions == cushions_of(events@.take(k as int), cue),
            cue_cushions <= k,
            one_ball_so_far(events@, cue, k as int, first),
    {
        proof {
            lemma_cushions_step(events@, cue, k as int);
        }
        match events[k].kind {
            ContactKind::Cushion { ball } => {
                if ball == cue {
                    cue_cushions += 1;
                }
            },
            ContactKind::BallBall { a, b } => {
                if a == cue || b == cue {
                    let other: BallId = if a == cue {
                        b
                    } else {
                        a
                    };
                    assert(met(events@[k as int].kind, cue) == Some(other));
                    match first {
                        None => {
                            first = Some(other);
                        },
                        Some(ball) => {
                            if ball != other {
                                assert(second_ball_at(events@, cue, k as int));
                                assert forall|j: int| second_ball_at(events@, cue, j) implies j
                                    == k by {
                                    lemma_second_ball_unique(events@, cue, j, k as int);
                                }
                                return cue_cushions >= 3;
                            }
                        },
                    }
                }
            },
        }
    }
    false
}

/// Whether the given cue ball scores a three-cushion point in this simulation.
pub fn three_cushion_score(sim: &Simulation, cue: BallId) -> (r: bool)
    ensures
        r == scores_point(sim.events@, cue),
{
    three_cushion_scored(sim.events.as_slice(), cue)
}

/// The verdict is settled at the second ball: what follows it changes nothing.
pub proof fn law_verdict_settled(
    events: Seq<ContactEvent>,
    later: Seq<ContactEvent>,
    cue: BallId,
    k: int,
)
    requires
        second_ball_at(events, cue, k),
    ensures
        scores_point(events + later, cue) == (cushions_of(events.take(k), cue) >= 3),
        scores_point(events, cue) == (cushions_of(events.take(k), cue) >= 3),
{
    let all = events + later;
    assert(all.take(k) =~= events.take(k));
    let j = choose|j: int|
        0 <= j < k && met((#[trigger] events[j]).kind, cue) is Some && met(events[j].kind, cue)
            != met(events[k].kind, cue);
    assert(all[j] == events[j]);
    assert(all[k] == events[k]);
    assert forall|i: int| 0 <= i < k implies #[trigger] all[i] == events[i] by {}
    assert(second_ball_at(all, cue, k));
    assert forall|i: int| second_ball_at(all, cue, i) implies i == k by {
        lemma_second_ball_unique(all, cue, i, k);
    }
    assert forall|i: int| second_ball_at(events, cue, i) implies i == k by {
        lemma_second_ball_unique(events, cue, i, k);
    }
}

/// Whether two contacts are alike to `cue`: both are cushions of it or neither is, and
/// it meets the same ball, whichever of the two is named first.
pub open spec fn alike(c: ContactEvent, d: ContactEvent, cue: BallId) -> bool {
    is_cushion_of(c.kind, cue) == is_cushion_of(d.kind, cue) && met(c.kind, cue) == met(d.kind, cue)
}

/// The verdict rests on nothing but what `cue` touches and in which order: neither the
/// times nor the order in which a contact names its balls matter.
pub proof fn law_verdict_rests_on_cue(xs: Seq<ContactEvent>, ys: Seq<ContactEvent>, cue: BallId)
    requires
        xs.len() == ys.len(),
        forall|k: int| 0 <= k < xs.len() ==> alike(#[trigger] xs[k], ys[k], cue),
    ensures
        scores_point(xs, cue) == scores_point(ys, cue),
{
    assert forall|k: int| 0 <= k < ys.len() implies alike(#[trigger] ys[k], xs[k], cue) by {
        assert(alike(xs[k], ys[k], cue));
    }
    lemma_alike_scores(xs, ys, cue);
    lemma_alike_scores(ys, xs, cue);
}

proof fn lemma_alike_scores(xs: Seq<ContactEvent>, ys: Seq<ContactEvent>, cue: BallId)
    requires
        xs.len() == ys.len(),
        forall|k: int| 0 <= k < xs.len() ==> alike(#[trigger] xs[k], ys[k], cue),
    ensures
        scores_point(xs, cue) ==> scores_point(ys, cue),
{
    if scores_point(xs, cue) {
        let k = choose|k: int| #[trigger]
            second_ball_at(xs, cue, k) && cushions_of(xs.take(k), cue) >= 3;
        lemma_alike_cushions(xs, ys, cue, k);
        let j = choose|j: int|
            0 <= j < k && met((#[trigger] xs[j]).kind, cue) is Some && met(xs[j].kind, cue) != met(
                xs[k].kind,
                cue,
            );
        assert(alike(xs[j], ys[j], cue) && alike(xs[k], ys[k], cue));
        assert forall|a: int, b: int|
            0 <= a < k && 0 <= b < k && met((#[trigger] ys[a]).kind, cue) is Some && met(
                (#[trigger] ys[b]).kind,
                cue,
            ) is Some implies met(ys[a].kind, cue) == met(ys[b].kind, cue) by {
            assert(alike(xs[a], ys[a], cue) && alike(xs[b], ys[b], cue));
        }
        assert(second_ball_at(ys, cue, k));
    }
}

proof fn lemma_alike_cushions(
    xs: Seq<ContactEvent>,
    ys: Seq<ContactEvent>,
    cue: BallId,
    k: int,
)
    requires
        0 <= k <= xs.len() == ys.len(),
        forall|i: int| 0 <= i < xs.len() ==> alike(#[trigger] xs[i], ys[i], cue),
    ensures
        cushions_of(xs.take(k), cue) == cushions_of(ys.take(k), cue),
    decreases k,
{
    if k > 0 {
        lemma_alike_cushions(xs, ys, cue, k - 1);
        lemma_cushions_step(xs, cue, k - 1);
        lemma_cushions_step(ys, cue, k - 1);
        assert(alike(xs[k - 1], ys[k - 1], cue));
    } else {
        assert(xs.take(0) =~= ys.take(0));
    }
}

/// A point takes at least three cushion contacts of the cue ball and at least
/// two ball contacts, with different balls.
pub proof fn law_point_needs_contacts(events: Seq<ContactEvent>, cue: BallId)
    requires
        scores_point(events, cue),
    ensures
        cushions_of(events, cue) >= 3,
        exists|i: int, j: int|
            0 <= i < j < events.len() && met((#[trigger] events[i]).kind, cue) is Some && met(
                (#[trigger] events[j]).kind,
                cue,
            ) is Some && met(events[i].kind, cue) != met(events[j].kind, cue),
{
    let k = choose|k: int| #[trigger]
        second_ball_at(events, cue, k) && cushions_of(events.take(k), cue) >= 3;
    let j = choose|j: int|
        0 <= j < k && met((#[trigger] events[j]).kind, cue) is Some && met(events[j].kind, cue)
            != met(events[k].kind, cue);
    assert(met(events[j].kind, cue) is Some && met(events[k].kind, cue) is Some);
    let p = |e: ContactEvent| is_cushion_of(e.kind, cue);
    assert(events =~= events.take(k) + events.skip(k));
    Seq::filter_distributes_over_add(events.take(k), events.skip(k), p);
}

/// Where contact `i` is after one was put in at `at`.
spec fn shifted(i: int, at: int) -> int {
    if i < at {
        i
    } else {
        i + 1
    }
}

proof fn lemma_insert_counts(
    events: Seq<ContactEvent>,
    cue: BallId,
    at: int,
    other: ContactEvent,
    n: int,
)
    requires
        0 <= at <= events.len(),
        0 <= n < events.len(),
        !involves(other.kind, cue),
    ensures
        cushions_of(events.insert(at, other).take(shifted(n, at)), cue) == cushions_of(
            events.take(n),
            cue,
        ),
{
    let more = events.insert(at, other);
    let p = |e: ContactEvent| is_cushion_of(e.kind, cue);
    if n < at {
        assert(more.take(n) =~= events.take(n));
    } else {
        let a = events.take(at);
        let b = events.subrange(at, n);
        assert(events.take(n) =~= a + b);
        assert(more.take(n + 1) =~= a.push(other) + b);
        Seq::filter_distributes_over_add(a, b, p);
        Seq::filter_distributes_over_add(a.push(other), b, p);
        a.lemma_filter_len_push(p, other);
    }
}

proof fn lemma_insert_second_ball(
    events: Seq<ContactEvent>,
    cue: BallId,
    at: int,
    other: ContactEvent,
    k: int,
)
    requires
        0 <= at <= events.len(),
        !involves(other.kind, cue),
        second_ball_at(events, cue, k),
    ensures
        second_ball_at(events.insert(at, other), cue, shifted(k, at)),
{
    let more = events.insert(at, other);
    let j = choose|j: int|
        0 <= j < k && met((#[trigger] events[j]).kind, cue) is Some && met(events[j].kind, cue)
            != met(events[k].kind, cue);
    assert(more[shifted(j, at)] == events[j]);
    assert(more[shifted(k, at)] == events[k]);
    assert forall|a: int, b: int|
        0 <= a < shifted(k, at) && 0 <= b < shifted(k, at) && met(
            (#[trigger] more[a]).kind,
            cue,
        ) is Some && met((#[trigger] more[b]).kind, cue) is Some implies met(more[a].kind, cue)
        == met(more[b].kind, cue) by {
        let a0 = if a < at {
            a
        } else {
            a - 1
        };
        let b0 = if b < at {
            b
        } else {
            b - 1
        };
        assert(a != at && b != at);
        assert(more[a] == events[a0] && more[b] == events[b0]);
    }
}

proof fn lemma_remove_second_ball(
    events: Seq<ContactEvent>,
    cue: BallId,
    at: int,
    other: ContactEvent,
    m: int,
) -> (k: int)
    requires
        0 <= at <= events.len(),
        !involves(other.kind, cue),
        second_ball_at(events.insert(at, other), cue, m),
    ensures
        second_ball_at(events, cue, k),
        m == shifted(k, at),
{
    let more = events.insert(at, other);
    assert(more[at] == other);
    assert(m != at);
    let k = if m < at {
        m
    } else {
        m - 1
    };
    let j = choose|j: int|
        0 <= j < m && met((#[trigger] more[j]).kind, cue) is Some && met(more[j].kind, cue) != met(
            more[m].kind,
            cue,
        );
    let j0 = if j < at {
        j
    } else {
        j - 1
    };
    assert(j != at);
    assert(events[j0] == more[j] && events[k] == more[m]);
    assert forall|a: int, b: int|
        0 <= a < k && 0 <= b < k && met((#[trigger] events[a]).kind, cue) is Some && met(
            (#[trigger] events[b]).kind,
            cue,
        ) is Some implies met(events[a].kind, cue) == met(events[b].kind, cue) by {
        assert(more[shifted(a, at)] == events[a] && more[shifted(b, at)] == events[b]);
    }
    k
}

/// A contact that does not involve the cue ball can be struck from the log, or
/// put anywhere into it, without changing the verdict.
pub proof fn law_other_contacts_do_not_count(
    events: Seq<ContactEvent>,
    cue: BallId,
    at: int,
    other: ContactEvent,
)
    requires
        0 <= at <= events.len(),
        !involves(other.kind, cue),
    ensures
        scores_point(events.insert(at, other), cue) == scores_point(events, cue),
{
    let more = events.insert(at, other);
    if scores_point(events, cue) {
        let k = choose|k: int| #[trigger]
            second_ball_at(events, cue, k) && cushions_of(events.take(k), cue) >= 3;
        lemma_insert_second_ball(events, cue, at, other, k);
        lemma_insert_counts(events, cue, at, other, k);
        assert(second_ball_at(more, cue, shifted(k, at)));
    }
    if scores_point(more, cue) {
        let m = choose|m: int| #[trigger]
            second_ball_at(more, cue, m) && cushions_of(more.take(m), cue) >= 3;
        let k = lemma_remove_second_ball(events, cue, at, other, m);
        lemma_insert_counts(events, cue, at, other, k);
        assert(second_ball_at(events, cue, k));
    }
}

/// Whether a contact is `cue` touching `ball`.
pub open spec fn touches(kind: ContactKind, cue: BallId, ball: BallId) -> bool {
    kind == (ContactKind::BallBall { a: cue, b: ball }) || kind == (ContactKind::BallBall {
        a: ball,
        b: cue,
    })
}

/// The rule: where the cue ball touches one ball, and then another for the first time, the
/// point is scored exactly if its own cushion contacts before that number at least three.
pub proof fn law_three_cushions_before_the_second_ball(
    events: Seq<ContactEvent>,
    cue: BallId,
    first: BallId,
    second: BallId,
    j: int,
    k: int,
)
    requires
        first != cue && second != cue && first != second,
        0 <= j < k < events.len(),
        touches(events[j].kind, cue, first),
        touches(events[k].kind, cue, second),
        forall|i: int|
            0 <= i < k ==> match (#[trigger] events[i]).kind {
                ContactKind::BallBall { a, b } => (a == cue ==> b == first) && (b == cue ==> a
                    == first),
                ContactKind::Cushion { .. } => true,
            },
    ensures
        scores_point(events, cue) <==> events.take(k).filter(
            |e: ContactEvent| e.kind == (ContactKind::Cushion { ball: cue }),
        ).len() >= 3,
{
    assert(met(events[j].kind, cue) == Some(first));
    assert(met(events[k].kind, cue) == Some(second));
    assert(second_ball_at(events, cue, k));
    law_verdict_settled(events, seq![], cue, k);
    let own = |e: ContactEvent| e.kind == (ContactKind::Cushion { ball: cue });
    let p = |e: ContactEvent| is_cushion_of(e.kind, cue);
    lemma_same_filter(events.take(k), own, p);
}

proof fn lemma_same_filter(
    s: Seq<ContactEvent>,
    p: spec_fn(ContactEvent) -> bool,
    q: spec_fn(ContactEvent) -> bool,
)
    requires
        forall|e: ContactEvent| #[trigger] p(e) == q(e),
    ensures
        s.filter(p) == s.filter(q),
    decreases s.len(),
{
    reveal(Seq::filter);
    if s.len() > 0 {
        lemma_same_filter(s.drop_last(), p, q);
        assert(p(s.last()) == q(s.last()));
    }
}

/// A cue ball that touches no ball, or only one, scores nothing, however many cushions it
/// touches.
pub proof fn law_one_ball_is_no_point(events: Seq<ContactEvent>, cue: BallId, only: BallId)
    requires
        forall|i: int|
            0 <= i < events.len() ==> match (#[trigger] events[i]).kind {
                ContactKind::BallBall { a, b } => (a == cue ==> b == only) && (b == cue ==> a
                    == only),
                ContactKind::Cushion { .. } => true,
            },
    ensures
        !scores_point(events, cue),
{
    if scores_point(events, cue) {
        law_point_needs_contacts(events, cue);
    }
}

} // verus!
