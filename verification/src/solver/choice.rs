//! Choosing among candidate shots.

use vstd::prelude::*;

use crate::model::scene::CueAction;
use crate::order::{
    first_least, first_least_at, law_first_least, law_order_ascends, law_order_lists_all,
    lemma_one_more, lemma_places_step, rank_keys, rank_keys_of, sorts, stable_order,
};
use crate::scalar::{num, Scalar, ZERO};

verus! {

/// Success probabilities from which a shot is easy, medium, hard: 0.70, 0.45, 0.20.
pub const EASY: u64 = 0x3FE6_6666_6666_6666;

pub const MEDIUM: u64 = 0x3FDC_CCCC_CCCC_CCCD;

pub const HARD: u64 = 0x3FC9_9999_9999_999A;

/// The slowest stroke (m/s) that an execution error leaves: 0.2.
pub const SLOWEST: u64 = 0x3FC9_9999_9999_999A;

/// The slowest stroke (m/s) that a repair suggests: 0.4.
pub const SLOWEST_REPAIR: u64 = 0x3FD9_9999_9999_999A;

/// What the seed of a player's own shot is mixed with.
pub const PLAYER_MIX: u64 = 0xB0B5_CA7E;

/// What the index of a candidate is spread by.
pub const CANDIDATE_MIX: u64 = 0x9E37_79B9_7F4A_7C15;

/// The leader among the first `n` numbers: one takes the lead only from a lesser
/// one.
pub open spec fn leader_among(xs: Seq<Scalar>, n: int) -> int
    decreases n,
{
    if n <= 1 {
        0
    } else {
        let b = leader_among(xs, n - 1);
        if xs[b].less(xs[n - 1]) {
            n - 1
        } else {
            b
        }
    }
}

/// The leader of a list of numbers.
pub fn leader(xs: &[Scalar]) -> (r: Option<usize>)
    ensures
        match r {
            Some(k) => k < xs@.len() && k == leader_among(xs@, xs@.len() as int),
            None => xs@.len() == 0,
        },
{
    if xs.len() == 0 {
        return None;
    }
    let mut best: usize = 0;
    for k in 1..xs.len()
        invariant
            best < k <= xs@.len(),
            best == leader_among(xs@, k as int),
    {
        if xs[best].lt(xs[k]) {
            best = k;
        }
    }
    Some(best)
}

/// Among numbers, the leader is the first of the greatest.
pub proof fn law_leader_is_first_greatest(xs: Seq<Scalar>, n: int)
    requires
        1 <= n <= xs.len(),
        forall|k: int| 0 <= k < n ==> !(#[trigger] xs[k]).nan(),
    ensures
        0 <= leader_among(xs, n) < n,
        forall|k: int|
            0 <= k < n ==> (#[trigger] xs[k]).at_most(xs[leader_among(xs, n)]) && (k
                < leader_among(xs, n) ==> xs[k].less(xs[leader_among(xs, n)])),
    decreases n,
{
    if n > 1 {
        law_leader_is_first_greatest(xs, n - 1);
    }
}

/// The solver's recommendation for a scene: the most forgiving scoring action, the
/// estimated probability that it scores under execution noise, and how many grid
/// cells scored.
#[derive(Clone, Copy, Debug, PartialEq, Eq, Structural)]
pub struct Solution {
    pub action: CueAction,
    pub success_prob: Scalar,
    pub scoring_cells: usize,
}

impl Solution {
    /// A human-facing difficulty label.
    pub fn category(&self) -> (s: &'static str)
        ensures
            s@ == (if num(EASY).at_most(self.success_prob) {
                "easy"@
            } else if num(MEDIUM).at_most(self.success_prob) {
                "medium"@
            } else if num(HARD).at_most(self.success_prob) {
                "hard"@
            } else {
                "very hard"@
            }),
            s@ == label_of(self.success_prob),
    {
        let p: Scalar = self.success_prob;
        if p.ge(num(EASY)) {
            "easy"
        } else if p.ge(num(MEDIUM)) {
            "medium"
        } else if p.ge(num(HARD)) {
            "hard"
        } else {
            "very hard"
        }
    }
}

/// The difficulty that a success probability stands for.
pub open spec fn label_of(p: Scalar) -> Seq<char> {
    if num(EASY).at_most(p) {
        "easy"@
    } else if num(MEDIUM).at_most(p) {
        "medium"@
    } else if num(HARD).at_most(p) {
        "hard"@
    } else {
        "very hard"@
    }
}

/// How hard a label says a shot is.
pub open spec fn hardness(label: Seq<char>) -> int {
    if label == "easy"@ {
        0
    } else if label == "medium"@ {
        1
    } else if label == "hard"@ {
        2
    } else {
        3
    }
}

/// A shot that scores more often is never called harder, and each label begins with its own
/// probability: 0.70 is easy, 0.45 medium, 0.20 hard, and what is below very hard.
pub proof fn law_likelier_is_no_harder(p: Scalar, q: Scalar)
    requires
        p.at_most(q),
    ensures
        hardness(label_of(q)) <= hardness(label_of(p)),
        label_of(num(0x3FE6_6666_6666_6666)) == "easy"@,
        label_of(num(0x3FDC_CCCC_CCCC_CCCD)) == "medium"@,
        label_of(num(0x3FC9_9999_9999_999A)) == "hard"@,
        label_of(num(ZERO)) == "very hard"@,
        q.less(num(0x3FE6_6666_6666_6666)) ==> hardness(label_of(q)) >= 1,
        q.less(num(0x3FDC_CCCC_CCCC_CCCD)) ==> hardness(label_of(q)) >= 2,
        q.less(num(0x3FC9_9999_9999_999A)) ==> hardness(label_of(q)) == 3,
{
    reveal_strlit("easy");
    reveal_strlit("medium");
    reveal_strlit("hard");
    reveal_strlit("very hard");
    assert("easy"@.len() == 4 && "medium"@.len() == 6 && "hard"@.len() == 4 && "very hard"@.len()
        == 9);
    assert("easy"@[0] == 'e' && "hard"@[0] == 'h');
}

/// The places among the first `n` candidates that score.
pub open spec fn scoring_among(scored: Seq<bool>, n: int) -> Seq<int>
    decreases n,
{
    if n <= 0 {
        seq![]
    } else if scored[n - 1] {
        scoring_among(scored, n - 1).push(n - 1)
    } else {
        scoring_among(scored, n - 1)
    }
}

/// The candidates that score, in their order.
pub fn scoring(scored: &[bool]) -> (r: Vec<usize>)
    ensures
        r@.map_values(|k: usize| k as int) == scoring_among(scored@, scored@.len() as int),
        forall|a: int| 0 <= a < r@.len() ==> (#[trigger] r@[a]) < scored@.len(),
        forall|k: usize| k < scored@.len() ==> (#[trigger] r@.contains(k) <==> scored@[k as int]),
        forall|a: int, b: int| 0 <= a < b < r@.len() ==> (#[trigger] r@[a]) < (#[trigger] r@[b]),
{
    let mut r: Vec<usize> = Vec::new();
    let ghost as_int = |k: usize| k as int;
    assert(r@.map_values(as_int) =~= scoring_among(scored@, 0));
    for k in 0..scored.len()
        invariant
            as_int == (|k: usize| k as int),
            r@.map_values(as_int) == scoring_among(scored@, k as int),
            forall|a: int| 0 <= a < r@.len() ==> (#[trigger] r@[a]) < k,
            forall|a: int, b: int|
                0 <= a < b < r@.len() ==> (#[trigger] r@[a]) < (#[trigger] r@[b]),
            forall|j: usize| j < k ==> (#[trigger] r@.contains(j) <==> scored@[j as int]),
    {
        let ghost before = r@;
        if scored[k] {
            r.push(k);
            assert(r@.map_values(as_int) =~= before.map_values(as_int).push(k as int));
        }
        proof {
            lemma_contains_step(before, r@, k, scored@[k as int]);
        }
    }
    r
}

proof fn lemma_contains_step(before: Seq<usize>, after: Seq<usize>, k: usize, more: bool)
    requires
        after == (if more {
            before.push(k)
        } else {
            before
        }),
        forall|a: int| 0 <= a < before.len() ==> (#[trigger] before[a]) < k,
    ensures
        forall|j: usize| #[trigger]
            after.contains(j) <==> before.contains(j) || (j == k && more),
        !before.contains(k),
{
    assert forall|j: usize| #[trigger]
        after.contains(j) <==> before.contains(j) || (j == k && more) by {
        if before.contains(j) {
            let a = choose|a: int| 0 <= a < before.len() && before[a] == j;
            assert(after[a] == j);
        }
        if more {
            assert(after[before.len() as int] == k);
        }
    }
}

/// The candidates that are listed are exactly those that score, each once, in their order.
pub proof fn law_scoring_lists_all(scored: Seq<bool>, n: int)
    requires
        0 <= n <= scored.len(),
    ensures
        forall|k: int| #[trigger]
            scoring_among(scored, n).contains(k) <==> 0 <= k < n && scored[k],
        forall|a: int, b: int|
            0 <= a < b < scoring_among(scored, n).len() ==> (#[trigger] scoring_among(scored, n)[a])
                < (#[trigger] scoring_among(scored, n)[b]),
    decreases n,
{
    if n > 0 {
        law_scoring_lists_all(scored, n - 1);
        lemma_places_step(
            scoring_among(scored, n - 1),
            scoring_among(scored, n),
            n - 1,
            scored[n - 1],
        );
    }
}

/// Whether all of them are numbers.
pub open spec fn numbers(xs: Seq<Scalar>) -> bool {
    forall|k: int| 0 <= k < xs.len() ==> !(#[trigger] xs[k]).nan()
}

/// The most robust of the scoring actions, given the success probability of each;
/// ties go to the first. None where no action scores.
pub fn most_forgiving(scoring: &[CueAction], probs: &[Scalar]) -> (r: Option<Solution>)
    requires
        probs@.len() == scoring@.len(),
    ensures
        match r {
            Some(s) => {
                let k = leader_among(probs@, probs@.len() as int);
                &&& scoring@.len() > 0
                &&& s.action == scoring@[k]
                &&& s.success_prob == probs@[k]
                &&& s.scoring_cells == scoring@.len()
            },
            None => scoring@.len() == 0,
        },
        r is Some ==> scoring@.contains(r->0.action) && forall|j: int|
            0 <= j < probs@.len() && numbers(probs@) ==> (#[trigger] probs@[j]).at_most(
                r->0.success_prob,
            ),
{
    proof {
        if numbers(probs@) && probs@.len() > 0 {
            assert forall|k: int| 0 <= k < probs@.len() implies !(#[trigger] probs@[k]).nan() by {}
            law_leader_is_first_greatest(probs@, probs@.len() as int);
        }
    }
    match leader(probs) {
        Some(k) => Some(
            Solution {
                action: scoring[k],
                success_prob: probs[k],
                scoring_cells: scoring.len(),
            },
        ),
        None => None,
    }
}

/// The seed with which a player's own shot is graded.
pub fn player_seed(seed: u64) -> (s: u64)
    ensures
        s == seed ^ PLAYER_MIX,
{
    seed ^ PLAYER_MIX
}

/// The seed of candidate `i`, the same however the work is scheduled.
pub fn candidate_seed(seed: u64, i: u64) -> (s: u64)
    ensures
        s == seed ^ (((i * CANDIDATE_MIX) % 0x1_0000_0000_0000_0000) as u64),
{
    let spread: u64 = i.wrapping_mul(CANDIDATE_MIX);
    seed ^ spread
}

/// How many executions scored.
pub open spec fn hits_among(scored: Seq<bool>, n: int) -> nat
    decreases n,
{
    if n <= 0 {
        0
    } else {
        hits_among(scored, n - 1) + if scored[n - 1] {
            1nat
        } else {
            0nat
        }
    }
}

pub fn hits(scored: &[bool]) -> (h: usize)
    ensures
        h == hits_among(scored@, scored@.len() as int),
        h <= scored@.len(),
        h == scored@.filter(|b: bool| b).len(),
{
    let mut h: usize = 0;
    for k in 0..scored.len()
        invariant
            h == hits_among(scored@, k as int),
            h <= k,
    {
        if scored[k] {
            h += 1;
        }
    }
    proof {
        law_hits_are_counted(scored@, scored@.len() as int);
        assert(scored@.take(scored@.len() as int) =~= scored@);
    }
    h
}

/// The hits are the executions that scored, all of them and each once, wherever they stand:
/// as many as there are places of a score, or entries that are one.
pub proof fn law_hits_are_counted(scored: Seq<bool>, n: int)
    requires
        0 <= n <= scored.len(),
    ensures
        Set::new(|k: int| 0 <= k < n && scored[k]).finite(),
        hits_among(scored, n) == Set::new(|k: int| 0 <= k < n && scored[k]).len(),
        hits_among(scored, n) == scored.take(n).filter(|b: bool| b).len(),
    decreases n,
{
    let now = Set::new(|k: int| 0 <= k < n && scored[k]);
    let hit = |b: bool| b;
    if n > 0 {
        law_hits_are_counted(scored, n - 1);
        let before = Set::new(|k: int| 0 <= k < n - 1 && scored[k]);
        lemma_one_more(before, now, n - 1, scored[n - 1]);
        scored.take(n - 1).lemma_filter_len_push(hit, scored[n - 1]);
        assert(scored.take(n - 1).push(scored[n - 1]) =~= scored.take(n));
    } else {
        assert(now =~= Set::empty());
        reveal(Seq::filter);
    }
}

/// A shot whose executions all score has as many hits as executions, one that never scores
/// has none, and one more score is one more hit.
pub proof fn law_hits_grow_with_scores(scored: Seq<bool>, k: int)
    requires
        0 <= k < scored.len(),
    ensures
        (forall|j: int| 0 <= j < scored.len() ==> #[trigger] scored[j]) ==> hits_among(
            scored,
            scored.len() as int,
        ) == scored.len(),
        (forall|j: int| 0 <= j < scored.len() ==> !#[trigger] scored[j]) ==> hits_among(
            scored,
            scored.len() as int,
        ) == 0,
        !scored[k] ==> hits_among(scored.update(k, true), scored.len() as int) == hits_among(
            scored,
            scored.len() as int,
        ) + 1,
{
    let n = scored.len() as int;
    law_hits_are_counted(scored, n);
    let here = Set::new(|j: int| 0 <= j < n && scored[j]);
    if forall|j: int| 0 <= j < scored.len() ==> #[trigger] scored[j] {
        assert(here =~= vstd::set_lib::set_int_range(0, n));
        vstd::set_lib::lemma_int_range(0, n);
    }
    if forall|j: int| 0 <= j < scored.len() ==> !#[trigger] scored[j] {
        assert(here =~= Set::empty());
    }
    if !scored[k] {
        let more = scored.update(k, true);
        law_hits_are_counted(more, n);
        lemma_one_more(here, Set::new(|j: int| 0 <= j < n && more[j]), k, true);
    }
}

/// The speed of an execution, from the intended one and its error.
pub fn executed_speed(speed: Scalar) -> (v: Scalar)
    ensures
        v == speed.greater_of(num(SLOWEST)),
        num(SLOWEST).at_most(v),
        num(SLOWEST).at_most(speed) ==> v == speed,
{
    speed.max(num(SLOWEST))
}

/// The least speed a repair looks at.
pub fn least_repair_speed(speed: Scalar) -> (v: Scalar)
    ensures
        v == speed.greater_of(num(SLOWEST_REPAIR)),
        num(SLOWEST_REPAIR).at_most(v),
        num(SLOWEST_REPAIR).at_most(speed) ==> v == speed,
{
    speed.max(num(SLOWEST_REPAIR))
}

/// The places, among the first `n`, of numbers up to a limit.
pub open spec fn places_within(xs: Seq<Scalar>, limit: Scalar, n: int) -> Seq<int>
    decreases n,
{
    if n <= 0 {
        seq![]
    } else if xs[n - 1].at_most(limit) {
        places_within(xs, limit, n - 1).push(n - 1)
    } else {
        places_within(xs, limit, n - 1)
    }
}

/// The tip-offset grid points inside the miscue disk, in grid order: those whose
/// squared length is up to the limit.
pub fn offset_grid(squares: &[Scalar], limit: Scalar) -> (r: Vec<usize>)
    ensures
        r@.map_values(|k: usize| k as int) == places_within(
            squares@,
            limit,
            squares@.len() as int,
        ),
        forall|a: int| 0 <= a < r@.len() ==> (#[trigger] r@[a]) < squares@.len(),
        forall|a: int, b: int| 0 <= a < b < r@.len() ==> (#[trigger] r@[a]) < (#[trigger] r@[b]),
        forall|k: usize|
            k < squares@.len() ==> (#[trigger] r@.contains(k) <==> squares@[k as int].at_most(
                limit,
            )),
{
    let mut r: Vec<usize> = Vec::new();
    let ghost as_int = |k: usize| k as int;
    assert(r@.map_values(as_int) =~= places_within(squares@, limit, 0));
    for k in 0..squares.len()
        invariant
            as_int == (|k: usize| k as int),
            r@.map_values(as_int) == places_within(squares@, limit, k as int),
            forall|a: int| 0 <= a < r@.len() ==> (#[trigger] r@[a]) < k,
            forall|a: int, b: int|
                0 <= a < b < r@.len() ==> (#[trigger] r@[a]) < (#[trigger] r@[b]),
            forall|j: usize|
                j < k ==> (#[trigger] r@.contains(j) <==> squares@[j as int].at_most(limit)),
    {
        let ghost before = r@;
        if squares[k].le(limit) {
            r.push(k);
            assert(r@.map_values(as_int) =~= before.map_values(as_int).push(k as int));
        }
        proof {
            lemma_contains_step(before, r@, k, squares@[k as int].at_most(limit));
        }
    }
    r
}

/// The grid points that are taken are exactly those within the limit, in their order.
pub proof fn law_grid_keeps_what_is_within(xs: Seq<Scalar>, limit: Scalar, n: int)
    requires
        0 <= n <= xs.len(),
    ensures
        forall|k: int| #[trigger]
            places_within(xs, limit, n).contains(k) <==> 0 <= k < n && xs[k].at_most(limit),
        forall|a: int, b: int|
            0 <= a < b < places_within(xs, limit, n).len() ==> (#[trigger] places_within(
                xs,
                limit,
                n,
            )[a]) < (#[trigger] places_within(xs, limit, n)[b]),
    decreases n,
{
    if n > 0 {
        law_grid_keeps_what_is_within(xs, limit, n - 1);
        lemma_places_step(
            places_within(xs, limit, n - 1),
            places_within(xs, limit, n),
            n - 1,
            xs[n - 1].at_most(limit),
        );
    }
}

/// The most forgiving action is one of those that score, with its own probability, and no
/// other one scores with a greater probability.
pub proof fn law_most_forgiving_is_greatest(probs: Seq<Scalar>, j: int)
    requires
        0 <= j < probs.len(),
        forall|k: int| 0 <= k < probs.len() ==> !(#[trigger] probs[k]).nan(),
    ensures
        ({
            let k = leader_among(probs, probs.len() as int);
            &&& 0 <= k < probs.len()
            &&& probs[j].at_most(probs[k])
            &&& j < k ==> probs[j].less(probs[k])
        }),
{
    law_leader_is_first_greatest(probs, probs.len() as int);
}

/// The shortlist holds as many candidates as are refined, each once, and no candidate that
/// is left out has a lesser error than one that is in.
pub proof fn law_shortlist_is_least(errors: Seq<Scalar>, p: Seq<usize>, m: int, i: int, out: usize)
    requires
        sorts(rank_keys_of(errors), p),
        errors.len() <= usize::MAX,
        0 <= i < m <= p.len(),
        out < errors.len(),
        !p.take(m).contains(out),
    ensures
        p.take(m).no_duplicates(),
        p.take(m).len() == m,
        !errors[out as int].less(errors[p[i] as int]),
        errors[out as int].rank() >= errors[p[i] as int].rank(),
{
    let keys = rank_keys_of(errors);
    law_order_lists_all(keys, p, out);
    let j = choose|j: int| 0 <= j < p.len() && p[j] == out;
    if j < m {
        assert(p.take(m)[j] == out);
    }
    law_order_ascends(keys, p, i, j);
    assert forall|a: int, b: int| 0 <= a < m && 0 <= b < m && a != b implies p.take(m)[a]
        != p.take(m)[b] by {
        if a < b {
            law_order_ascends(keys, p, a, b);
        } else {
            law_order_ascends(keys, p, b, a);
        }
    }
}

/// No candidate has a lesser error than the winner, and none before it has an equal one.
pub proof fn law_winner_is_least(errors: Seq<Scalar>, k: int, j: int)
    requires
        first_least_at(rank_keys_of(errors), k),
        0 <= j < errors.len(),
    ensures
        0 <= k < errors.len(),
        !errors[j].less(errors[k]),
        errors[k].rank() <= errors[j].rank(),
        j < k ==> errors[j] != errors[k],
{
    law_first_least(rank_keys_of(errors), k, j);
}

/// The candidates that are refined: those with the least errors, best first, equal
/// ones in their order; at most `multistart` of them.
pub fn shortlist(errors: &[Scalar], multistart: usize) -> (r: Vec<usize>)
    ensures
        exists|p: Seq<usize>| #[trigger]
            sorts(rank_keys_of(errors@), p) && r@ == p.take(
                if multistart <= p.len() {
                    multistart as int
                } else {
                    p.len() as int
                },
            ),
{
    let p: Vec<usize> = stable_order(rank_keys(errors).as_slice());
    let k: usize = if multistart <= p.len() {
        multistart
    } else {
        p.len()
    };
    let mut r: Vec<usize> = Vec::new();
    for i in 0..k
        invariant
            k <= p@.len(),
            r@ == p@.take(i as int),
    {
        r.push(p[i]);
        assert(p@.take(i + 1) =~= p@.take(i as int).push(p@[i as int]));
    }
    r
}

/// The candidate with the least error; the first of equal ones.
pub fn winner(errors: &[Scalar]) -> (r: Option<usize>)
    ensures
        match r {
            Some(k) => first_least_at(rank_keys_of(errors@), k as int),
            None => errors@.len() == 0,
        },
{
    first_least(rank_keys(errors).as_slice())
}

/// A coaching repair for a (missed) shot: the nearest action that scores, and how
/// it differs from what the player did.
#[derive(Clone, Copy, Debug, PartialEq, Eq, Structural)]
pub struct Repair {
    pub action: CueAction,
    pub d_aim: Scalar,
    pub d_speed: Scalar,
    pub d_english: Scalar,
    pub d_follow: Scalar,
    pub success_prob: Scalar,
    pub cost: Scalar,
    /// True if the player's own shot already scored (no change needed).
    pub already_scores: bool,
}

impl Repair {
    pub open spec fn no_change(player: CueAction, success_prob: Scalar) -> Repair {
        Repair {
            action: player,
            d_aim: num(ZERO),
            d_speed: num(ZERO),
            d_english: num(ZERO),
            d_follow: num(ZERO),
            success_prob,
            cost: num(ZERO),
            already_scores: true,
        }
    }

    /// A shot that already scores, with zero adjustments.
    pub fn unchanged(player: CueAction, success_prob: Scalar) -> (r: Repair)
        ensures
            r == Repair::no_change(player, success_prob),
    {
        Repair {
            action: player,
            d_aim: num(ZERO),
            d_speed: num(ZERO),
            d_english: num(ZERO),
            d_follow: num(ZERO),
            success_prob,
            cost: num(ZERO),
            already_scores: true,
        }
    }
}

/// The repair of a player's shot: the shot itself, with zero adjustments, if it already
/// scores; else the nearest action that does, if there is one.
pub fn repaired(
    player: CueAction,
    scores: bool,
    success_prob: Scalar,
    nearest: Option<Repair>,
) -> (r: Option<Repair>)
    ensures
        r == (if scores {
            Some(Repair::no_change(player, success_prob))
        } else {
            nearest
        }),
{
    if scores {
        Some(Repair::unchanged(player, success_prob))
    } else {
        nearest
    }
}

/// The cheapest candidate among the first `n` of a row, given the cost of each
/// that scores: one takes the lead only from a dearer one.
pub open spec fn cheapest_among(row: Seq<Option<Scalar>>, n: int) -> Option<int>
    decreases n,
{
    if n <= 0 {
        None
    } else {
        match (cheapest_among(row, n - 1), row[n - 1]) {
            (None, Some(_)) => Some(n - 1),
            (Some(b), Some(c)) => if c.less(row[b]->0) {
                Some(n - 1)
            } else {
                Some(b)
            },
            (best, None) => best,
        }
    }
}

proof fn lemma_cheapest_scores(row: Seq<Option<Scalar>>, n: int)
    ensures
        cheapest_among(row, n) is Some ==> 0 <= cheapest_among(row, n)->0 < n
            && row[cheapest_among(row, n)->0] is Some,
    decreases n,
{
    if n > 0 {
        lemma_cheapest_scores(row, n - 1);
    }
}

fn cheapest(row: &Vec<Option<Scalar>>) -> (r: Option<(usize, Scalar)>)
    ensures
        match r {
            Some((k, c)) => cheapest_among(row@, row@.len() as int) == Some(k as int)
                && row@[k as int] == Some(c) && k < row@.len(),
            None => cheapest_among(row@, row@.len() as int) is None,
        },
{
    let mut best: Option<(usize, Scalar)> = None;
    for k in 0..row.len()
        invariant
            match best {
                Some((b, c)) => cheapest_among(row@, k as int) == Some(b as int) && row@[b as int]
                    == Some(c) && b < k,
                None => cheapest_among(row@, k as int) is None,
            },
    {
        if let Some(c) = row[k] {
            best = match best {
                None => Some((k, c)),
                Some((b, bc)) => if c.lt(bc) {
                    Some((k, c))
                } else {
                    Some((b, bc))
                },
            };
        }
    }
    best
}

/// The cost of the cheapest candidate of a row.
pub open spec fn row_cost(row: Seq<Option<Scalar>>) -> Option<Scalar> {
    match cheapest_among(row, row.len() as int) {
        Some(k) => row[k],
        None => None,
    }
}

/// Whether row `a` has the cheapest candidate of all; the first such row.
pub open spec fn cheapest_row_at(rows: Seq<Vec<Option<Scalar>>>, a: int) -> bool {
    &&& 0 <= a < rows.len()
    &&& row_cost(rows[a]@) is Some
    &&& forall|b: int|
        0 <= b < rows.len() && row_cost((#[trigger] rows[b])@) is Some ==> row_cost(
            rows[a]@,
        )->0.rank() <= row_cost(rows[b]@)->0.rank() && (b < a ==> row_cost(rows[a]@)->0.rank()
            < row_cost(rows[b]@)->0.rank())
}

/// The smallest change that scores, as row (aim) and place (speed and strike), from
/// the cost of each candidate that scores. None where nothing scores: it was the
/// wrong shot, not just mis-hit.
pub fn smallest_change(rows: &[Vec<Option<Scalar>>]) -> (r: Option<(usize, usize)>)
    ensures
        match r {
            Some((a, k)) => cheapest_row_at(rows@, a as int) && cheapest_among(
                rows@[a as int]@,
                rows@[a as int]@.len() as int,
            ) == Some(k as int),
            None => forall|a: int|
                0 <= a < rows@.len() ==> row_cost((#[trigger] rows@[a])@) is None,
        },
        match r {
            Some((a, k)) => {
                &&& a < rows@.len() && k < rows@[a as int]@.len()
                &&& rows@[a as int]@[k as int] is Some
                &&& forall|b: int, j: int|
                    all_numbers(rows@) && 0 <= b < rows@.len() && 0 <= j < rows@[b]@.len() && (
                    #[trigger] rows@[b]@[j]) is Some ==> rows@[a as int]@[k as int]->0.at_most(
                        rows@[b]@[j]->0,
                    )
            },
            None => forall|b: int, j: int|
                0 <= b < rows@.len() && 0 <= j < rows@[b]@.len() ==> (#[trigger] rows@[b]@[j])
                    is None,
        },
{
    let mut best: Option<(usize, usize, Scalar)> = None;
    for a in 0..rows.len()
        invariant
            match best {
                Some((b, k, c)) => {
                    &&& b < a
                    &&& row_cost(rows@[b as int]@) == Some(c)
                    &&& cheapest_among(rows@[b as int]@, rows@[b as int]@.len() as int) == Some(
                        k as int,
                    )
                    &&& forall|j: int|
                        0 <= j < a && row_cost((#[trigger] rows@[j])@) is Some ==> c.rank()
                            <= row_cost(rows@[j]@)->0.rank() && (j < b ==> c.rank() < row_cost(
                            rows@[j]@,
                        )->0.rank())
                },
                None => forall|j: int| 0 <= j < a ==> row_cost((#[trigger] rows@[j])@) is None,
            },
    {
        proof {
            lemma_cheapest_scores(rows@[a as int]@, rows@[a as int]@.len() as int);
        }
        if let Some((k, c)) = cheapest(&rows[a]) {
            let cheaper: bool = match best {
                Some((_, _, bc)) => c.ranks_before(bc),
                None => true,
            };
            if cheaper {
                best = Some((a, k, c));
            }
        }
    }
    match best {
        Some((a, k, _)) => {
            assert(cheapest_row_at(rows@, a as int));
            proof {
                law_smallest_change_scores(rows@, a as int, k as int);
                assert forall|b: int, j: int|
                    all_numbers(rows@) && 0 <= b < rows@.len() && 0 <= j < rows@[b]@.len() && (
                    #[trigger] rows@[b]@[j]) is Some implies rows@[a as int]@[k as int]->0.at_most(
                    rows@[b]@[j]->0,
                ) by {
                    let first = lemma_first_scoring(rows@[b]@, j);
                    assert(!rows@[b]@[first]->0.nan());
                    assert(!rows@[b]@[j]->0.nan());
                    assert(!rows@[a as int]@[k as int]->0.nan());
                    law_smallest_change_is_least(rows@, a as int, k as int, b, first, j);
                }
            }
            Some((a, k))
        },
        None => {
            proof {
                assert forall|b: int, j: int|
                    0 <= b < rows@.len() && 0 <= j < rows@[b]@.len() implies (
                #[trigger] rows@[b]@[j]) is None by {
                    assert(row_cost(rows@[b]@) is None);
                    if rows@[b]@[j] is Some {
                        let first = lemma_first_scoring(rows@[b]@, j);
                        lemma_row_leader(rows@[b]@, rows@[b]@.len() as int, first, j);
                    }
                }
            }
            None
        },
    }
}

/// Whether every cost is a number.
pub open spec fn all_numbers(rows: Seq<Vec<Option<Scalar>>>) -> bool {
    forall|b: int, j: int|
        0 <= b < rows.len() && 0 <= j < rows[b]@.len() && (#[trigger] rows[b]@[j]) is Some
            ==> !rows[b]@[j]->0.nan()
}

proof fn lemma_first_scoring(row: Seq<Option<Scalar>>, j: int) -> (first: int)
    requires
        0 <= j < row.len(),
        row[j] is Some,
    ensures
        0 <= first <= j,
        row[first] is Some,
        forall|i: int| 0 <= i < first ==> (#[trigger] row[i]) is None,
    decreases j,
{
    if exists|i: int| 0 <= i < j && (#[trigger] row[i]) is Some {
        let i = choose|i: int| 0 <= i < j && (#[trigger] row[i]) is Some;
        lemma_first_scoring(row, i)
    } else {
        j
    }
}

/// In a row whose first scoring candidate has a number for its cost, the leader is among
/// the least.
proof fn lemma_row_leader(row: Seq<Option<Scalar>>, n: int, first: int, j: int)
    requires
        0 <= first <= j < n <= row.len(),
        row[first] is Some,
        forall|i: int| 0 <= i < first ==> (#[trigger] row[i]) is None,
        row[j] is Some,
    ensures
        cheapest_among(row, n) is Some,
        ({
            let k = cheapest_among(row, n)->0;
            &&& first <= k < n
            &&& row[k] is Some
            &&& !row[first]->0.nan() ==> !row[k]->0.nan()
            &&& !row[first]->0.nan() && !row[j]->0.nan() ==> row[k]->0.at_most(row[j]->0) && (j < k
                ==> row[k]->0.less(row[j]->0))
        }),
    decreases n,
{
    lemma_none_before(row, first);
    if first < n - 1 {
        lemma_row_leader(row, n - 1, first, first);
        if j < n - 1 {
            lemma_row_leader(row, n - 1, first, j);
        }
    }
}

proof fn lemma_none_before(row: Seq<Option<Scalar>>, n: int)
    requires
        0 <= n <= row.len(),
        forall|i: int| 0 <= i < n ==> (#[trigger] row[i]) is None,
    ensures
        cheapest_among(row, n) is None,
    decreases n,
{
    if n > 0 {
        lemma_none_before(row, n - 1);
    }
}

/// A repair is a candidate that scores.
pub proof fn law_smallest_change_scores(rows: Seq<Vec<Option<Scalar>>>, a: int, k: int)
    requires
        cheapest_row_at(rows, a),
        cheapest_among(rows[a]@, rows[a]@.len() as int) == Some(k),
    ensures
        0 <= a < rows.len(),
        0 <= k < rows[a]@.len(),
        rows[a]@[k] is Some,
{
    lemma_cheapest_scores(rows[a]@, rows[a]@.len() as int);
}

/// A repair is the smallest change that scores: no candidate that scores, in any row, costs
/// less. Of equal ones the first is taken, in its row and among the rows, but for the two
/// zeros. Costs that are no numbers are left out; a row whose first scoring cost is none
/// has that one for its own.
pub proof fn law_smallest_change_is_least(
    rows: Seq<Vec<Option<Scalar>>>,
    a: int,
    k: int,
    b: int,
    first: int,
    j: int,
)
    requires
        cheapest_row_at(rows, a),
        cheapest_among(rows[a]@, rows[a]@.len() as int) == Some(k),
        !rows[a]@[k]->0.nan(),
        0 <= b < rows.len(),
        0 <= first <= j < rows[b]@.len(),
        rows[b]@[first] is Some && !rows[b]@[first]->0.nan(),
        forall|i: int| 0 <= i < first ==> (#[trigger] rows[b]@[i]) is None,
        rows[b]@[j] is Some && !rows[b]@[j]->0.nan(),
    ensures
        rows[a]@[k]->0.at_most(rows[b]@[j]->0),
        b == a && j < k ==> rows[a]@[k]->0.less(rows[b]@[j]->0),
        b < a ==> rows[a]@[k]->0.less(rows[b]@[j]->0) || rows[a]@[k]->0.key() == 0,
{
    lemma_row_leader(rows[b]@, rows[b]@.len() as int, first, j);
    assert(row_cost(rows[b]@) is Some);
}

/// A shot that already scores is its own repair: the same action, nothing to change, no
/// cost. One that does not is repaired by the nearest action, whatever that is.
pub proof fn law_scoring_shot_needs_no_change(player: CueAction, success_prob: Scalar)
    ensures
        ({
            let r = Repair::no_change(player, success_prob);
            &&& r.action == player
            &&& r.success_prob == success_prob
            &&& r.already_scores
            &&& r.d_aim.units() == 0 && r.d_speed.units() == 0 && r.d_english.units() == 0
                && r.d_follow.units() == 0 && r.cost.units() == 0
        }),
{
    let zero = num(ZERO);
    assert(zero.magnitude() == 0);
    assert(zero.units() == 0);
}

} // verus!
