//! Picking the contact that comes first.

use vstd::prelude::*;

use crate::engine::cushion::Rail;
use crate::scalar::{num, Scalar, ZERO};

verus! {

/// Time margin used to avoid re-detecting a contact the ball is already on: 1e-9.
pub const CONTACT_EPS: u64 = 0x3E11_2E0B_E826_D695;

/// A coefficient below this counts as zero: 1e-12.
pub const TINY: u64 = 0x3D71_9799_812D_EA11;

/// A quadratic `a·x² + b·x + c` with what solving it may need: the root `-c/b`
/// of its linear part, its discriminant, and the two roots
/// `(-b ∓ √disc) / 2a`.
#[derive(Clone, Copy, Debug)]
pub struct Quadratic {
    pub a: Scalar,
    pub b: Scalar,
    pub linear: Scalar,
    pub disc: Scalar,
    pub first: Scalar,
    pub second: Scalar,
}

impl Quadratic {
    /// The numbers that count as its real roots: that of the linear part where
    /// the quadratic term vanishes, else both where the discriminant allows.
    pub open spec fn roots(self) -> Seq<Scalar> {
        if self.a.unsigned().less(num(TINY)) {
            if num(TINY).less(self.b.unsigned()) {
                seq![self.linear]
            } else {
                seq![]
            }
        } else if num(ZERO).at_most(self.disc) {
            seq![self.first, self.second]
        } else {
            seq![]
        }
    }

    /// Smallest root in `(lo, hi]`, if any.
    pub fn smallest_root_in(&self, lo: Scalar, hi: Scalar) -> (r: Option<Scalar>)
        ensures
            match r {
                Some(x) => {
                    &&& self.roots().contains(x)
                    &&& lo.less(x) && x.at_most(hi)
                    &&& forall|k: int|
                        0 <= k < self.roots().len() && lo.less(#[trigger] self.roots()[k])
                            && self.roots()[k].at_most(hi) ==> x.at_most(self.roots()[k])
                },
                None => forall|k: int|
                    0 <= k < self.roots().len() ==> !(lo.less(#[trigger] self.roots()[k])
                        && self.roots()[k].at_most(hi)),
            },
    {
        if self.a.abs().lt(num(TINY)) {
            if self.b.abs().gt(num(TINY)) {
                assert(self.roots()[0] == self.linear);
                if self.linear.gt(lo) && self.linear.le(hi) {
                    return Some(self.linear);
                }
            }
            None
        } else {
            if self.disc.ge(num(ZERO)) {
                assert(self.roots()[0] == self.first);
                assert(self.roots()[1] == self.second);
                let one: bool = self.first.gt(lo) && self.first.le(hi);
                let two: bool = self.second.gt(lo) && self.second.le(hi);
                if one && two {
                    Some(self.first.min(self.second))
                } else if one {
                    Some(self.first)
                } else if two {
                    Some(self.second)
                } else {
                    None
                }
            } else {
                None
            }
        }
    }
}

/// A possible contact with a rail: when the center would reach it, and the speed
/// into the rail at that moment.
#[derive(Clone, Copy, Debug)]
pub struct RailHit {
    pub dt: Option<Scalar>,
    pub outward: Scalar,
}

/// Whether a rail is reached at all while moving into it.
pub open spec fn struck(hit: RailHit) -> bool {
    hit.dt is Some && num(ZERO).less(hit.outward)
}

/// Whether hit `k` is the earliest of those that are struck; the first rail wins
/// a tie.
pub open spec fn earliest_hit(hits: Seq<RailHit>, k: int) -> bool {
    &&& 0 <= k < hits.len()
    &&& struck(hits[k])
    &&& forall|j: int|
        0 <= j < hits.len() && struck(#[trigger] hits[j]) ==> hits[k].dt->0.at_most(hits[j].dt->0)
            && (j < k ==> hits[k].dt->0.less(hits[j].dt->0))
}

/// Earliest cushion contact, from the possible contacts with the four rails in
/// their order. Only counts rails the ball is actually moving into.
pub fn cushion_contact(hits: &[RailHit; 4]) -> (r: Option<(Scalar, Rail)>)
    requires
        forall|k: int| 0 <= k < 4 ==> ((#[trigger] hits@[k]).dt is Some ==> !hits@[k].dt->0.nan()),
    ensures
        match r {
            Some((dt, rail)) => exists|k: int|
                earliest_hit(hits@, k) && hits@[k].dt == Some(dt) && rail == Rail::nth(k),
            None => forall|k: int| 0 <= k < 4 ==> !struck(#[trigger] hits@[k]),
        },
{
    let rails: [Rail; 4] = Rail::all();
    let mut best: Option<(Scalar, Rail)> = None;
    for k in 0..4usize
        invariant
            forall|j: int| 0 <= j < 4 ==> #[trigger] rails@[j] == Rail::nth(j),
            forall|j: int|
                0 <= j < 4 ==> ((#[trigger] hits@[j]).dt is Some ==> !hits@[j].dt->0.nan()),
            match best {
                Some((dt, rail)) => exists|j: int|
                    earliest_hit(hits@.take(k as int), j) && hits@[j].dt == Some(dt) && rail
                        == Rail::nth(j),
                None => forall|j: int| 0 <= j < k ==> !struck(#[trigger] hits@[j]),
            },
    {
        let ghost before = hits@.take(k as int);
        let ghost after = hits@.take(k + 1);
        assert(forall|j: int| 0 <= j < k ==> #[trigger] after[j] == before[j]);
        assert(after[k as int] == hits@[k as int]);
        if let Some(dt) = hits[k].dt {
            let sooner: bool = match best {
                Some((bd, _)) => dt.lt(bd),
                None => true,
            };
            if hits[k].outward.gt(num(ZERO)) && sooner {
                assert(earliest_hit(after, k as int));
                best = Some((dt, rails[k]));
            }
        }
        proof {
            if let Some((dt, rail)) = best {
                if !earliest_hit(after, k as int) {
                    let j = choose|j: int|
                        earliest_hit(before, j) && hits@[j].dt == Some(dt) && rail == Rail::nth(j);
                    assert(before[j] == hits@[j] && after[j] == hits@[j]);
                    assert(earliest_hit(after, j));
                }
            }
        }
    }
    assert(hits@.take(4) =~= hits@);
    best
}

/// Whether two balls are in contact, and approaching, at `root`: past the margin,
/// within the horizon, and with the separation shrinking.
pub open spec fn approaches(root: Scalar, closing: Scalar, horizon: Scalar) -> bool {
    !root.at_most(num(CONTACT_EPS)) && !horizon.less(root) && closing.less(num(ZERO))
}

/// Earliest contact of two balls within `horizon`, from the times (in ascending
/// order) at which their separation is two radii and the product of separation
/// and separation rate at each of them.
pub fn first_approach(roots: &[Scalar], closing: &[Scalar], horizon: Scalar) -> (r: Option<Scalar>)
    requires
        roots@.len() == closing@.len(),
    ensures
        match r {
            Some(t) => exists|k: int|
                0 <= k < roots@.len() && t == #[trigger] roots@[k] && approaches(
                    roots@[k],
                    closing@[k],
                    horizon,
                ) && forall|j: int|
                    0 <= j < k ==> !approaches(#[trigger] roots@[j], closing@[j], horizon),
            None => forall|j: int|
                0 <= j < roots@.len() ==> !approaches(#[trigger] roots@[j], closing@[j], horizon),
        },
{
    for k in 0..roots.len()
        invariant
            roots@.len() == closing@.len(),
            forall|j: int| 0 <= j < k ==> !approaches(#[trigger] roots@[j], closing@[j], horizon),
    {
        let root: Scalar = roots[k];
        if !root.le(num(CONTACT_EPS)) && !root.gt(horizon) && closing[k].lt(num(ZERO)) {
            return Some(root);
        }
    }
    None
}

/// The degree of `c4·x⁴ + c3·x³ + c2·x² + c1·x + c0`, by the leading coefficient
/// that does not count as zero; 0 when none of the four does.
pub fn leading_degree(c4: Scalar, c3: Scalar, c2: Scalar, c1: Scalar) -> (d: u8)
    ensures
        d <= 4,
        d == 4 <==> num(TINY).less(c4.unsigned()),
        d >= 3 <==> num(TINY).less(c4.unsigned()) || num(TINY).less(c3.unsigned()),
        d >= 2 <==> num(TINY).less(c4.unsigned()) || num(TINY).less(c3.unsigned()) || num(
            TINY,
        ).less(c2.unsigned()),
        d >= 1 <==> num(TINY).less(c4.unsigned()) || num(TINY).less(c3.unsigned()) || num(
            TINY,
        ).less(c2.unsigned()) || num(TINY).less(c1.unsigned()),
{
    if c4.abs().gt(num(TINY)) {
        4
    } else if c3.abs().gt(num(TINY)) {
        3
    } else if c2.abs().gt(num(TINY)) {
        2
    } else if c1.abs().gt(num(TINY)) {
        1
    } else {
        0
    }
}

/// The roots of a quadratic: both where its square term counts and the discriminant is not
/// negative, that of its linear part where only that counts, and else none.
pub proof fn law_roots_by_degree(q: Quadratic)
    ensures
        !q.a.unsigned().less(num(TINY)) && num(ZERO).at_most(q.disc) ==> q.roots().len() == 2
            && q.roots()[0] == q.first && q.roots()[1] == q.second,
        !q.a.unsigned().less(num(TINY)) && !num(ZERO).at_most(q.disc) ==> q.roots().len() == 0,
        q.a.unsigned().less(num(TINY)) && num(TINY).less(q.b.unsigned()) ==> q.roots().len() == 1
            && q.roots()[0] == q.linear,
        q.a.unsigned().less(num(TINY)) && !num(TINY).less(q.b.unsigned()) ==> q.roots().len() == 0,
{
}

/// The cushion met is one the ball moves into, and no other such cushion is reached before
/// it, nor at the same moment if it comes first in the order of the rails.
pub proof fn law_cushion_is_the_earliest(hits: Seq<RailHit>, k: int, j: int)
    requires
        earliest_hit(hits, k),
        0 <= j < hits.len(),
    ensures
        0 <= k < hits.len(),
        hits[k].dt is Some && num(ZERO).less(hits[k].outward),
        hits[j].dt is Some && num(ZERO).less(hits[j].outward) ==> hits[k].dt->0.at_most(
            hits[j].dt->0,
        ) && (j < k ==> hits[k].dt->0.less(hits[j].dt->0)),
{
    assert(struck(hits[j]) || !struck(hits[j]));
}

/// Two balls meet only while they approach, past the margin and within the horizon.
pub proof fn law_meeting_is_an_approach(root: Scalar, closing: Scalar, horizon: Scalar)
    ensures
        approaches(root, closing, horizon) ==> closing.less(num(ZERO)) && !root.at_most(
            num(CONTACT_EPS),
        ) && !horizon.less(root),
        num(CONTACT_EPS).less(root) && root.at_most(horizon) && closing.less(num(ZERO))
            ==> approaches(root, closing, horizon),
{
}

} // verus!
