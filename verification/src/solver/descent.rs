//! Coordinate descent with shrinking steps.
//!
//! A round probes every coordinate up and then down by its step, keeping each
//! change that lowers the error. A round without improvement halves the steps.

use vstd::prelude::*;

use crate::scalar::Scalar;

verus! {

/// A probe: which coordinate is moved, and in which direction.
#[derive(Clone, Copy, Debug, PartialEq, Eq, Structural)]
pub struct Probe {
    pub coord: usize,
    pub up: bool,
}

/// A descent in progress.
#[derive(Debug)]
pub struct Descent {
    pub point: Vec<Scalar>,
    pub err: Scalar,
    pub steps: Vec<Scalar>,
    /// Rounds that may still begin or go on.
    pub rounds: usize,
    /// The probe that comes next; past the last coordinate the round is over.
    pub next: Probe,
    /// Whether this round has improved on the error.
    pub improved: bool,
}

/// What a descent holds.
pub struct Stage {
    pub point: Seq<Scalar>,
    pub err: Scalar,
    pub steps: Seq<Scalar>,
    pub rounds: int,
    pub next: Probe,
    pub improved: bool,
}

/// Something that a descent does.
pub enum Move {
    /// Pass over the next probe.
    Pass,
    /// Judge the next probe, which moves its coordinate to `value` and gives `err`.
    Judge { value: Scalar, err: Scalar },
    /// End the round.
    End { halves: Seq<Scalar>, floor: Option<Scalar> },
}

impl View for Descent {
    type V = Stage;

    open spec fn view(&self) -> Stage {
        Stage {
            point: self.point@,
            err: self.err,
            steps: self.steps@,
            rounds: self.rounds as int,
            next: self.next,
            improved: self.improved,
        }
    }
}

impl Stage {
    pub open spec fn wf(self) -> bool {
        &&& self.steps.len() == self.point.len()
        &&& self.next.coord <= self.point.len()
        &&& self.next.coord == self.point.len() ==> self.next.up
    }

    /// Whether every coordinate has been probed in this round.
    pub open spec fn over(self) -> bool {
        self.next.coord == self.point.len()
    }

    /// How much of the descent is left: rounds, then probes.
    pub open spec fn left(self) -> (int, int) {
        (
            self.rounds,
            2 * (self.point.len() - self.next.coord) + if self.next.up {
                0int
            } else {
                -1int
            },
        )
    }

    /// The next probe goes down after up, then on to the next coordinate.
    pub open spec fn passed(self) -> Stage {
        Stage {
            next: if self.next.up {
                Probe { coord: self.next.coord, up: false }
            } else {
                Probe { coord: (self.next.coord + 1) as usize, up: true }
            },
            ..self
        }
    }

    /// The point that the next probe tries.
    pub open spec fn tried(self, value: Scalar) -> Seq<Scalar> {
        self.point.update(self.next.coord as int, value)
    }

    /// A probe is kept if and only if its error is lower.
    pub open spec fn judged(self, value: Scalar, err: Scalar) -> Stage {
        if err.less(self.err) {
            Stage { point: self.tried(value), err, improved: true, ..self.passed() }
        } else {
            self.passed()
        }
    }

    /// A round without improvement changes the steps; the descent ends early when all
    /// of them are below the floor, if there is one.
    pub open spec fn ended(self, halves: Seq<Scalar>, floor: Option<Scalar>) -> Stage {
        Stage {
            steps: if self.improved {
                self.steps
            } else {
                halves
            },
            rounds: if !self.improved && floor is Some && forall|k: int|
                0 <= k < halves.len() ==> (#[trigger] halves[k]).less(floor->0) {
                0
            } else {
                self.rounds - 1
            },
            next: Probe { coord: 0, up: true },
            improved: false,
            ..self
        }
    }

    /// Whether a move can be made.
    pub open spec fn may(self, m: Move) -> bool {
        match m {
            Move::Pass => !self.over(),
            Move::Judge { .. } => !self.over(),
            Move::End { halves, .. } => self.over() && self.rounds > 0 && halves.len()
                == self.steps.len(),
        }
    }

    pub open spec fn after(self, m: Move) -> Stage {
        match m {
            Move::Pass => self.passed(),
            Move::Judge { value, err } => self.judged(value, err),
            Move::End { halves, floor } => self.ended(halves, floor),
        }
    }

    /// The descent after a run of moves.
    pub open spec fn run(self, moves: Seq<Move>) -> Stage
        decreases moves.len(),
    {
        if moves.len() == 0 {
            self
        } else {
            self.run(moves.drop_last()).after(moves.last())
        }
    }

    /// Whether every move of a run can be made when its turn comes.
    pub open spec fn runs(self, moves: Seq<Move>) -> bool {
        forall|k: int| 0 <= k < moves.len() ==> self.run(moves.take(k)).may(#[trigger] moves[k])
    }

    /// Whether the errors of a run are those of the points: `e` gives the error of a
    /// point.
    pub open spec fn measured(self, moves: Seq<Move>, e: spec_fn(Seq<Scalar>) -> Scalar) -> bool {
        &&& self.err == e(self.point)
        &&& forall|k: int|
            0 <= k < moves.len() ==> match #[trigger] moves[k] {
                Move::Judge { value, err } => err == e(self.run(moves.take(k)).tried(value)),
                _ => true,
            }
    }
}

impl Descent {
    pub open spec fn wf(self) -> bool {
        self@.wf()
    }

    /// Begin a descent from a point with its error.
    pub fn new(point: Vec<Scalar>, err: Scalar, steps: Vec<Scalar>, rounds: usize) -> (d: Descent)
        requires
            steps@.len() == point@.len(),
        ensures
            d.wf(),
            d@ == (Stage {
                point: point@,
                err,
                steps: steps@,
                rounds: rounds as int,
                next: Probe { coord: 0, up: true },
                improved: false,
            }),
    {
        Descent { point, err, steps, rounds, next: Probe { coord: 0, up: true }, improved: false }
    }

    /// The probe to make, or none where the round is over.
    pub fn probe(&self) -> (r: Option<Probe>)
        requires
            self.wf(),
        ensures
            r == (if self@.over() {
                None
            } else {
                Some(self.next)
            }),
    {
        if self.next.coord == self.point.len() {
            None
        } else {
            Some(self.next)
        }
    }

    /// Pass over a probe that is not admissible.
    pub fn pass(&mut self)
        requires
            old(self).wf(),
            !old(self)@.over(),
        ensures
            final(self).wf(),
            final(self)@ == old(self)@.passed(),
            final(self)@.left().0 == old(self)@.left().0,
            0 <= final(self)@.left().1 < old(self)@.left().1,
    {
        let n: usize = self.point.len();
        if self.next.up {
            self.next = Probe { coord: self.next.coord, up: false };
        } else {
            self.next = Probe { coord: self.next.coord + 1, up: true };
        }
    }

    /// Judge a probe that moves its coordinate to `value` and gives `err`: it is
    /// kept if and only if the error is lower.
    pub fn judge(&mut self, value: Scalar, err: Scalar)
        requires
            old(self).wf(),
            !old(self)@.over(),
        ensures
            final(self).wf(),
            final(self)@ == old(self)@.judged(value, err),
            final(self)@.left().0 == old(self)@.left().0,
            0 <= final(self)@.left().1 < old(self)@.left().1,
    {
        if err.lt(self.err) {
            let k: usize = self.next.coord;
            self.point[k] = value;
            self.err = err;
            self.improved = true;
        }
        self.pass();
    }

    /// End a round. Without improvement the steps become `halves`, and the descent
    /// ends early when all of them are below `floor`, if there is one.
    pub fn end_round(&mut self, halves: Vec<Scalar>, floor: Option<Scalar>)
        requires
            old(self).wf(),
            old(self)@.over(),
            old(self).rounds > 0,
            halves@.len() == old(self).steps@.len(),
        ensures
            final(self).wf(),
            final(self)@ == old(self)@.ended(halves@, floor),
            0 <= final(self)@.left().0 < old(self)@.left().0,
    {
        self.rounds -= 1;
        if !self.improved {
            if let Some(f) = floor {
                if all_below(halves.as_slice(), f) {
                    self.rounds = 0;
                }
            }
            self.steps = halves;
        }
        self.improved = false;
        self.next = Probe { coord: 0, up: true };
    }
}

fn all_below(xs: &[Scalar], limit: Scalar) -> (r: bool)
    ensures
        r == forall|k: int| 0 <= k < xs@.len() ==> (#[trigger] xs@[k]).less(limit),
{
    for k in 0..xs.len()
        invariant
            forall|j: int| 0 <= j < k ==> (#[trigger] xs@[j]).less(limit),
    {
        if !xs[k].lt(limit) {
            return false;
        }
    }
    true
}

proof fn lemma_front_runs(s: Stage, moves: Seq<Move>)
    requires
        moves.len() > 0,
    ensures
        s.runs(moves) ==> s.runs(moves.drop_last()) && s.run(moves.drop_last()).may(moves.last()),
        forall|e: spec_fn(Seq<Scalar>) -> Scalar| #[trigger]
            s.measured(moves, e) ==> s.measured(moves.drop_last(), e),
{
    let front = moves.drop_last();
    assert forall|k: int| 0 <= k < front.len() implies #[trigger] front[k] == moves[k]
        && front.take(k) == moves.take(k) by {
        assert(front.take(k) =~= moves.take(k));
    }
    assert(moves.take(front.len() as int) =~= front);
    if s.runs(moves) {
        assert(s.run(moves.take(front.len() as int)).may(moves[front.len() as int]));
        assert forall|k: int| 0 <= k < front.len() implies s.run(front.take(k)).may(
            #[trigger] front[k],
        ) by {
            assert(s.run(moves.take(k)).may(moves[k]));
        }
    }
    assert forall|e: spec_fn(Seq<Scalar>) -> Scalar| #[trigger]
        s.measured(moves, e) implies s.measured(front, e) by {
        assert forall|k: int| 0 <= k < front.len() implies match #[trigger] front[k] {
            Move::Judge { value, err } => err == e(s.run(front.take(k)).tried(value)),
            _ => true,
        } by {
            assert(front[k] == moves[k]);
        }
    }
}

/// A descent stays sound, and its point keeps its coordinates.
pub proof fn law_run_keeps_shape(s: Stage, moves: Seq<Move>)
    requires
        s.wf(),
        s.runs(moves),
    ensures
        s.run(moves).wf(),
        s.run(moves).point.len() == s.point.len(),
    decreases moves.len(),
{
    if moves.len() > 0 {
        lemma_front_runs(s, moves);
        law_run_keeps_shape(s, moves.drop_last());
    }
}

/// However long a descent runs, its error is never above the one it started with, and it
/// is the error of the point that is kept.
pub proof fn law_descent_never_worsens(
    s: Stage,
    moves: Seq<Move>,
    e: spec_fn(Seq<Scalar>) -> Scalar,
)
    requires
        s.measured(moves, e),
        !s.err.nan(),
    ensures
        s.run(moves).err.at_most(s.err),
        s.run(moves).err == e(s.run(moves).point),
    decreases moves.len(),
{
    if moves.len() > 0 {
        lemma_front_runs(s, moves);
        law_descent_never_worsens(s, moves.drop_last(), e);
        let k = moves.len() - 1;
        assert(moves.take(k) =~= moves.drop_last());
        assert(moves[k] == moves.last());
    }
}

/// Where a shot's action may be searched: the aim and the speed within their
/// observed windows, the strike within the miscue limit.
#[derive(Clone, Copy, Debug)]
pub struct Windows {
    pub aim: (Scalar, Scalar),
    pub speed: (Scalar, Scalar),
    pub miscue_limit: Scalar,
}

impl Windows {
    /// Whether a probe of coordinate `coord` (0 the aim, 1 the speed) to `value`,
    /// with a tip offset of length `offset`, stays inside.
    pub open spec fn allow(self, coord: int, value: Scalar, offset: Scalar) -> bool {
        &&& coord == 0 ==> !value.less(self.aim.0) && !self.aim.1.less(value)
        &&& coord == 1 ==> !value.less(self.speed.0) && !self.speed.1.less(value)
        &&& !self.miscue_limit.less(offset)
    }

    pub fn admits(&self, coord: usize, value: Scalar, offset: Scalar) -> (r: bool)
        ensures
            r == self.allow(coord as int, value, offset),
    {
        if coord == 0 && (value.lt(self.aim.0) || value.gt(self.aim.1)) {
            return false;
        }
        if coord == 1 && (value.lt(self.speed.0) || value.gt(self.speed.1)) {
            return false;
        }
        !offset.gt(self.miscue_limit)
    }
}

/// Whether the windows admit every probe that a run judges.
pub open spec fn admitted(
    w: Windows,
    s: Stage,
    moves: Seq<Move>,
    offset: spec_fn(Seq<Scalar>) -> Scalar,
) -> bool {
    forall|k: int|
        0 <= k < moves.len() ==> match #[trigger] moves[k] {
            Move::Judge { value, .. } => {
                let here = s.run(moves.take(k));
                w.allow(here.next.coord as int, value, offset(here.tried(value)))
            },
            _ => true,
        }
}

/// A search that judges only probes its windows admit stays where it started or inside
/// them: its aim is the start's or within the aim window, its speed the start's or within
/// the speed window, and unless the whole point is the start, its strike, whose tip offset
/// `offset` gives, is within the miscue limit.
pub proof fn law_search_stays_inside(
    w: Windows,
    s: Stage,
    moves: Seq<Move>,
    offset: spec_fn(Seq<Scalar>) -> Scalar,
)
    requires
        s.wf(),
        s.point.len() >= 2,
        s.runs(moves),
        admitted(w, s, moves, offset),
    ensures
        ({
            let x = s.run(moves).point;
            &&& x[0] == s.point[0] || (!x[0].less(w.aim.0) && !w.aim.1.less(x[0]))
            &&& x[1] == s.point[1] || (!x[1].less(w.speed.0) && !w.speed.1.less(x[1]))
            &&& x == s.point || !w.miscue_limit.less(offset(x))
        }),
    decreases moves.len(),
{
    if moves.len() > 0 {
        let front = moves.drop_last();
        let k = front.len() as int;
        lemma_front_runs(s, moves);
        assert(moves.take(k) =~= front);
        assert forall|j: int| 0 <= j < front.len() implies match #[trigger] front[j] {
            Move::Judge { value, .. } => {
                let here = s.run(front.take(j));
                w.allow(here.next.coord as int, value, offset(here.tried(value)))
            },
            _ => true,
        } by {
            assert(front[j] == moves[j]);
            assert(front.take(j) =~= moves.take(j));
        }
        law_search_stays_inside(w, s, front, offset);
        law_run_keeps_shape(s, front);
        assert(moves[k] == moves.last());
    }
}

/// A probe whose error is lower than that of the point is kept, with its error, and any other
/// leaves the point and its error as they are; only the probed coordinate ever changes.
pub proof fn law_better_probe_is_kept(s: Stage, value: Scalar, err: Scalar, c: int)
    requires
        s.wf(),
        !s.over(),
        0 <= c < s.point.len(),
    ensures
        ({
            let after = s.after(Move::Judge { value, err });
            &&& err.less(s.err) ==> after.err == err && after.improved
                && after.point[s.next.coord as int] == value
            &&& !err.less(s.err) ==> after.err == s.err && after.point == s.point && after.improved
                == s.improved
            &&& c != s.next.coord ==> after.point[c] == s.point[c]
            &&& after.point.len() == s.point.len()
            &&& after.steps == s.steps
            &&& after.rounds == s.rounds
        }),
        s.after(Move::Pass).point == s.point,
        s.after(Move::Pass).err == s.err,
        s.after(Move::Pass).improved == s.improved,
        s.after(Move::Pass).steps == s.steps,
        s.after(Move::Pass).rounds == s.rounds,
{
}

/// A round probes every coordinate, up and then down, one after the other: from its beginning
/// on, whatever is judged or passed over, probe `k` moves coordinate `k / 2`, up where `k` is
/// even, and after the last one the round is over.
pub proof fn law_round_probes_every_coordinate(s: Stage, moves: Seq<Move>)
    requires
        s.wf(),
        s.next == (Probe { coord: 0, up: true }),
        s.point.len() < usize::MAX,
        moves.len() <= 2 * s.point.len(),
        forall|k: int| 0 <= k < moves.len() ==> !((#[trigger] moves[k]) is End),
    ensures
        s.run(moves).next.coord == moves.len() / 2,
        s.run(moves).next.up <==> moves.len() % 2 == 0,
        s.run(moves).point.len() == s.point.len(),
        s.run(moves).over() <==> moves.len() == 2 * s.point.len(),
    decreases moves.len(),
{
    if moves.len() > 0 {
        let front = moves.drop_last();
        assert forall|k: int| 0 <= k < front.len() implies !((#[trigger] front[k]) is End) by {
            assert(front[k] == moves[k]);
        }
        law_round_probes_every_coordinate(s, front);
        assert(!(moves[moves.len() - 1] is End));
    }
}

/// A round that improved keeps its steps; one that did not goes on with the halved ones, and
/// is the last if those are all below the floor. Either way one round is used up, the next
/// begins with the first coordinate, and the point stays.
pub proof fn law_round_without_gain_halves_steps(
    s: Stage,
    halves: Seq<Scalar>,
    floor: Option<Scalar>,
)
    ensures
        ({
            let after = s.after(Move::End { halves, floor });
            &&& s.improved ==> after.steps == s.steps && after.rounds == s.rounds - 1
            &&& !s.improved ==> after.steps == halves
            &&& !s.improved && floor is None ==> after.rounds == s.rounds - 1
            &&& !s.improved && floor is Some && (forall|k: int|
                0 <= k < halves.len() ==> (#[trigger] halves[k]).less(floor->0)) ==> after.rounds
                == 0
            &&& !s.improved && floor is Some && (exists|k: int|
                0 <= k < halves.len() && !(#[trigger] halves[k]).less(floor->0)) ==> after.rounds
                == s.rounds - 1
            &&& after.next == (Probe { coord: 0, up: true })
            &&& !after.improved
            &&& after.point == s.point
            &&& after.err == s.err
        }),
{
}

/// The windows bound the aim by its own window, the speed by its own, and every probe by the
/// miscue limit; nothing else is kept out.
pub proof fn law_windows_bound_their_own(w: Windows, coord: int, value: Scalar, offset: Scalar)
    ensures
        coord == 0 && (value.less(w.aim.0) || w.aim.1.less(value)) ==> !w.allow(
            coord,
            value,
            offset,
        ),
        coord == 1 && (value.less(w.speed.0) || w.speed.1.less(value)) ==> !w.allow(
            coord,
            value,
            offset,
        ),
        w.miscue_limit.less(offset) ==> !w.allow(coord, value, offset),
        coord > 1 && offset.at_most(w.miscue_limit) ==> w.allow(coord, value, offset),
        coord == 0 && w.aim.0.at_most(value) && value.at_most(w.aim.1) && offset.at_most(
            w.miscue_limit,
        ) ==> w.allow(coord, value, offset),
        coord == 1 && w.speed.0.at_most(value) && value.at_most(w.speed.1) && offset.at_most(
            w.miscue_limit,
        ) ==> w.allow(coord, value, offset),
{
}

/// What a descent is said to hold is what it holds.
pub proof fn law_descent_says_what_it_holds(d: Descent)
    ensures
        d@.point == d.point@,
        d@.err == d.err,
        d@.steps == d.steps@,
        d@.rounds == d.rounds,
        d@.next == d.next,
        d@.improved == d.improved,
{
}

} // verus!
