//! What an object ball's track testifies about it being struck.
//!
//! A first move needs both sustained motion (two consecutive samples clear of the
//! rest, going further) and a cause: some other ball within reach of the rest
//! around that moment, or one that was out of sight then. And the motion must be
//! the ball's own: samples that ride another ball's path are a swapped identity.

use vstd::prelude::*;

use crate::order::lemma_places_step;
use crate::scalar::{num, Scalar};

verus! {

/// How near (m) another ball must come to explain a move: 0.16.
pub const REACH: u64 = 0x3FC4_7AE1_47AE_147B;

/// Two balls' centers can never be this close (m): 0.045.
pub const OVERLAP: u64 = 0x3FA7_0A3D_70A3_D70A;

/// A sample this far (m) from the rest may begin a move: 0.02.
pub const OFF_REST: u64 = 0x3F94_7AE1_47AE_147B;

/// A sample this far (m) from the rest is away from it: 0.025.
pub const AWAY: u64 = 0x3F99_9999_9999_999A;

/// A move is judged on at most this many samples.
pub const JUDGED: usize = 6;

/// What an object ball's track testifies about it being struck.
#[derive(Clone, Copy, Debug, PartialEq, Eq, Structural)]
pub enum FirstMove {
    /// Verifiably never left its rest.
    Still,
    /// Verifiably struck, first moving at this time (s).
    At(Scalar),
    /// The track claims motion but the claim is untrustworthy. Constrains
    /// nothing, in either direction.
    Unreliable,
}

/// A sample of the ball's own track.
#[derive(Clone, Copy, Debug)]
pub struct OwnSample {
    pub t: Scalar,
    /// Distance from the ball's rest, its first position.
    pub from_rest: Scalar,
    /// The window in which a contact could have caused a move seen here: from
    /// 0.35 s before the previous sample to 0.12 s after this one.
    pub window_lo: Scalar,
    pub window_hi: Scalar,
    /// 1.2 s after this sample: a move that starts here is judged until then.
    pub judged_until: Scalar,
}

/// A sample of another ball's track.
#[derive(Clone, Copy, Debug)]
pub struct Sighting {
    pub t: Scalar,
    /// Distance from the rest of the ball in question.
    pub from_rest: Scalar,
}

/// Everything the tracks say about one ball.
#[derive(Debug)]
pub struct Testimony {
    /// The ball in question.
    pub ball: usize,
    pub own: Vec<OwnSample>,
    /// Per ball, its samples; those of the ball in question are not looked at.
    pub others: Vec<Vec<Sighting>>,
    /// `overlap[j][i]`: distance from own sample `i` to where ball `j` is at that
    /// moment.
    pub overlap: Vec<Vec<Scalar>>,
}

/// Whether place `(j, s)` comes before place `(j2, s2)` in reading order.
pub open spec fn reads_before(j: int, s: int, j2: int, s2: int) -> bool {
    j < j2 || (j == j2 && s < s2)
}

impl Testimony {
    /// The tables fit together.
    pub open spec fn fits(self) -> bool {
        &&& self.overlap@.len() == self.others@.len()
        &&& forall|j: int|
            0 <= j < self.overlap@.len() ==> (#[trigger] self.overlap@[j])@.len()
                == self.own@.len()
    }

    /// The tables fit together, and every contact that is dated can be.
    pub open spec fn wf(self) -> bool {
        self.fits() && self.datable()
    }

    /// Whether a contact that caused a move seen at own sample `i` can be dated: where a
    /// striker was seen, the sample before is not later.
    pub open spec fn orders(self, i: int) -> bool {
        (exists|j: int, s: int|
            self.closest(
                self.own@[i].window_lo,
                self.own@[i].window_hi,
                self.others@.len() as int,
                0,
                j,
                s,
            )) ==> self.own@[i - 1].t.at_most(self.own@[i].t)
    }

    /// Whether every motion up to the first one that is explained and credible can be
    /// dated.
    pub open spec fn datable(self) -> bool {
        forall|i: int| #[trigger]
            self.departs(i) && (forall|k: int|
                k < i ==> !(#[trigger] self.claims(k) && self.credible(k))) ==> self.orders(i)
    }

    /// Whether sample `s` of another ball `j` exists and lies in the window.
    pub open spec fn seen(self, lo: Scalar, hi: Scalar, j: int, s: int) -> bool {
        &&& 0 <= j < self.others@.len()
        &&& j != self.ball
        &&& 0 <= s < self.others@[j]@.len()
        &&& lo.at_most(self.others@[j]@[s].t)
        &&& self.others@[j]@[s].t.at_most(hi)
    }

    /// Whether ball `j` is seen within reach of the rest at sample `s`.
    pub open spec fn reaches(self, lo: Scalar, hi: Scalar, j: int, s: int) -> bool {
        self.seen(lo, hi, j, s) && self.others@[j]@[s].from_rest.less(num(REACH))
    }

    /// Among the samples read before `(ej, es)`, whether `(j, s)` is the closest
    /// one within reach, and the first of equally close ones.
    pub open spec fn closest(
        self,
        lo: Scalar,
        hi: Scalar,
        ej: int,
        es: int,
        j: int,
        s: int,
    ) -> bool {
        &&& self.reaches(lo, hi, j, s)
        &&& reads_before(j, s, ej, es)
        &&& forall|j2: int, s2: int| #[trigger]
            self.reaches(lo, hi, j2, s2) && reads_before(j2, s2, ej, es) ==> {
                &&& self.others@[j]@[s].from_rest.at_most(self.others@[j2]@[s2].from_rest)
                &&& reads_before(j2, s2, j, s) ==> self.others@[j]@[s].from_rest.less(
                    self.others@[j2]@[s2].from_rest,
                )
            }
    }

    /// Whether ball `j` is out of sight in the window: it could have been at the
    /// contact.
    pub open spec fn silent(self, lo: Scalar, hi: Scalar, j: int) -> bool {
        &&& 0 <= j < self.others@.len()
        &&& j != self.ball
        &&& forall|s: int| !self.seen(lo, hi, j, s)
    }

    /// The best estimate of the contact that caused a move seen at own sample
    /// `i`: the striker's closest approach, moved into the time since the sample
    /// before; the time of the sample itself when only an unseen ball can have
    /// done it; nothing when every other ball was seen elsewhere.
    pub open spec fn explained(self, i: int) -> Option<Scalar> {
        let lo = self.own@[i].window_lo;
        let hi = self.own@[i].window_hi;
        let n = self.others@.len() as int;
        if exists|j: int, s: int| self.closest(lo, hi, n, 0, j, s) {
            let (j, s) = choose|j: int, s: int| self.closest(lo, hi, n, 0, j, s);
            Some(self.others@[j]@[s].t.clamped(self.own@[i - 1].t, self.own@[i].t))
        } else if exists|j: int| #[trigger] self.silent(lo, hi, j) {
            Some(self.own@[i].t)
        } else {
            None
        }
    }

    proof fn lemma_closest_unique(
        self,
        lo: Scalar,
        hi: Scalar,
        ej: int,
        es: int,
        j: int,
        s: int,
        j2: int,
        s2: int,
    )
        requires
            self.closest(lo, hi, ej, es, j, s),
            self.closest(lo, hi, ej, es, j2, s2),
        ensures
            j == j2,
            s == s2,
    {
        assert(self.reaches(lo, hi, j, s) && self.reaches(lo, hi, j2, s2));
    }

    /// Look for what caused a move seen at own sample `i`: the closest approach of a
    /// striker, and whether some ball was out of sight.
    fn look(&self, i: usize) -> (r: (Option<(usize, usize)>, bool))
        requires
            self.fits(),
            1 <= i < self.own@.len(),
        ensures
            ({
                let lo = self.own@[i as int].window_lo;
                let hi = self.own@[i as int].window_hi;
                let n = self.others@.len() as int;
                &&& match r.0 {
                    Some((j, s)) => self.closest(lo, hi, n, 0, j as int, s as int),
                    None => forall|j: int, s: int| !#[trigger] self.closest(lo, hi, n, 0, j, s),
                }
                &&& r.1 <==> exists|j: int| #[trigger] self.silent(lo, hi, j)
            }),
    {
        let lo: Scalar = self.own[i].window_lo;
        let hi: Scalar = self.own[i].window_hi;
        let n: usize = self.others.len();
        let mut best: Option<(usize, usize)> = None;
        let mut silent_witness: bool = false;
        for j in 0..n
            invariant
                self.fits(),
                n == self.others@.len(),
                silent_witness <==> exists|k: int| #[trigger] self.silent(lo, hi, k) && k < j,
                match best {
                    Some((bj, bs)) => self.closest(lo, hi, j as int, 0, bj as int, bs as int),
                    None => forall|j2: int, s2: int|
                        reads_before(j2, s2, j as int, 0) ==> !#[trigger] self.reaches(
                            lo,
                            hi,
                            j2,
                            s2,
                        ),
                },
        {
            let len: usize = self.others[j].len();
            if j != self.ball {
                let mut seen: bool = false;
                for s in 0..len
                    invariant
                        self.fits(),
                        n == self.others@.len(),
                        j < n,
                        j != self.ball,
                        len == self.others@[j as int]@.len(),
                        seen <==> exists|k: int| #[trigger] self.seen(lo, hi, j as int, k) && k < s,
                        match best {
                            Some((bj, bs)) => self.closest(
                                lo,
                                hi,
                                j as int,
                                s as int,
                                bj as int,
                                bs as int,
                            ),
                            None => forall|j2: int, s2: int|
                                reads_before(j2, s2, j as int, s as int) ==> !#[trigger]
                                    self.reaches(lo, hi, j2, s2),
                        },
                {
                    let x: Sighting = self.others[j][s];
                    let ghost before = best;
                    if x.t.ge(lo) && x.t.le(hi) {
                        assert(self.seen(lo, hi, j as int, s as int));
                        seen = true;
                        let closer: bool = match best {
                            Some((bj, bs)) => x.from_rest.lt(self.others[bj][bs].from_rest),
                            None => true,
                        };
                        if x.from_rest.lt(num(REACH)) && closer {
                            best = Some((j, s));
                            assert(self.reaches(lo, hi, j as int, s as int));
                            assert(self.closest(lo, hi, j as int, s + 1, j as int, s as int));
                        }
                    }
                    proof {
                        if best == before {
                            if let Some((bj, bs)) = best {
                                assert(self.closest(
                                    lo,
                                    hi,
                                    j as int,
                                    s + 1,
                                    bj as int,
                                    bs as int,
                                ));
                            }
                        }
                    }
                }
                if !seen {
                    silent_witness = true;
                    assert(self.silent(lo, hi, j as int));
                } else {
                    assert(!self.silent(lo, hi, j as int));
                }
            }
            proof {
                if let Some((bj, bs)) = best {
                    assert forall|j2: int, s2: int| #[trigger]
                        self.reaches(lo, hi, j2, s2) && reads_before(j2, s2, j + 1, 0) implies {
                        reads_before(j2, s2, j as int, len as int) || j2 == j
                    } by {}
                    assert(self.closest(lo, hi, j + 1, 0, bj as int, bs as int));
                }
            }
        }
        proof {
            if best is None {
                assert forall|j2: int, s2: int| !#[trigger]
                    self.closest(lo, hi, n as int, 0, j2, s2) by {
                    assert(self.reaches(lo, hi, j2, s2) ==> reads_before(j2, s2, n as int, 0));
                }
            }
        }
        (best, silent_witness)
    }

    /// Explain a move seen at own sample `i`.
    fn explain(&self, i: usize) -> (r: Option<Scalar>)
        requires
            self.fits(),
            1 <= i < self.own@.len(),
            self.orders(i as int),
        ensures
            r == self.explained(i as int),
    {
        let ghost lo = self.own@[i as int].window_lo;
        let ghost hi = self.own@[i as int].window_hi;
        let ghost n = self.others@.len() as int;
        match self.look(i) {
            (Some((bj, bs)), _) => {
                proof {
                    let (cj, cs) = choose|cj: int, cs: int| self.closest(lo, hi, n, 0, cj, cs);
                    self.lemma_closest_unique(lo, hi, n, 0, bj as int, bs as int, cj, cs);
                    assert(self.reaches(lo, hi, bj as int, bs as int));
                }
                Some(self.others[bj][bs].t.clamp(self.own[i - 1].t, self.own[i].t))
            },
            (None, true) => Some(self.own[i].t),
            (None, false) => None,
        }
    }

    /// Whether own sample `k` is away from the rest, in the time in which a move
    /// that starts at sample `i` is judged.
    pub open spec fn away(self, i: int, k: int) -> bool {
        &&& self.own@[i].t.at_most(self.own@[k].t)
        &&& self.own@[k].t.at_most(self.own@[i].judged_until)
        &&& num(AWAY).less(self.own@[k].from_rest)
    }

    /// The samples, among the first `n`, on which a move that starts at sample `i`
    /// is judged: the first few that are away.
    pub open spec fn judged(self, i: int, n: int) -> Seq<int>
        decreases n,
    {
        if n <= 0 {
            seq![]
        } else {
            let m = self.judged(i, n - 1);
            if m.len() < JUDGED && self.away(i, n - 1) {
                m.push(n - 1)
            } else {
                m
            }
        }
    }

    /// How many of the samples are on ball `j`.
    pub open spec fn riding(self, samples: Seq<int>, j: int) -> nat
        decreases samples.len(),
    {
        if samples.len() == 0 {
            0
        } else {
            self.riding(samples.drop_last(), j) + if self.overlap@[j]@[samples.last()].less(
                num(OVERLAP),
            ) {
                1nat
            } else {
                0nat
            }
        }
    }

    /// Whether the samples mostly (three in four) ride another ball `j`.
    pub open spec fn swapped_with(self, samples: Seq<int>, j: int) -> bool {
        &&& 0 <= j < self.others@.len()
        &&& j != self.ball
        &&& self.others@[j]@.len() > 0
        &&& self.riding(samples, j) * 4 >= samples.len() * 3
    }

    /// Whether the move that starts at own sample `i` is a real departure: enough
    /// samples are away from the rest, and they ride no other ball.
    pub open spec fn credible(self, i: int) -> bool {
        let samples = self.judged(i, self.own@.len() as int);
        &&& samples.len() >= 3
        &&& forall|j: int| !#[trigger] self.swapped_with(samples, j)
    }

    /// Whether own sample `i` begins a sustained motion.
    pub open spec fn departs(self, i: int) -> bool {
        &&& 1 <= i < self.own@.len() - 1
        &&& num(OFF_REST).less(self.own@[i].from_rest)
        &&& self.own@[i].from_rest.less(self.own@[i + 1].from_rest)
    }

    /// Whether own sample `i` begins a motion that something explains.
    pub open spec fn claims(self, i: int) -> bool {
        self.departs(i) && self.explained(i) is Some
    }

    /// Whether own sample `i` begins the first motion that is explained and
    /// credible.
    pub open spec fn struck_at(self, i: int) -> bool {
        &&& self.claims(i)
        &&& self.credible(i)
        &&& forall|k: int| k < i ==> !(#[trigger] self.claims(k) && self.credible(k))
    }

    proof fn lemma_judged_places(self, i: int, n: int)
        ensures
            self.judged(i, n).len() <= JUDGED,
            self.judged(i, n).len() <= if n > 0 {
                n
            } else {
                0
            },
            forall|a: int|
                0 <= a < self.judged(i, n).len() ==> 0 <= #[trigger] self.judged(i, n)[a] < n,
        decreases n,
    {
        if n > 0 {
            self.lemma_judged_places(i, n - 1);
        }
    }

    fn judge_credible(&self, i: usize) -> (r: bool)
        requires
            self.fits(),
            i < self.own@.len(),
        ensures
            r == self.credible(i as int),
    {
        let mut moving: Vec<usize> = Vec::new();
        let ghost mut places: Seq<int> = seq![];
        for k in 0..self.own.len()
            invariant
                self.fits(),
                i < self.own@.len(),
                places == self.judged(i as int, k as int),
                moving@.len() == places.len(),
                places.len() <= JUDGED,
                forall|a: int| 0 <= a < places.len() ==> #[trigger] moving@[a] == places[a],
        {
            let x: OwnSample = self.own[k];
            if moving.len() < JUDGED && x.t.ge(self.own[i].t) && x.t.le(self.own[i].judged_until)
                && x.from_rest.gt(num(AWAY)) {
                moving.push(k);
                proof {
                    places = places.push(k as int);
                }
            }
        }
        let ghost samples = self.judged(i as int, self.own@.len() as int);
        proof {
            self.lemma_judged_places(i as int, self.own@.len() as int);
        }
        if moving.len() < 3 {
            return false;
        }
        for j in 0..self.others.len()
            invariant
                self.fits(),
                samples == self.judged(i as int, self.own@.len() as int),
                samples.len() <= JUDGED,
                moving@.len() == samples.len(),
                forall|a: int|
                    0 <= a < samples.len() ==> #[trigger] moving@[a] == samples[a] && samples[a]
                        < self.own@.len(),
                forall|k: int| k < j ==> !#[trigger] self.swapped_with(samples, k),
        {
            if j != self.ball && self.others[j].len() > 0 {
                let mut on: usize = 0;
                for a in 0..moving.len()
                    invariant
                        self.fits(),
                        j < self.others@.len(),
                        samples.len() <= JUDGED,
                        moving@.len() == samples.len(),
                        forall|b: int|
                            0 <= b < samples.len() ==> #[trigger] moving@[b] == samples[b]
                                && samples[b] < self.own@.len(),
                        on <= a,
                        on == self.riding(samples.take(a as int), j as int),
                {
                    assert(samples.take(a + 1).drop_last() =~= samples.take(a as int));
                    if self.overlap[j][moving[a]].lt(num(OVERLAP)) {
                        on += 1;
                    }
                }
                assert(samples.take(samples.len() as int) =~= samples);
                if on * 4 >= moving.len() * 3 {
                    assert(self.swapped_with(samples, j as int));
                    return false;
                }
            }
        }
        true
    }

    /// Whether the track shows a first move: the first motion that is explained and
    /// credible; no trust where a motion is explained but none is credible; rest
    /// where no motion is explained.
    pub open spec fn shows(self, m: FirstMove) -> bool {
        if self.own@.len() == 0 {
            m == FirstMove::Unreliable
        } else {
            match m {
                FirstMove::At(tc) => exists|i: int| #[trigger]
                    self.struck_at(i) && self.explained(i) == Some(tc),
                FirstMove::Unreliable => {
                    &&& forall|i: int| !#[trigger] self.struck_at(i)
                    &&& exists|i: int| #[trigger] self.claims(i)
                },
                FirstMove::Still => forall|i: int| !#[trigger] self.claims(i),
            }
        }
    }

    /// Whether every contact that has to be dated can be: whether `first_move` has an
    /// answer.
    pub fn can_be_dated(&self) -> (r: bool)
        requires
            self.fits(),
        ensures
            r == self.datable(),
    {
        let n: usize = self.own.len();
        if n == 0 {
            assert forall|k: int| !#[trigger] self.departs(k) by {}
            return true;
        }
        for i in 1..n
            invariant
                self.fits(),
                n == self.own@.len(),
                forall|k: int| k < i ==> !(#[trigger] self.claims(k) && self.credible(k)),
                forall|k: int| #[trigger] self.departs(k) && k < i ==> self.orders(k),
        {
            if i + 1 < n && self.own[i].from_rest.gt(num(OFF_REST)) && self.own[i
                + 1].from_rest.gt(self.own[i].from_rest) {
                assert(self.departs(i as int));
                let (striker, unseen): (Option<(usize, usize)>, bool) = self.look(i);
                let ghost lo = self.own@[i as int].window_lo;
                let ghost hi = self.own@[i as int].window_hi;
                if let Some((j, s)) = striker {
                    assert(self.closest(
                        lo,
                        hi,
                        self.others@.len() as int,
                        0,
                        j as int,
                        s as int,
                    ));
                    if !self.own[i - 1].t.le(self.own[i].t) {
                        assert(!self.orders(i as int));
                        return false;
                    }
                }
                assert(self.orders(i as int));
                if (striker.is_some() || unseen) && self.judge_credible(i) {
                    assert(self.claims(i as int) && self.credible(i as int));
                    assert forall|k: int| #[trigger]
                        self.departs(k) && (forall|m: int|
                            m < k ==> !(#[trigger] self.claims(m) && self.credible(
                                m,
                            ))) implies self.orders(k) by {
                        if k > i {
                            assert(!(self.claims(i as int) && self.credible(i as int)));
                        }
                    }
                    return true;
                }
            } else {
                assert(!self.departs(i as int));
            }
        }
        assert forall|k: int| #[trigger] self.departs(k) implies k < n by {}
        true
    }

    /// When the ball first moved, if its track can be trusted to show it.
    pub fn first_move(&self) -> (r: FirstMove)
        requires
            self.wf(),
        ensures
            self.shows(r),
    {
        let n: usize = self.own.len();
        if n == 0 {
            return FirstMove::Unreliable;
        }
        let mut tainted: bool = false;
        for i in 1..n
            invariant
                self.wf(),
                n == self.own@.len(),
                forall|k: int| k < i ==> !(#[trigger] self.claims(k) && self.credible(k)),
                tainted <==> exists|k: int| #[trigger] self.claims(k) && k < i,
        {
            if i + 1 < n {
                let d0: Scalar = self.own[i].from_rest;
                let d1: Scalar = self.own[i + 1].from_rest;
                if d0.gt(num(OFF_REST)) && d1.gt(d0) {
                    assert(self.departs(i as int));
                    assert(self.orders(i as int));
                    if let Some(tc) = self.explain(i) {
                        assert(self.claims(i as int));
                        if self.judge_credible(i) {
                            assert(self.struck_at(i as int));
                            return FirstMove::At(tc);
                        }
                        tainted = true;
                    } else {
                        assert(!self.claims(i as int));
                    }
                } else {
                    assert(!self.claims(i as int));
                }
            } else {
                assert(!self.claims(i as int));
            }
        }
        assert forall|i: int| !#[trigger] self.struck_at(i) by {
            if self.struck_at(i) {
                assert(self.claims(i) && i < n);
            }
        }
        if tainted {
            FirstMove::Unreliable
        } else {
            assert forall|i: int| !#[trigger] self.claims(i) by {
                if self.claims(i) {
                    assert(i < n);
                }
            }
            FirstMove::Still
        }
    }

    /// A track shows one first move only.
    pub proof fn law_first_move_unique(self, a: FirstMove, b: FirstMove)
        requires
            self.shows(a),
            self.shows(b),
        ensures
            a == b,
    {
        if self.own@.len() > 0 {
            assert forall|i: int, j: int| #[trigger]
                self.struck_at(i) && #[trigger] self.struck_at(j) implies i == j by {
                assert(self.claims(i) && self.claims(j));
            }
            if a is At {
                let i = choose|i: int| #[trigger] self.struck_at(i);
                assert(self.claims(i));
            }
            if b is At {
                let i = choose|i: int| #[trigger] self.struck_at(i);
                assert(self.claims(i));
            }
        }
    }

    /// A ball that every other ball was seen well away from, whenever its track
    /// moved, is never said to have been struck.
    pub proof fn law_no_striker_no_strike(self, i: int)
        requires
            1 <= i < self.own@.len(),
            forall|j: int| !#[trigger]
                self.silent(self.own@[i].window_lo, self.own@[i].window_hi, j),
            forall|j: int, s: int| !#[trigger]
                self.reaches(self.own@[i].window_lo, self.own@[i].window_hi, j, s),
        ensures
            !self.claims(i),
    {
        let lo = self.own@[i].window_lo;
        let hi = self.own@[i].window_hi;
        assert forall|j: int, s: int| !#[trigger]
            self.closest(lo, hi, self.others@.len() as int, 0, j, s) by {
            assert(!self.reaches(lo, hi, j, s));
        }
    }

    /// A move is judged on the first samples from it on, in time, that are away from the rest:
    /// all of those up to six, and no later one.
    pub proof fn law_judged_are_the_first_away(self, i: int, n: int)
        requires
            0 <= n <= self.own@.len(),
        ensures
            self.judged(i, n).len() <= 6,
            forall|a: int, b: int|
                0 <= a < b < self.judged(i, n).len() ==> (#[trigger] self.judged(i, n)[a]) < (
                #[trigger] self.judged(i, n)[b]),
            forall|k: int| #[trigger]
                self.judged(i, n).contains(k) ==> 0 <= k < n && self.own@[i].t.at_most(
                    self.own@[k].t,
                ) && self.own@[k].t.at_most(self.own@[i].judged_until) && num(AWAY).less(
                    self.own@[k].from_rest,
                ),
            forall|k: int|
                0 <= k < n && self.own@[i].t.at_most((#[trigger] self.own@[k]).t)
                    && self.own@[k].t.at_most(self.own@[i].judged_until) && num(AWAY).less(
                    self.own@[k].from_rest,
                ) && !self.judged(i, n).contains(k) ==> self.judged(i, n).len() == 6
                    && self.judged(i, n).last() < k,
        decreases n,
    {
        if n > 0 {
            self.law_judged_are_the_first_away(i, n - 1);
            let before = self.judged(i, n - 1);
            let now = self.judged(i, n);
            let more = before.len() < JUDGED && self.away(i, n - 1);
            lemma_places_step(before, now, n - 1, more);
            if before.len() > 0 {
                assert(before.contains(before[before.len() - 1]));
            }
        }
    }

    /// A track whose times never go back can always be dated.
    pub proof fn law_ordered_track_is_datable(self)
        requires
            forall|i: int|
                1 <= i < self.own@.len() ==> (#[trigger] self.own@[i - 1]).t.at_most(
                    self.own@[i].t,
                ),
        ensures
            self.datable(),
    {
        assert forall|i: int| #[trigger] self.departs(i) implies self.orders(i) by {
            assert(self.own@[i - 1].t.at_most(self.own@[i].t));
        }
    }

    /// A sample rides another ball where it is closer to it than two balls can be: those of a
    /// list that do are counted, all of them.
    pub proof fn law_riders_are_counted(self, samples: Seq<int>, j: int)
        ensures
            self.riding(samples, j) == samples.filter(
                |k: int| self.overlap@[j]@[k].less(num(OVERLAP)),
            ).len(),
        decreases samples.len(),
    {
        let on = |k: int| self.overlap@[j]@[k].less(num(OVERLAP));
        reveal(Seq::filter);
        if samples.len() > 0 {
            self.law_riders_are_counted(samples.drop_last(), j);
        }
    }

    /// A ball is said to be struck only where a sample is off its rest and the next one is
    /// farther, where at least three samples are away, and where for every other ball that
    /// has a track fewer than three in four of them ride it.
    pub proof fn law_strike_is_a_departure(self, i: int, j: int)
        requires
            self.struck_at(i),
            0 <= j < self.others@.len(),
            j != self.ball,
            self.others@[j]@.len() > 0,
        ensures
            1 <= i < self.own@.len() - 1,
            num(OFF_REST).less(self.own@[i].from_rest),
            self.own@[i].from_rest.less(self.own@[i + 1].from_rest),
            self.explained(i) is Some,
            ({
                let samples = self.judged(i, self.own@.len() as int);
                &&& samples.len() >= 3
                &&& self.riding(samples, j) * 4 < samples.len() * 3
            }),
    {
        let samples = self.judged(i, self.own@.len() as int);
        assert(!self.swapped_with(samples, j));
    }

    /// Samples that mostly ride another ball are a swapped identity: the move is not the
    /// ball's own.
    pub proof fn law_rider_is_not_struck(self, i: int, j: int)
        requires
            0 <= j < self.others@.len(),
            j != self.ball,
            self.others@[j]@.len() > 0,
            self.riding(self.judged(i, self.own@.len() as int), j) * 4 >= self.judged(
                i,
                self.own@.len() as int,
            ).len() * 3,
        ensures
            !self.struck_at(i),
    {
        assert(self.swapped_with(self.judged(i, self.own@.len() as int), j));
    }

    /// What the track is taken to say: struck, at the time of the cause, where some motion is
    /// explained and credible, and none before it is; still only where no motion that
    /// anything explains begins anywhere.
    pub proof fn law_credible_motion_is_a_strike(self, m: FirstMove, i: int)
        requires
            self.shows(m),
            1 <= i < self.own@.len() - 1,
            num(OFF_REST).less(self.own@[i].from_rest),
            self.own@[i].from_rest.less(self.own@[i + 1].from_rest),
            self.explained(i) is Some,
        ensures
            m != FirstMove::Still,
            self.credible(i) ==> m is At,
            self.credible(i) && (forall|k: int|
                k < i ==> !(#[trigger] self.claims(k) && self.credible(k))) ==> m
                == FirstMove::At(self.explained(i)->0),
            (forall|k: int| !#[trigger] self.credible(k)) ==> m == FirstMove::Unreliable,
    {
        assert(self.claims(i));
        if self.credible(i) {
            let f = self.lemma_first_credible(i);
            assert(self.struck_at(f));
            if m is At {
                let g = choose|g: int| #[trigger]
                    self.struck_at(g) && self.explained(g) == Some(m->At_0);
                assert(self.claims(g) && self.claims(f));
                assert(g == f);
                if forall|k: int| k < i ==> !(#[trigger] self.claims(k) && self.credible(k)) {
                    assert(f == i);
                }
            }
        }
        if m is At {
            let g = choose|g: int| #[trigger]
                self.struck_at(g) && self.explained(g) == Some(m->At_0);
            assert(self.credible(g));
        }
    }

    proof fn lemma_first_credible(self, i: int) -> (f: int)
        requires
            self.claims(i),
            self.credible(i),
        ensures
            f <= i,
            self.struck_at(f),
        decreases i,
    {
        if exists|k: int| k < i && #[trigger] self.claims(k) && self.credible(k) {
            let k = choose|k: int| k < i && #[trigger] self.claims(k) && self.credible(k);
            self.lemma_first_credible(k)
        } else {
            i
        }
    }

    /// A contact is dated by the closest approach of another ball that was seen within reach
    /// of the rest around that moment, moved into the time since the sample before.
    pub proof fn law_closest_approach_dates_contact(self, i: int, j: int, s: int)
        requires
            0 <= j < self.others@.len(),
            j != self.ball,
            0 <= s < self.others@[j]@.len(),
            self.own@[i].window_lo.at_most(self.others@[j]@[s].t),
            self.others@[j]@[s].t.at_most(self.own@[i].window_hi),
            self.others@[j]@[s].from_rest.less(num(REACH)),
            forall|j2: int, s2: int| #[trigger]
                self.reaches(self.own@[i].window_lo, self.own@[i].window_hi, j2, s2) && !(j2 == j
                    && s2 == s) ==> self.others@[j]@[s].from_rest.less(
                    self.others@[j2]@[s2].from_rest,
                ),
        ensures
            self.explained(i) == Some(
                self.others@[j]@[s].t.clamped(self.own@[i - 1].t, self.own@[i].t),
            ),
    {
        let lo = self.own@[i].window_lo;
        let hi = self.own@[i].window_hi;
        let n = self.others@.len() as int;
        assert(self.reaches(lo, hi, j, s));
        assert(self.closest(lo, hi, n, 0, j, s));
        let (cj, cs) = choose|cj: int, cs: int| self.closest(lo, hi, n, 0, cj, cs);
        self.lemma_closest_unique(lo, hi, n, 0, j, s, cj, cs);
    }

    /// Where no ball was seen within reach, but one was out of sight around that moment, the
    /// contact is dated by the sample itself.
    pub proof fn law_unseen_ball_dates_contact(self, i: int, j: int)
        requires
            0 <= j < self.others@.len(),
            j != self.ball,
            forall|s: int|
                0 <= s < self.others@[j]@.len() ==> !(self.own@[i].window_lo.at_most(
                    (#[trigger] self.others@[j]@[s]).t,
                ) && self.others@[j]@[s].t.at_most(self.own@[i].window_hi)),
            forall|j2: int, s2: int| !#[trigger]
                self.reaches(self.own@[i].window_lo, self.own@[i].window_hi, j2, s2),
        ensures
            self.explained(i) == Some(self.own@[i].t),
    {
        let lo = self.own@[i].window_lo;
        let hi = self.own@[i].window_hi;
        let n = self.others@.len() as int;
        assert(self.silent(lo, hi, j));
        assert forall|cj: int, cs: int| !#[trigger] self.closest(lo, hi, n, 0, cj, cs) by {
            assert(!self.reaches(lo, hi, cj, cs));
        }
    }

    /// A contact is dated within the time in which the ball left its rest: not
    /// before its last sample there, not after the first one away.
    pub proof fn law_contact_dated_within(self, i: int)
        requires
            1 <= i < self.own@.len(),
            self.own@[i - 1].t.at_most(self.own@[i].t),
            self.explained(i) is Some,
        ensures
            self.own@[i - 1].t.at_most(self.explained(i)->0),
            self.explained(i)->0.at_most(self.own@[i].t),
    {
        let lo = self.own@[i].window_lo;
        let hi = self.own@[i].window_hi;
        let n = self.others@.len() as int;
        if exists|j: int, s: int| self.closest(lo, hi, n, 0, j, s) {
            let (j, s) = choose|j: int, s: int| self.closest(lo, hi, n, 0, j, s);
            assert(self.reaches(lo, hi, j, s));
        }
    }
}

} // verus!
