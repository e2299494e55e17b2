//! Order-preserving alignment of observed and simulated cushion bounces.
//!
//! Sequence order is the physical story, so bounces are paired by a longest
//! common subsequence: two bounces can be paired when they are off the same rail
//! and near in time, and pairs never cross.

use vstd::prelude::*;

use crate::scalar::{num, Scalar};

verus! {

/// Bounces pair up within this time (s): 1.0.
pub const MATCH_W: u64 = 0x3FF0_0000_0000_0000;

/// Two lists of bounces by rail, and the time between each two of them.
#[derive(Debug)]
pub struct BounceLists {
    pub observed: Vec<u8>,
    pub simulated: Vec<u8>,
    /// `gaps[i][j]`: time between observed bounce `i` and simulated bounce `j`.
    pub gaps: Vec<Vec<Scalar>>,
}

/// The pairing of two lists.
#[derive(Debug)]
pub struct Alignment {
    /// Number of pairs.
    pub matched: usize,
    /// Per simulated bounce, whether it is paired.
    pub used: Vec<bool>,
}

impl BounceLists {
    pub open spec fn wf(self) -> bool {
        &&& self.gaps@.len() == self.observed@.len()
        &&& forall|i: int|
            0 <= i < self.gaps@.len() ==> (#[trigger] self.gaps@[i])@.len() == self.simulated@.len()
    }

    /// Whether observed bounce `i` and simulated bounce `j` can be paired.
    pub open spec fn mates(self, i: int, j: int) -> bool {
        self.observed@[i] == self.simulated@[j] && self.gaps@[i]@[j].at_most(num(MATCH_W))
    }

    /// The greatest number of pairs among the bounces from `i` and from `j` on.
    pub open spec fn best(self, i: int, j: int) -> nat
        decreases (self.observed@.len() - i) + (self.simulated@.len() - j),
    {
        if i < 0 || j < 0 || i >= self.observed@.len() || j >= self.simulated@.len() {
            0
        } else {
            let skip = if self.best(i + 1, j) >= self.best(i, j + 1) {
                self.best(i + 1, j)
            } else {
                self.best(i, j + 1)
            };
            if self.mates(i, j) && self.best(i + 1, j + 1) + 1 > skip {
                self.best(i + 1, j + 1) + 1
            } else {
                skip
            }
        }
    }

    /// The pairs chosen from `(i, j)` on: a pair as soon as it belongs to a best
    /// pairing, otherwise on along the list that loses nothing.
    pub open spec fn trace(self, i: int, j: int) -> Seq<(int, int)>
        decreases (self.observed@.len() - i) + (self.simulated@.len() - j),
    {
        if i < 0 || j < 0 || i >= self.observed@.len() || j >= self.simulated@.len() {
            seq![]
        } else if self.mates(i, j) && self.best(i, j) == self.best(i + 1, j + 1) + 1 {
            seq![(i, j)] + self.trace(i + 1, j + 1)
        } else if self.best(i + 1, j) >= self.best(i, j + 1) {
            self.trace(i + 1, j)
        } else {
            self.trace(i, j + 1)
        }
    }

    /// A pairing of bounces from `(i, j)` on that keeps the order of both lists.
    pub open spec fn pairing(self, m: Seq<(int, int)>, i: int, j: int) -> bool {
        &&& forall|a: int|
            0 <= a < m.len() ==> i <= (#[trigger] m[a]).0 < self.observed@.len() && j <= m[a].1
                < self.simulated@.len() && self.mates(m[a].0, m[a].1)
        &&& forall|a: int, b: int|
            0 <= a < b < m.len() ==> (#[trigger] m[a]).0 < (#[trigger] m[b]).0 && m[a].1 < m[b].1
    }

    proof fn lemma_best_bound(self, i: int, j: int)
        requires
            0 <= i <= self.observed@.len(),
            0 <= j <= self.simulated@.len(),
        ensures
            self.best(i, j) <= self.observed@.len() - i,
            self.best(i, j) <= self.simulated@.len() - j,
        decreases (self.observed@.len() - i) + (self.simulated@.len() - j),
    {
        if i < self.observed@.len() && j < self.simulated@.len() {
            self.lemma_best_bound(i + 1, j);
            self.lemma_best_bound(i, j + 1);
            self.lemma_best_bound(i + 1, j + 1);
            self.lemma_best_step(i, j);
        }
    }

    /// One more bounce in a list adds at most one pair.
    proof fn lemma_best_step(self, i: int, j: int)
        requires
            0 <= i,
            0 <= j,
        ensures
            self.best(i, j + 1) <= self.best(i, j) <= self.best(i, j + 1) + 1,
            self.best(i + 1, j) <= self.best(i, j) <= self.best(i + 1, j) + 1,
        decreases (self.observed@.len() - i) + (self.simulated@.len() - j),
    {
        if i < self.observed@.len() && j < self.simulated@.len() {
            self.lemma_best_step(i + 1, j);
            self.lemma_best_step(i, j + 1);
            self.lemma_best_step(i + 1, j + 1);
        }
    }

    /// No pairing that keeps the order of both lists has more pairs than the best
    /// count.
    pub proof fn law_best_is_greatest(self, m: Seq<(int, int)>, i: int, j: int)
        requires
            0 <= i,
            0 <= j,
            self.pairing(m, i, j),
        ensures
            m.len() <= self.best(i, j),
        decreases (self.observed@.len() - i) + (self.simulated@.len() - j),
    {
        if m.len() > 0 {
            let first = m[0];
            if first == (i, j) {
                let rest = m.skip(1);
                assert forall|a: int| 0 <= a < rest.len() implies i + 1 <= (#[trigger] rest[a]).0
                    < self.observed@.len() && j + 1 <= rest[a].1 < self.simulated@.len()
                    && self.mates(rest[a].0, rest[a].1) by {
                    assert(rest[a] == m[a + 1]);
                }
                assert forall|a: int, b: int| 0 <= a < b < rest.len() implies (
                #[trigger] rest[a]).0 < (#[trigger] rest[b]).0 && rest[a].1 < rest[b].1 by {
                    assert(rest[a] == m[a + 1] && rest[b] == m[b + 1]);
                }
                self.law_best_is_greatest(rest, i + 1, j + 1);
            } else if first.0 > i {
                assert(self.pairing(m, i + 1, j));
                self.law_best_is_greatest(m, i + 1, j);
            } else {
                assert(self.pairing(m, i, j + 1));
                self.law_best_is_greatest(m, i, j + 1);
            }
        }
    }

    /// The chosen pairs are a pairing that keeps the order, and it reaches the
    /// best count.
    pub proof fn law_trace_is_best(self, i: int, j: int)
        requires
            0 <= i,
            0 <= j,
        ensures
            self.pairing(self.trace(i, j), i, j),
            self.trace(i, j).len() == self.best(i, j),
        decreases (self.observed@.len() - i) + (self.simulated@.len() - j),
    {
        if i < self.observed@.len() && j < self.simulated@.len() {
            if self.mates(i, j) && self.best(i, j) == self.best(i + 1, j + 1) + 1 {
                self.law_trace_is_best(i + 1, j + 1);
                let rest = self.trace(i + 1, j + 1);
                let all = self.trace(i, j);
                assert(all == seq![(i, j)] + rest);
                assert forall|a: int| 1 <= a < all.len() implies #[trigger] all[a] == rest[a
                    - 1] by {}
            } else {
                self.law_trace_is_best(i + 1, j);
                self.law_trace_is_best(i, j + 1);
            }
        }
    }

    /// Every chosen pair is off one rail and near in time, and pairs never cross.
    pub proof fn law_pairs_agree(self, a: int, b: int)
        requires
            0 <= a < b < self.trace(0, 0).len(),
        ensures
            ({
                let (p, q) = (self.trace(0, 0)[a], self.trace(0, 0)[b]);
                &&& self.observed@[p.0] == self.simulated@[p.1]
                &&& self.gaps@[p.0]@[p.1].at_most(num(MATCH_W))
                &&& self.observed@[q.0] == self.simulated@[q.1]
                &&& self.gaps@[q.0]@[q.1].at_most(num(MATCH_W))
                &&& 0 <= p.0 < q.0 < self.observed@.len()
                &&& 0 <= p.1 < q.1 < self.simulated@.len()
            }),
    {
        self.law_trace_is_best(0, 0);
        let t = self.trace(0, 0);
        assert(self.mates(t[a].0, t[a].1) && self.mates(t[b].0, t[b].1));
        assert(t[a].0 < t[b].0 && t[a].1 < t[b].1);
    }

    /// No way of pairing bounces off one rail that are near in time, without crossing, gives
    /// more pairs than are chosen.
    pub proof fn law_no_more_pairs(self, m: Seq<(int, int)>)
        requires
            forall|a: int|
                0 <= a < m.len() ==> 0 <= (#[trigger] m[a]).0 < self.observed@.len() && 0 <= m[a].1
                    < self.simulated@.len() && self.observed@[m[a].0] == self.simulated@[m[a].1]
                    && self.gaps@[m[a].0]@[m[a].1].at_most(num(MATCH_W)),
            forall|a: int, b: int|
                0 <= a < b < m.len() ==> (#[trigger] m[a]).0 < (#[trigger] m[b]).0 && m[a].1
                    < m[b].1,
        ensures
            m.len() <= self.trace(0, 0).len(),
            self.trace(0, 0).len() == self.best(0, 0),
    {
        assert(self.pairing(m, 0, 0));
        self.law_best_is_greatest(m, 0, 0);
        self.law_trace_is_best(0, 0);
    }

    /// Of all pairings with the most pairs, none begins with an earlier simulated bounce than
    /// the chosen one.
    pub proof fn law_pairs_begin_early(self, m: Seq<(int, int)>, i: int, j: int)
        requires
            0 <= i,
            0 <= j,
            self.pairing(m, i, j),
            m.len() == self.best(i, j),
            m.len() > 0,
        ensures
            self.trace(i, j).len() > 0,
            self.trace(i, j)[0].1 <= m[0].1,
        decreases (self.observed@.len() - i) + (self.simulated@.len() - j),
    {
        let first = m[0];
        assert(self.mates(first.0, first.1));
        self.law_trace_is_best(i, j);
        let rest = m.skip(1);
        assert forall|a: int| 0 <= a < rest.len() implies first.0 < (#[trigger] rest[a]).0
            < self.observed@.len() && first.1 < rest[a].1 < self.simulated@.len() && self.mates(
            rest[a].0,
            rest[a].1,
        ) by {
            assert(rest[a] == m[a + 1]);
        }
        assert forall|a: int, b: int| 0 <= a < b < rest.len() implies (#[trigger] rest[a]).0 < (
        #[trigger] rest[b]).0 && rest[a].1 < rest[b].1 by {
            assert(rest[a] == m[a + 1] && rest[b] == m[b + 1]);
        }
        if self.mates(i, j) && self.best(i, j) == self.best(i + 1, j + 1) + 1 {
            assert(self.trace(i, j)[0] == (i, j));
        } else {
            if first == (i, j) {
                assert(self.pairing(rest, i + 1, j + 1));
                self.law_best_is_greatest(rest, i + 1, j + 1);
            }
            if self.best(i + 1, j) >= self.best(i, j + 1) {
                let t = self.trace(i + 1, j);
                self.law_trace_is_best(i + 1, j);
                if t[0].1 > first.1 {
                    let longer = seq![first] + t;
                    if first.0 == i {
                        assert forall|a: int, b: int| 0 <= a < b < longer.len() implies (
                        #[trigger] longer[a]).0 < (#[trigger] longer[b]).0 && longer[a].1
                            < longer[b].1 by {
                            assert(longer[b] == t[b - 1]);
                            if a > 0 {
                                assert(longer[a] == t[a - 1]);
                            } else if b > 1 {
                                assert(t[0].1 < t[b - 1].1);
                            }
                        }
                        assert forall|a: int| 0 <= a < longer.len() implies i <= (
                        #[trigger] longer[a]).0 < self.observed@.len() && j <= longer[a].1
                            < self.simulated@.len() && self.mates(longer[a].0, longer[a].1) by {
                            if a > 0 {
                                assert(longer[a] == t[a - 1]);
                            }
                        }
                        assert(self.pairing(longer, i, j));
                        self.law_best_is_greatest(longer, i, j);
                    } else {
                        assert(self.pairing(m, i + 1, j));
                        self.law_pairs_begin_early(m, i + 1, j);
                    }
                }
            } else {
                if first.1 == j {
                    assert forall|a: int| 0 <= a < m.len() implies i + 1 <= (
                    #[trigger] m[a]).0 by {
                        if a > 0 {
                            assert(m[0].0 < m[a].0);
                        }
                    }
                    assert(self.pairing(m, i + 1, j));
                    self.law_best_is_greatest(m, i + 1, j);
                }
                assert forall|a: int| 0 <= a < m.len() implies j + 1 <= (#[trigger] m[a]).1 by {
                    if a > 0 {
                        assert(m[0].1 < m[a].1);
                    }
                }
                assert(self.pairing(m, i, j + 1));
                self.law_pairs_begin_early(m, i, j + 1);
            }
        }
    }

    fn can_pair(&self, i: usize, j: usize) -> (r: bool)
        requires
            self.wf(),
            i < self.observed@.len(),
            j < self.simulated@.len(),
        ensures
            r == self.mates(i as int, j as int),
    {
        self.observed[i] == self.simulated[j] && self.gaps[i][j].le(num(MATCH_W))
    }

    /// The table of best counts, counted from the ends of the lists: entry
    /// `[a][b]` is for the last `a` observed and the last `b` simulated bounces.
    fn table(&self) -> (t: Vec<Vec<usize>>)
        requires
            self.wf(),
        ensures
            t@.len() == self.observed@.len() + 1,
            forall|a: int|
                0 <= a <= self.observed@.len() ==> self.is_row((#[trigger] t@[a])@, a),
    {
        let no: usize = self.observed.len();
        let ns: usize = self.simulated.len();
        let mut t: Vec<Vec<usize>> = Vec::new();
        let mut row: Vec<usize> = Vec::new();
        row.push(0);
        for b in 0..ns
            invariant
                row@.len() == b + 1,
                forall|k: int| 0 <= k <= b ==> #[trigger] row@[k] == 0,
        {
            row.push(0);
        }
        t.push(row);
        for a in 0..no
            invariant
                self.wf(),
                no == self.observed@.len(),
                ns == self.simulated@.len(),
                t@.len() == a + 1,
                forall|k: int| 0 <= k <= a ==> self.is_row((#[trigger] t@[k])@, k),
        {
            let mut row: Vec<usize> = Vec::new();
            row.push(0);
            let i: usize = no - 1 - a;
            assert(self.is_row(t@[a as int]@, a as int));
            for b in 0..ns
                invariant
                    self.wf(),
                    no == self.observed@.len(),
                    ns == self.simulated@.len(),
                    a < no,
                    i == no - 1 - a,
                    t@.len() == a + 1,
                    self.is_row(t@[a as int]@, a as int),
                    row@.len() == b + 1,
                    forall|k: int|
                        0 <= k <= b ==> #[trigger] row@[k] == self.best(i as int, ns - k),
            {
                let j: usize = ns - 1 - b;
                let down: usize = t[a][b + 1];
                let right: usize = row[b];
                let cross: usize = t[a][b];
                assert(down == self.best(i + 1, j as int));
                assert(right == self.best(i as int, j + 1));
                assert(cross == self.best(i + 1, j + 1));
                proof {
                    self.lemma_best_bound(i + 1, j + 1);
                }
                let mut value: usize = if down >= right {
                    down
                } else {
                    right
                };
                if self.can_pair(i, j) && cross + 1 > value {
                    value = cross + 1;
                }
                row.push(value);
            }
            t.push(row);
        }
        t
    }

    spec fn is_row(self, row: Seq<usize>, a: int) -> bool {
        &&& row.len() == self.simulated@.len() + 1
        &&& forall|b: int|
            0 <= b < row.len() ==> #[trigger] row[b] == self.best(
                self.observed@.len() - a,
                self.simulated@.len() - b,
            )
    }

    /// Align the two lists.
    pub fn align(&self) -> (r: Alignment)
        requires
            self.wf(),
        ensures
            r.matched == self.best(0, 0),
            r.matched <= self.observed@.len(),
            r.used@.len() == self.simulated@.len(),
            forall|c: int|
                0 <= c < r.used@.len() ==> (#[trigger] r.used@[c] <==> exists|a: int|
                    0 <= a < self.trace(0, 0).len() && (#[trigger] self.trace(0, 0)[a]).1 == c),
    {
        let no: usize = self.observed.len();
        let ns: usize = self.simulated.len();
        let t: Vec<Vec<usize>> = self.table();
        let mut used: Vec<bool> = Vec::new();
        for c in 0..ns
            invariant
                used@.len() == c,
                forall|k: int| 0 <= k < c ==> !(#[trigger] used@[k]),
        {
            used.push(false);
        }
        let mut i: usize = 0;
        let mut j: usize = 0;
        let ghost mut done: Seq<(int, int)> = seq![];
        assert(done + self.trace(0, 0) =~= self.trace(0, 0));
        while i < no && j < ns
            invariant
                self.wf(),
                no == self.observed@.len(),
                ns == self.simulated@.len(),
                i <= no,
                j <= ns,
                t@.len() == no + 1,
                forall|a: int| 0 <= a <= no ==> self.is_row((#[trigger] t@[a])@, a),
                used@.len() == ns,
                self.trace(0, 0) == done + self.trace(i as int, j as int),
                forall|c: int|
                    0 <= c < ns ==> (#[trigger] used@[c] <==> exists|a: int|
                        0 <= a < done.len() && (#[trigger] done[a]).1 == c),
            decreases (no - i) + (ns - j),
        {
            let a: usize = no - i;
            let b: usize = ns - j;
            assert(self.is_row(t@[a as int]@, a as int));
            assert(self.is_row(t@[a - 1]@, a - 1));
            let here: usize = t[a][b];
            let down: usize = t[a - 1][b];
            let right: usize = t[a][b - 1];
            let cross: usize = t[a - 1][b - 1];
            assert(here == self.best(i as int, j as int));
            assert(down == self.best(i + 1, j as int));
            assert(right == self.best(i as int, j + 1));
            assert(cross == self.best(i + 1, j + 1));
            proof {
                self.lemma_best_bound(i + 1, j + 1);
            }
            if self.can_pair(i, j) && here == cross + 1 {
                let ghost old_done = done;
                let ghost old_used = used@;
                used[j] = true;
                proof {
                    done = old_done.push((i as int, j as int));
                    assert(old_done + (seq![(i as int, j as int)] + self.trace(i + 1, j + 1))
                        =~= done + self.trace(i + 1, j + 1));
                    assert forall|c: int| 0 <= c < ns implies (#[trigger] used@[c] <==> exists|a: int|
                        0 <= a < done.len() && (#[trigger] done[a]).1 == c) by {
                        if c == j {
                            assert(done[old_done.len() as int].1 == c);
                        } else if old_used[c] {
                            let w = choose|a: int|
                                0 <= a < old_done.len() && (#[trigger] old_done[a]).1 == c;
                            assert(done[w].1 == c);
                        } else if exists|a: int|
                            0 <= a < done.len() && (#[trigger] done[a]).1 == c {
                            let w = choose|a: int|
                                0 <= a < done.len() && (#[trigger] done[a]).1 == c;
                            assert(old_done[w].1 == c);
                        }
                    }
                }
                i += 1;
                j += 1;
            } else if down >= right {
                i += 1;
            } else {
                j += 1;
            }
        }
        assert(self.trace(i as int, j as int).len() == 0);
        assert(self.trace(0, 0) =~= done);
        assert(self.is_row(t@[no as int]@, no as int));
        proof {
            self.lemma_best_bound(0, 0);
        }
        Alignment { matched: t[no][ns], used }
    }
}

} // verus!
