//! The grid of actions a search goes through: aims, then speeds, then strikes.

use vstd::prelude::*;

verus! {

/// How many aims, speeds and strikes a search tries.
#[derive(Clone, Copy, Debug, PartialEq, Eq, Structural)]
pub struct Grid {
    pub aims: usize,
    pub speeds: usize,
    pub strikes: usize,
}

/// One action of a grid, by its aim, speed and strike.
#[derive(Clone, Copy, Debug, PartialEq, Eq, Structural)]
pub struct Cell {
    pub aim: usize,
    pub speed: usize,
    pub strike: usize,
}

impl Grid {
    pub open spec fn size(self) -> nat {
        self.aims as nat * self.speeds as nat * self.strikes as nat
    }

    pub open spec fn holds(self, c: Cell) -> bool {
        c.aim < self.aims && c.speed < self.speeds && c.strike < self.strikes
    }

    /// The place of a cell: the strikes of one aim and speed lie together, as do the
    /// speeds of one aim.
    pub open spec fn place(self, c: Cell) -> int {
        (c.aim * self.speeds + c.speed) * self.strikes + c.strike
    }

    /// How many cells there are; none where they cannot be counted.
    pub fn count(&self) -> (r: Option<usize>)
        ensures
            match r {
                Some(n) => n == self.size(),
                None => self.size() > usize::MAX,
            },
    {
        match self.aims.checked_mul(self.speeds) {
            Some(rows) => rows.checked_mul(self.strikes),
            None => {
                if self.strikes == 0 {
                    assert(self.size() == 0) by (nonlinear_arith)
                        requires
                            self.size() == self.aims as nat * self.speeds as nat
                                * self.strikes as nat,
                            self.strikes == 0,
                    ;
                    Some(0)
                } else {
                    assert(self.size() >= self.aims * self.speeds) by (nonlinear_arith)
                        requires
                            self.size() == self.aims as nat * self.speeds as nat
                                * self.strikes as nat,
                            self.strikes >= 1,
                    ;
                    None
                }
            },
        }
    }

    /// The cell in place `k`.
    pub fn cell(&self, k: usize) -> (c: Cell)
        requires
            k < self.size(),
        ensures
            self.holds(c),
            self.place(c) == k,
    {
        assert(self.strikes > 0 && self.speeds > 0) by (nonlinear_arith)
            requires
                0 <= k < self.aims as nat * self.speeds as nat * self.strikes as nat,
        ;
        let row: usize = k / self.strikes;
        let c: Cell = Cell {
            aim: row / self.speeds,
            speed: row % self.speeds,
            strike: k % self.strikes,
        };
        proof {
            let (a, b, n) = (self.aims as int, self.speeds as int, self.strikes as int);
            vstd::arithmetic::div_mod::lemma_fundamental_div_mod(k as int, n);
            vstd::arithmetic::div_mod::lemma_fundamental_div_mod(row as int, b);
            assert(row * n == n * row && c.aim * b == b * c.aim) by (nonlinear_arith);
            assert(row < a * b) by (nonlinear_arith)
                requires
                    row * n <= k < a * b * n,
                    n > 0,
            ;
            assert(c.aim < a) by (nonlinear_arith)
                requires
                    c.aim * b <= row < a * b,
                    b > 0,
            ;
        }
        c
    }
}

/// Whether one cell comes before another: by aim, then by speed, then by strike.
pub open spec fn comes_before(c: Cell, d: Cell) -> bool {
    ||| c.aim < d.aim
    ||| c.aim == d.aim && c.speed < d.speed
    ||| c.aim == d.aim && c.speed == d.speed && c.strike < d.strike
}

/// A search goes through its cells by aim, then by speed, then by strike: that is the
/// order of their places, and no two cells share a place.
pub proof fn law_cells_are_in_order(g: Grid, c: Cell, d: Cell)
    requires
        g.holds(c),
        g.holds(d),
    ensures
        g.place(c) < g.place(d) <==> comes_before(c, d),
        g.place(c) == g.place(d) ==> c == d,
        0 <= g.place(c) < g.size(),
{
    let (b, n) = (g.speeds as int, g.strikes as int);
    let row_c = c.aim * b + c.speed;
    let row_d = d.aim * b + d.speed;
    lemma_place_order(c.aim as int, c.speed as int, d.aim as int, d.speed as int, b);
    lemma_place_order(row_c, c.strike as int, row_d, d.strike as int, n);
    assert(0 <= row_c < g.aims * b) by (nonlinear_arith)
        requires
            row_c == c.aim * b + c.speed,
            0 <= c.aim < g.aims,
            0 <= c.speed < b,
    ;
    assert(0 <= row_c * n + c.strike < g.aims * b * n) by (nonlinear_arith)
        requires
            0 <= row_c < g.aims * b,
            0 <= c.strike < n,
    ;
}

/// Two digits to the base `n` are ordered by the first, then by the second.
proof fn lemma_place_order(a: int, i: int, b: int, j: int, n: int)
    requires
        0 <= i < n,
        0 <= j < n,
    ensures
        a * n + i < b * n + j <==> a < b || (a == b && i < j),
        a * n + i == b * n + j <==> a == b && i == j,
{
    if a < b {
        assert(a * n + i < b * n + j) by (nonlinear_arith)
            requires
                a + 1 <= b,
                0 <= i < n,
                0 <= j < n,
        ;
    } else if b < a {
        assert(b * n + j < a * n + i) by (nonlinear_arith)
            requires
                b + 1 <= a,
                0 <= i < n,
                0 <= j < n,
        ;
    }
}

} // verus!
