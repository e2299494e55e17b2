//! Numbers, held as bit patterns.
//!
//! Every measured or simulated quantity is a binary64 number. The arithmetic on
//! them is done by the numeric layer around this library; what the library does
//! with a number is compare it, order it, or hand it on. For that the bit
//! pattern is enough: without its sign bit a pattern grows with the magnitude
//! of the number it encodes, so comparison is comparison of integers.

use vstd::arithmetic::power2::{lemma_pow2_adds, lemma_pow2_strictly_increases, pow2};
use vstd::prelude::*;

verus! {

/// The weight of the sign bit.
pub const SIGN: u64 = 0x8000_0000_0000_0000;

/// The magnitude of an infinity; a greater magnitude is not a number.
pub const INFINITE: u64 = 0x7FF0_0000_0000_0000;

/// Number of values of the fraction field.
pub const FRACTIONS: u64 = 0x10_0000_0000_0000;

/// The pattern of 0.
pub const ZERO: u64 = 0;

/// The pattern of 1.
pub const ONE: u64 = 0x3FF0_0000_0000_0000;

/// The pattern of -1.
pub const MINUS_ONE: u64 = 0xBFF0_0000_0000_0000;

/// The pattern of the negative infinity.
pub const MINUS_INFINITE: u64 = 0xFFF0_0000_0000_0000;

/// A binary64 number, as its bit pattern.
///
/// `==` on two values compares the patterns; the comparison of the numbers they
/// encode is [`Scalar::lt`] and its siblings.
#[derive(Clone, Copy, Debug, PartialEq, Eq, Hash, Structural)]
pub struct Scalar {
    pub bits: u64,
}

pub open spec fn spec_num(bits: u64) -> Scalar {
    Scalar { bits }
}

/// The number with the given pattern.
#[verifier::when_used_as_spec(spec_num)]
pub fn num(bits: u64) -> (s: Scalar)
    ensures
        s == spec_num(bits),
{
    Scalar { bits }
}

impl Scalar {
    /// The sign bit.
    pub open spec fn is_negative(self) -> bool {
        self.bits >= SIGN
    }

    /// The pattern without its sign bit.
    pub open spec fn magnitude(self) -> int {
        if self.bits >= SIGN {
            self.bits - SIGN
        } else {
            self.bits as int
        }
    }

    pub open spec fn nan(self) -> bool {
        self.magnitude() > INFINITE
    }

    pub open spec fn infinite(self) -> bool {
        self.magnitude() == INFINITE
    }

    pub open spec fn finite(self) -> bool {
        self.magnitude() < INFINITE
    }

    /// An integer that orders numbers: both zeros have the key 0.
    pub open spec fn key(self) -> int {
        if self.is_negative() {
            -self.magnitude()
        } else {
            self.magnitude()
        }
    }

    /// An integer that orders all patterns: -NaN < -inf < ... < -0 < +0 < ... < inf < NaN.
    pub open spec fn rank(self) -> int {
        if self.is_negative() {
            -self.magnitude() - 1
        } else {
            self.magnitude()
        }
    }

    pub open spec fn less(self, other: Scalar) -> bool {
        !self.nan() && !other.nan() && self.key() < other.key()
    }

    pub open spec fn at_most(self, other: Scalar) -> bool {
        !self.nan() && !other.nan() && self.key() <= other.key()
    }

    pub open spec fn same(self, other: Scalar) -> bool {
        !self.nan() && !other.nan() && self.key() == other.key()
    }

    /// The number without its sign.
    pub open spec fn unsigned(self) -> Scalar {
        Scalar { bits: self.magnitude() as u64 }
    }

    /// The number with the opposite sign.
    pub open spec fn opposite(self) -> Scalar {
        if self.is_negative() {
            Scalar { bits: (self.bits - SIGN) as u64 }
        } else {
            Scalar { bits: (self.bits + SIGN) as u64 }
        }
    }

    /// The greater of two numbers; a NaN gives way to the other one.
    pub open spec fn greater_of(self, other: Scalar) -> Scalar {
        if self.nan() || self.less(other) {
            other
        } else {
            self
        }
    }

    /// The lesser of two numbers; a NaN gives way to the other one.
    pub open spec fn lesser_of(self, other: Scalar) -> Scalar {
        if self.nan() || other.less(self) {
            other
        } else {
            self
        }
    }

    /// The number moved into `[lo, hi]`; a NaN stays.
    pub open spec fn clamped(self, lo: Scalar, hi: Scalar) -> Scalar {
        if self.less(lo) {
            lo
        } else if hi.less(self) {
            hi
        } else {
            self
        }
    }

    /// What a finite pattern encodes, counted in units of the smallest positive
    /// number (2 to the power -1074).
    pub open spec fn units(self) -> int {
        if self.is_negative() {
            -units_of(self.magnitude())
        } else {
            units_of(self.magnitude())
        }
    }

    pub fn from_bits(bits: u64) -> (s: Scalar)
        ensures
            s.bits == bits,
    {
        Scalar { bits }
    }

    /// The numeric order key.
    pub fn order_key(self) -> (k: i64)
        ensures
            k == self.key(),
    {
        if self.bits >= SIGN {
            -((self.bits - SIGN) as i64)
        } else {
            self.bits as i64
        }
    }

    /// The total-order key.
    pub fn rank_key(self) -> (k: i64)
        ensures
            k == self.rank(),
    {
        if self.bits >= SIGN {
            -((self.bits - SIGN) as i64) - 1
        } else {
            self.bits as i64
        }
    }

    pub fn is_nan(self) -> (r: bool)
        ensures
            r == self.nan(),
    {
        self.abs().bits > INFINITE
    }

    pub fn is_infinite(self) -> (r: bool)
        ensures
            r == self.infinite(),
    {
        self.abs().bits == INFINITE
    }

    pub fn is_finite(self) -> (r: bool)
        ensures
            r == self.finite(),
    {
        self.abs().bits < INFINITE
    }

    pub fn abs(self) -> (r: Scalar)
        ensures
            r == self.unsigned(),
            r.bits == self.magnitude(),
    {
        if self.bits >= SIGN {
            Scalar { bits: self.bits - SIGN }
        } else {
            self
        }
    }

    pub fn neg(self) -> (r: Scalar)
        ensures
            r == self.opposite(),
            r.key() == -self.key(),
            r.nan() == self.nan(),
    {
        if self.bits >= SIGN {
            Scalar { bits: self.bits - SIGN }
        } else {
            Scalar { bits: self.bits + SIGN }
        }
    }

    pub fn lt(self, other: Scalar) -> (r: bool)
        ensures
            r == self.less(other),
    {
        if self.is_nan() || other.is_nan() {
            return false;
        }
        let a: u64 = self.abs().bits;
        let b: u64 = other.abs().bits;
        if self.bits >= SIGN {
            if other.bits >= SIGN {
                b < a
            } else {
                a > 0 || b > 0
            }
        } else if other.bits >= SIGN {
            false
        } else {
            a < b
        }
    }

    pub fn le(self, other: Scalar) -> (r: bool)
        ensures
            r == self.at_most(other),
    {
        !self.is_nan() && !other.is_nan() && !other.lt(self)
    }

    pub fn gt(self, other: Scalar) -> (r: bool)
        ensures
            r == other.less(self),
    {
        other.lt(self)
    }

    pub fn ge(self, other: Scalar) -> (r: bool)
        ensures
            r == other.at_most(self),
    {
        other.le(self)
    }

    /// Equality of the numbers: the two zeros are equal, a NaN equals nothing.
    pub fn equals(self, other: Scalar) -> (r: bool)
        ensures
            r == self.same(other),
    {
        self.le(other) && other.le(self)
    }

    /// Whether `self` stands before `other` in the order of all patterns.
    pub fn ranks_before(self, other: Scalar) -> (r: bool)
        ensures
            r == (self.rank() < other.rank()),
    {
        if self.bits >= SIGN {
            other.bits < SIGN || other.bits < self.bits
        } else {
            other.bits < SIGN && self.bits < other.bits
        }
    }

    pub fn max(self, other: Scalar) -> (r: Scalar)
        ensures
            r == self.greater_of(other),
    {
        if self.is_nan() || self.lt(other) {
            other
        } else {
            self
        }
    }

    pub fn min(self, other: Scalar) -> (r: Scalar)
        ensures
            r == self.lesser_of(other),
    {
        if self.is_nan() || other.lt(self) {
            other
        } else {
            self
        }
    }

    pub fn clamp(self, lo: Scalar, hi: Scalar) -> (r: Scalar)
        requires
            lo.at_most(hi),
        ensures
            r == self.clamped(lo, hi),
            !self.nan() ==> lo.at_most(r) && r.at_most(hi),
    {
        if self.lt(lo) {
            lo
        } else if hi.lt(self) {
            hi
        } else {
            self
        }
    }
}

/// The value of a sign-free finite pattern in units of 2 to the power -1074: the
/// fraction field, with a leading one unless the exponent field is zero, shifted
/// by the exponent.
pub open spec fn units_of(magnitude: int) -> int {
    let exponent = magnitude / (FRACTIONS as int);
    let fraction = magnitude % (FRACTIONS as int);
    if exponent <= 0 {
        fraction
    } else {
        (FRACTIONS + fraction) * pow2((exponent - 1) as nat)
    }
}

proof fn lemma_units_grow(a: int, b: int)
    requires
        0 <= a < b,
    ensures
        0 <= units_of(a) < units_of(b),
{
    let f = FRACTIONS as int;
    let ea = a / f;
    let eb = b / f;
    assert(ea <= eb) by (nonlinear_arith)
        requires
            0 <= a < b,
            f == 0x10_0000_0000_0000,
            ea == a / f,
            eb == b / f,
    ;
    assert(0 <= ea);
    assert(0 <= a % f < f && 0 <= b % f < f);
    assert(pow2(0) == 1) by {
        vstd::arithmetic::power2::lemma2_to64();
    }
    if ea == eb {
        assert(a % f < b % f) by (nonlinear_arith)
            requires
                a < b,
                f == 0x10_0000_0000_0000,
                a / f == b / f,
        ;
        if ea > 0 {
            let p = pow2((ea - 1) as nat) as int;
            vstd::arithmetic::power2::lemma_pow2_pos((ea - 1) as nat);
            let x = f + a % f;
            let y = f + b % f;
            assert(0 <= x * p < y * p) by (nonlinear_arith)
                requires
                    0 <= x < y,
                    p > 0,
            ;
        }
    } else {
        let q = pow2((eb - 1) as nat) as int;
        vstd::arithmetic::power2::lemma_pow2_pos((eb - 1) as nat);
        let y = f + b % f;
        assert(y * q >= f * q) by (nonlinear_arith)
            requires
                y >= f,
                q > 0,
        ;
        if ea == 0 {
            assert(f * q >= f) by (nonlinear_arith)
                requires
                    q >= 1,
                    f > 0,
            ;
        } else {
            let p = pow2((ea - 1) as nat) as int;
            vstd::arithmetic::power2::lemma_pow2_pos((ea - 1) as nat);
            assert(2 * p <= q) by {
                lemma_pow2_adds(1, (ea - 1) as nat);
                vstd::arithmetic::power2::lemma2_to64();
                if ea < eb - 1 {
                    lemma_pow2_strictly_increases(ea as nat, (eb - 1) as nat);
                }
            }
            let x = f + a % f;
            assert(0 <= x * p && x * p < f * q) by (nonlinear_arith)
                requires
                    0 <= x < 2 * f,
                    f > 0,
                    p > 0,
                    2 * p <= q,
            ;
        }
    }
}

/// Comparing finite numbers by their keys is comparing the values they encode.
pub proof fn law_order_is_numeric(a: Scalar, b: Scalar)
    requires
        a.finite(),
        b.finite(),
    ensures
        a.less(b) <==> a.units() < b.units(),
        a.at_most(b) <==> a.units() <= b.units(),
        a.same(b) <==> a.units() == b.units(),
{
    let ma = a.magnitude();
    let mb = b.magnitude();
    if ma < mb {
        lemma_units_grow(ma, mb);
    } else if mb < ma {
        lemma_units_grow(mb, ma);
    }
    if ma > 0 {
        lemma_units_grow(0, ma);
    }
    if mb > 0 {
        lemma_units_grow(0, mb);
    }
    assert(units_of(0) == 0);
}

/// The order of all patterns refines the numeric order: it agrees with it
/// wherever two numbers differ, and it is strict between different patterns.
pub proof fn law_rank_refines_order(a: Scalar, b: Scalar)
    ensures
        a.less(b) ==> a.rank() < b.rank(),
        a.rank() == b.rank() ==> a == b,
{
}

/// Infinities bound the finite numbers, and what is not a number compares with nothing.
pub proof fn law_infinities_bound(a: Scalar, b: Scalar)
    ensures
        a.finite() ==> a.less(num(INFINITE)) && num(MINUS_INFINITE).less(a),
        a.nan() ==> !a.less(b) && !b.less(a) && !a.at_most(b) && !b.at_most(a) && !a.same(b)
            && !b.same(a),
        !a.nan() && !b.nan() ==> (a.less(b) <==> !b.at_most(a)) && (a.same(b) <==> a.at_most(b)
            && b.at_most(a)),
        a.nan() || a.infinite() || a.finite(),
        !(a.nan() && a.infinite()) && !(a.nan() && a.finite()) && !(a.infinite() && a.finite()),
{
}

/// The greater of two numbers is one of them and neither is above it; the lesser is one of
/// them and neither is below it. What is not a number gives way.
pub proof fn law_greater_and_lesser(a: Scalar, b: Scalar)
    ensures
        a.greater_of(b) == a || a.greater_of(b) == b,
        !a.nan() && !b.nan() ==> a.at_most(a.greater_of(b)) && b.at_most(a.greater_of(b)),
        a.lesser_of(b) == a || a.lesser_of(b) == b,
        !a.nan() && !b.nan() ==> a.lesser_of(b).at_most(a) && a.lesser_of(b).at_most(b),
        a.nan() ==> a.greater_of(b) == b && a.lesser_of(b) == b,
        b.nan() ==> a.greater_of(b) == a && a.lesser_of(b) == a || a.nan(),
{
}

/// A number that is moved into a range is in it, stays where it was inside, and else goes to
/// the nearer end.
pub proof fn law_clamped_is_inside(x: Scalar, lo: Scalar, hi: Scalar)
    requires
        lo.at_most(hi),
    ensures
        !x.nan() ==> lo.at_most(x.clamped(lo, hi)) && x.clamped(lo, hi).at_most(hi),
        lo.at_most(x) && x.at_most(hi) ==> x.clamped(lo, hi) == x,
        x.less(lo) ==> x.clamped(lo, hi) == lo,
        hi.less(x) ==> x.clamped(lo, hi) == hi,
        x.nan() ==> x.clamped(lo, hi) == x,
{
}

/// The opposite of a finite number is its negative, and without its sign it is its absolute
/// value.
pub proof fn law_signs(a: Scalar)
    requires
        a.finite(),
    ensures
        a.opposite().units() == -a.units(),
        a.unsigned().units() == if a.units() < 0 {
            -a.units()
        } else {
            a.units()
        },
        a.opposite().opposite() == a,
        a.unsigned().finite() && a.opposite().finite(),
{
    let m = a.magnitude();
    if m > 0 {
        lemma_units_grow(0, m);
    }
    assert(units_of(0) == 0);
    assert(a.opposite().magnitude() == m);
    assert(a.unsigned().magnitude() == m);
}

/// In the order of all patterns, what is not a number stands outside all numbers: above them
/// without the sign, below them with it; and the negative zero stands before the positive.
pub proof fn law_rank_of_no_numbers(a: Scalar, b: Scalar)
    requires
        a.nan(),
        !b.nan(),
    ensures
        a.is_negative() ==> a.rank() < b.rank(),
        !a.is_negative() ==> b.rank() < a.rank(),
        num(SIGN).rank() < num(ZERO).rank(),
{
}

/// One is one: as many units as two to the power 1074.
pub proof fn law_units_of_one()
    ensures
        num(ONE).units() == pow2(1074),
        num(MINUS_ONE).units() == -pow2(1074),
        num(ZERO).units() == 0,
{
    let m = num(ONE).magnitude();
    assert(m == 0x3FF0_0000_0000_0000);
    assert(m / (FRACTIONS as int) == 1023 && m % (FRACTIONS as int) == 0);
    lemma_pow2_adds(52, 1022);
    vstd::arithmetic::power2::lemma2_to64();
    lemma_pow2_adds(32, 20);
    assert(0x1_0000_0000 * 0x10_0000 == FRACTIONS) by (nonlinear_arith);
    assert(pow2(52) == FRACTIONS);
    assert(num(MINUS_ONE).magnitude() == m);
    assert(num(ZERO).magnitude() == 0);
}

} // verus!
