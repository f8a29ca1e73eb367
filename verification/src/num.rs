//! IEEE 754 binary64 numbers held as bit patterns, with their arithmetic
//! written over integers.
//!
//! Every operation is bit-for-bit the same on every machine: finite results
//! are the exact result rounded to nearest, ties to even.  A NaN result is
//! always the one quiet pattern `NAN_BITS`.

use crate::rounding::{self, BINADE, INF_MAG};
use core::cmp::Ordering;
use vstd::arithmetic::div_mod::*;
use vstd::arithmetic::mul::*;
use vstd::arithmetic::power2::*;
use vstd::prelude::*;

verus! {

/// The sign bit.
pub const SIGN_BIT: u64 = 0x8000_0000_0000_0000;

/// The quiet NaN that every invalid operation returns.
pub const NAN_BITS: u64 = 0x7FF8_0000_0000_0000;

/// A binary64 number, by its bit pattern.
#[derive(Clone, Copy, Debug)]
pub struct Num {
    pub bits: u64,
}

impl Num {
    /// The number with the given bit pattern.
    #[verifier::allow_in_spec]
    pub fn of(bits: u64) -> Num
        returns
            (Num { bits }),
    {
        Num { bits }
    }

    /// Whether the sign bit is set.
    pub open spec fn negative(self) -> bool {
        self.bits >= SIGN_BIT
    }

    /// The pattern without its sign.
    pub open spec fn mag(self) -> nat {
        if self.bits >= SIGN_BIT {
            (self.bits - SIGN_BIT) as nat
        } else {
            self.bits as nat
        }
    }

    pub open spec fn nan(self) -> bool {
        self.mag() > INF_MAG
    }

    pub open spec fn infinite(self) -> bool {
        self.mag() == INF_MAG
    }

    pub open spec fn finite(self) -> bool {
        self.mag() < INF_MAG
    }

    /// Orders the numbers that are not NaN; both zeros have key 0.
    pub open spec fn key(self) -> int {
        if self.bits >= SIGN_BIT {
            SIGN_BIT - self.bits
        } else {
            self.bits as int
        }
    }

    /// Orders every bit pattern: negative NaN, negatives, -0, +0, positives, NaN.
    pub open spec fn rank(self) -> int {
        if self.bits >= SIGN_BIT {
            SIGN_BIT - self.bits - 1
        } else {
            self.bits as int
        }
    }

    /// The exponent of two by which the significand of a finite number is scaled.
    pub open spec fn scale(self) -> nat {
        if self.mag() < 2 * BINADE {
            0
        } else {
            (self.mag() / (BINADE as nat) - 1) as nat
        }
    }

    pub open spec fn significand(self) -> nat {
        (self.mag() - self.scale() * BINADE) as nat
    }

    /// The absolute value of a finite number, in units of 2^-1074.
    pub open spec fn size(self) -> nat {
        self.significand() * pow2(self.scale())
    }

    /// The exact value of a finite number, in units of 2^-1074.
    pub open spec fn units(self) -> int {
        if self.negative() {
            -(self.size() as int)
        } else {
            self.size() as int
        }
    }

    /// IEEE equality: NaN equals nothing, the two zeros are equal.
    pub open spec fn feq(self, other: Num) -> bool {
        !self.nan() && !other.nan() && self.key() == other.key()
    }

    /// IEEE less-than.
    pub open spec fn flt(self, other: Num) -> bool {
        !self.nan() && !other.nan() && self.key() < other.key()
    }

    /// IEEE less-or-equal.
    pub open spec fn fle(self, other: Num) -> bool {
        !self.nan() && !other.nan() && self.key() <= other.key()
    }

    /// Whether two numbers lie on opposite sides of zero.
    pub open spec fn opposes(self, other: Num) -> bool {
        let zero = Num { bits: 0 };
        self.flt(zero) && zero.flt(other) || zero.flt(self) && other.flt(zero)
    }

    /// The number with the given sign and magnitude pattern.
    pub open spec fn signed(negative: bool, mag: nat) -> Num {
        if negative {
            Num { bits: (SIGN_BIT + mag) as u64 }
        } else {
            Num { bits: mag as u64 }
        }
    }

    /// The number nearest to `n / d` units.
    pub open spec fn nearest(negative: bool, n: nat, d: nat) -> Num {
        Num::signed(negative, rounding::round_mag(n, d))
    }

    pub open spec fn fneg(self) -> Num {
        Num::signed(!self.negative(), self.mag())
    }

    pub open spec fn fabs(self) -> Num {
        Num::signed(false, self.mag())
    }

    /// The sum, rounded once.
    #[verifier::opaque]
    pub open spec fn fadd(self, other: Num) -> Num {
        if self.nan() || other.nan() {
            Num::of(NAN_BITS)
        } else if self.infinite() {
            if other.infinite() && self.negative() != other.negative() {
                Num::of(NAN_BITS)
            } else {
                self
            }
        } else if other.infinite() {
            other
        } else {
            let s = self.units() + other.units();
            if s > 0 {
                Num::nearest(false, s as nat, 1)
            } else if s < 0 {
                Num::nearest(true, (-s) as nat, 1)
            } else {
                Num::signed(self.negative() && other.negative(), 0)
            }
        }
    }

    /// The difference, rounded once.
    pub open spec fn fsub(self, other: Num) -> Num {
        self.fadd(other.fneg())
    }

    /// The product, rounded once.
    #[verifier::opaque]
    pub open spec fn fmul(self, other: Num) -> Num {
        let neg = self.negative() != other.negative();
        if self.nan() || other.nan() {
            Num::of(NAN_BITS)
        } else if self.infinite() || other.infinite() {
            if self.mag() == 0 || other.mag() == 0 {
                Num::of(NAN_BITS)
            } else {
                Num::signed(neg, INF_MAG as nat)
            }
        } else {
            Num::nearest(neg, self.size() * other.size(), pow2(1074))
        }
    }

    /// The quotient, rounded once.
    #[verifier::opaque]
    pub open spec fn fdiv(self, other: Num) -> Num {
        let neg = self.negative() != other.negative();
        if self.nan() || other.nan() {
            Num::of(NAN_BITS)
        } else if self.infinite() {
            if other.infinite() {
                Num::of(NAN_BITS)
            } else {
                Num::signed(neg, INF_MAG as nat)
            }
        } else if other.infinite() {
            Num::signed(neg, 0)
        } else if other.mag() == 0 {
            if self.mag() == 0 {
                Num::of(NAN_BITS)
            } else {
                Num::signed(neg, INF_MAG as nat)
            }
        } else {
            Num::nearest(neg, self.size() * pow2(1074), other.size())
        }
    }

    /// The greater of two numbers; the other one where one is NaN.
    pub open spec fn fmax(self, other: Num) -> Num {
        if self.nan() || self.flt(other) {
            other
        } else {
            self
        }
    }

    /// The lesser of two numbers; the other one where one is NaN.
    pub open spec fn fmin(self, other: Num) -> Num {
        if self.nan() || other.flt(self) {
            other
        } else {
            self
        }
    }

    /// The number moved into `[lo, hi]`; NaN stays.
    pub open spec fn fclamp(self, lo: Num, hi: Num) -> Num {
        if self.flt(lo) {
            lo
        } else if hi.flt(self) {
            hi
        } else {
            self
        }
    }

    pub fn is_nan(self) -> (r: bool)
        ensures
            r == self.nan(),
    {
        self.magnitude() > INF_MAG
    }

    pub fn is_finite(self) -> (r: bool)
        ensures
            r == self.finite(),
    {
        self.magnitude() < INF_MAG
    }

    pub fn magnitude(self) -> (r: u64)
        ensures
            r == self.mag(),
    {
        if self.bits >= SIGN_BIT {
            self.bits - SIGN_BIT
        } else {
            self.bits
        }
    }

    pub fn with_sign(negative: bool, mag: u64) -> (r: Num)
        requires
            mag < SIGN_BIT,
        ensures
            r == Num::signed(negative, mag as nat),
    {
        if negative {
            Num { bits: SIGN_BIT + mag }
        } else {
            Num { bits: mag }
        }
    }

    /// The number with its sign flipped.
    pub fn neg(self) -> (r: Num)
        ensures
            r == self.fneg(),
    {
        if self.bits >= SIGN_BIT {
            Num { bits: self.bits - SIGN_BIT }
        } else {
            Num { bits: self.bits + SIGN_BIT }
        }
    }

    /// The absolute value.
    pub fn abs(self) -> (r: Num)
        ensures
            r == self.fabs(),
    {
        Num { bits: self.magnitude() }
    }

    /// Whether two numbers lie on opposite sides of zero.
    pub fn is_opposite(self, other: Num) -> (r: bool)
        ensures
            r == self.opposes(other),
    {
        let zero = Num { bits: 0 };
        (self < zero && zero < other) || (zero < self && other < zero)
    }

    /// The greater of two numbers; the other one where one is NaN.
    pub fn max(self, other: Num) -> (r: Num)
        ensures
            r == self.fmax(other),
    {
        if self.is_nan() || self < other {
            other
        } else {
            self
        }
    }

    /// The lesser of two numbers; the other one where one is NaN.
    pub fn min(self, other: Num) -> (r: Num)
        ensures
            r == self.fmin(other),
    {
        if self.is_nan() || other < self {
            other
        } else {
            self
        }
    }

    /// Moves a number into `[lo, hi]`; NaN stays.
    pub fn clamp(self, lo: Num, hi: Num) -> (r: Num)
        requires
            lo.fle(hi),
        ensures
            r == self.fclamp(lo, hi),
    {
        if self < lo {
            lo
        } else if hi < self {
            hi
        } else {
            self
        }
    }

    /// Whether `self` stands before `other` in the total order of bit patterns.
    pub fn before(self, other: Num) -> (r: bool)
        ensures
            r == (self.rank() < other.rank()),
    {
        if self.bits >= SIGN_BIT {
            other.bits < SIGN_BIT || self.bits > other.bits
        } else {
            other.bits < SIGN_BIT && self.bits < other.bits
        }
    }
}

impl PartialEq for Num {
    fn eq(&self, other: &Num) -> (r: bool) {
        !self.is_nan() && !other.is_nan() && (self.bits == other.bits || (self.magnitude() == 0
            && other.magnitude() == 0))
    }
}

impl vstd::std_specs::cmp::PartialEqSpecImpl for Num {
    open spec fn obeys_eq_spec() -> bool {
        true
    }

    open spec fn eq_spec(&self, other: &Num) -> bool {
        self.feq(*other)
    }
}

impl PartialOrd for Num {
    fn partial_cmp(&self, other: &Num) -> (r: Option<Ordering>) {
        if self.is_nan() || other.is_nan() {
            None
        } else if *self == *other {
            Some(Ordering::Equal)
        } else if self.before(*other) {
            Some(Ordering::Less)
        } else {
            Some(Ordering::Greater)
        }
    }
}

impl vstd::std_specs::cmp::PartialOrdSpecImpl for Num {
    open spec fn obeys_partial_cmp_spec() -> bool {
        true
    }

    open spec fn partial_cmp_spec(&self, other: &Num) -> Option<Ordering> {
        if self.nan() || other.nan() {
            None
        } else if self.key() == other.key() {
            Some(Ordering::Equal)
        } else if self.key() < other.key() {
            Some(Ordering::Less)
        } else {
            Some(Ordering::Greater)
        }
    }
}

} // verus!
