//! Integral parts of `Num`, and conversions from and to machine integers.

use crate::arith;
use crate::num::{Num, SIGN_BIT};
use crate::rounding;
use vstd::arithmetic::div_mod::*;
use vstd::arithmetic::mul::*;
use vstd::arithmetic::power2::*;
use vstd::prelude::*;

verus! {

impl Num {
    /// The number nearest to a natural number.
    #[verifier::opaque]
    pub open spec fn whole(negative: bool, n: nat) -> Num {
        Num::nearest(negative, n * pow2(1074), 1)
    }

    /// The integer part of the absolute value of a finite number.
    pub open spec fn int_part(self) -> nat {
        self.size() / pow2(1074)
    }

    /// The fractional part of the absolute value of a finite number, in units.
    pub open spec fn frac_part(self) -> nat {
        self.size() % pow2(1074)
    }

    /// The greatest integer not above; the sign of a zero is kept.
    pub open spec fn ffloor(self) -> Num {
        if !self.finite() {
            self
        } else if self.negative() && self.frac_part() > 0 {
            Num::whole(true, self.int_part() + 1)
        } else {
            Num::whole(self.negative(), self.int_part())
        }
    }

    /// The least integer not below; the sign of a zero is kept.
    pub open spec fn fceil(self) -> Num {
        if !self.finite() {
            self
        } else if !self.negative() && self.frac_part() > 0 {
            Num::whole(false, self.int_part() + 1)
        } else {
            Num::whole(self.negative(), self.int_part())
        }
    }

    /// The nearest integer, halves away from zero; the sign of a zero is kept.
    pub open spec fn fround(self) -> Num {
        if !self.finite() {
            self
        } else if 2 * self.frac_part() >= pow2(1074) {
            Num::whole(self.negative(), self.int_part() + 1)
        } else {
            Num::whole(self.negative(), self.int_part())
        }
    }

    /// The nearest number to an unsigned integer.
    pub fn from_u64(n: u64) -> (r: Num)
        ensures
            r == Num::whole(false, n as nat),
    {
        whole_of(false, n)
    }

    /// The nearest number to a signed integer.
    pub fn from_i64(n: i64) -> (r: Num)
        ensures
            r == (if n < 0 {
                Num::whole(true, (-n) as nat)
            } else {
                Num::whole(false, n as nat)
            }),
    {
        if n < 0 {
            let m: u64 = if n == i64::MIN {
                0x8000_0000_0000_0000
            } else {
                (-n) as u64
            };
            whole_of(true, m)
        } else {
            whole_of(false, n as u64)
        }
    }

    /// The integer part, saturating at the bounds; 0 for NaN.
    pub open spec fn trunc_u64(self) -> u64 {
        if self.nan() || self.negative() {
            0
        } else if self.infinite() || self.int_part() > u64::MAX {
            u64::MAX
        } else {
            self.int_part() as u64
        }
    }

    /// The integer part, saturating at the bounds; 0 for NaN.
    pub fn to_u64(self) -> (r: u64)
        ensures
            r == self.trunc_u64(),
    {
        if self.is_nan() || self.bits >= SIGN_BIT {
            0
        } else if !self.is_finite() {
            u64::MAX
        } else {
            match int_frac(self) {
                Some((q, _)) => q,
                None => u64::MAX,
            }
        }
    }

    /// The integer part toward zero, saturating at the bounds; 0 for NaN.
    pub open spec fn trunc_i64(self) -> i64 {
        if self.nan() {
            0
        } else if self.negative() {
            if self.infinite() || self.int_part() > 0x8000_0000_0000_0000 {
                i64::MIN
            } else {
                (-(self.int_part() as int)) as i64
            }
        } else if self.infinite() || self.int_part() > i64::MAX {
            i64::MAX
        } else {
            self.int_part() as i64
        }
    }

    /// The integer part toward zero, saturating at the bounds; 0 for NaN.
    pub fn to_i64(self) -> (r: i64)
        ensures
            r == self.trunc_i64(),
    {
        if self.is_nan() {
            return 0;
        }
        let neg: bool = self.bits >= SIGN_BIT;
        let size: u64 = if !self.is_finite() {
            u64::MAX
        } else {
            match int_frac(self) {
                Some((q, _)) => q,
                None => u64::MAX,
            }
        };
        if neg {
            if size >= 0x8000_0000_0000_0000 {
                i64::MIN
            } else {
                -(size as i64)
            }
        } else if size > 0x7FFF_FFFF_FFFF_FFFF {
            i64::MAX
        } else {
            size as i64
        }
    }

    /// The greatest integer not above.
    pub fn floor(self) -> (r: Num)
        ensures
            r == self.ffloor(),
    {
        if !self.is_finite() {
            return self;
        }
        let neg: bool = self.bits >= SIGN_BIT;
        match int_frac(self) {
            Some((q, c)) if q < 0x20_0000_0000_0000 => if neg && c > 0 {
                whole_of(true, q + 1)
            } else {
                whole_of(neg, q)
            },
            _ => {
                proof {
                    lemma2_to64_rest();
                    lemma_pow2_pos(1074);
                    lemma_already_whole(self);
                }
                self
            },
        }
    }

    /// The least integer not below.
    pub fn ceil(self) -> (r: Num)
        ensures
            r == self.fceil(),
    {
        if !self.is_finite() {
            return self;
        }
        let neg: bool = self.bits >= SIGN_BIT;
        match int_frac(self) {
            Some((q, c)) if q < 0x20_0000_0000_0000 => if !neg && c > 0 {
                whole_of(false, q + 1)
            } else {
                whole_of(neg, q)
            },
            _ => {
                proof {
                    lemma2_to64_rest();
                    lemma_pow2_pos(1074);
                    lemma_already_whole(self);
                }
                self
            },
        }
    }

    /// The nearest integer, halves away from zero.
    pub fn round(self) -> (r: Num)
        ensures
            r == self.fround(),
    {
        if !self.is_finite() {
            return self;
        }
        let neg: bool = self.bits >= SIGN_BIT;
        match int_frac(self) {
            Some((q, c)) if q < 0x20_0000_0000_0000 => if c >= 2 {
                whole_of(neg, q + 1)
            } else {
                whole_of(neg, q)
            },
            _ => {
                proof {
                    lemma2_to64_rest();
                    lemma_pow2_pos(1074);
                    lemma_already_whole(self);
                }
                self
            },
        }
    }
}

/// The number nearest to a machine integer, with a sign.
fn whole_of(negative: bool, n: u64) -> (r: Num)
    ensures
        r == Num::whole(negative, n as nat),
{
    let ghost x: nat = n as nat * pow2(1074);
    proof {
        reveal(Num::whole);
        lemma2_to64();
        lemma_pow2_pos(1074);
        lemma_pow2_strictly_increases(64, 127);
        if n == 0 {
            arith::lemma_round_zero(1);
            assert(x == 0);
        }
        let p = pow2(1074);
        assert(n * (1 * p) == n * p);
        assert((n + 1) * p == n * p + p) by (nonlinear_arith);
        assert(x * 1 == x);
    }
    if n == 0 {
        Num::with_sign(negative, 0)
    } else {
        let mag: u64 = rounding::round_pack(n as u128, 1074, false, Ghost(x), Ghost(1));
        Num::with_sign(negative, mag)
    }
}

/// The integer part of a finite number and the kind of its fraction: 0 for
/// none, 1 for less than a half, 2 for a half or more.  `None` where the
/// integer part does not fit.
fn int_frac(a: Num) -> (r: Option<(u64, u8)>)
    requires
        a.finite(),
    ensures
        match r {
            Some((q, c)) => {
                &&& q == a.int_part()
                &&& c > 0 <==> a.frac_part() > 0
                &&& c >= 2 <==> 2 * a.frac_part() >= pow2(1074)
            },
            None => a.int_part() > u64::MAX,
        },
{
    let (k, m) = arith::split(a);
    proof {
        lemma2_to64();
        lemma2_to64_rest();
        lemma_pow2_pos(1074);
        lemma_pow2_pos(k as nat);
    }
    if k >= 1074 {
        let u: u32 = k - 1074;
        proof {
            lemma_int_frac_high(m as nat, k as nat);
        }
        if u <= 11 {
            let w: u128 = rounding::pow2_u128(u);
            proof {
                lemma_pow2_strictly_increases(u as nat, 12);
                assert(m * w < 0x20_0000_0000_0000 * 0x1000) by (nonlinear_arith)
                    requires
                        0 <= m < 0x20_0000_0000_0000,
                        0 <= w < 0x1000,
                ;
                assert(m * w <= 0x20_0000_0000_0000 * 0x800 - 1) by (nonlinear_arith)
                    requires
                        0 <= m <= 0x20_0000_0000_0000 - 1,
                        0 <= w <= 0x800,
                {
                    assert(m * w <= (0x20_0000_0000_0000 - 1) * w);
                    assert((0x20_0000_0000_0000 - 1) * w <= (0x20_0000_0000_0000 - 1) * 0x800);
                }
            }
            Some(((m as u128 * w) as u64, 0))
        } else {
            proof {
                if u > 12 {
                    lemma_pow2_strictly_increases(12, u as nat);
                }
                let w = pow2(u as nat);
                assert(m * w >= 0x10_0000_0000_0000 * 0x1000) by (nonlinear_arith)
                    requires
                        m >= 0x10_0000_0000_0000,
                        w >= 0x1000,
                ;
            }
            None
        }
    } else {
        let t: u32 = 1074 - k;
        proof {
            lemma_int_frac_low(m as nat, k as nat, t as nat);
            lemma_pow2_pos(t as nat);
        }
        if t >= 64 {
            proof {
                if t > 64 {
                    lemma_pow2_strictly_increases(64, t as nat);
                }
                lemma_small_mod(m as nat, pow2(t as nat));
                lemma_basic_div(m as int, pow2(t as nat) as int);
            }
            Some((0, if m == 0 {
                0
            } else {
                1
            }))
        } else {
            let w: u128 = rounding::pow2_u128(t);
            let q: u64 = m >> (t as u64);
            let rem: u128 = (m as u128) % w;
            proof {
                vstd::bits::lemma_u64_shr_is_div(m, t as u64);
                lemma_pow2_strictly_increases(t as nat, 64);
            }
            let c: u8 = if rem == 0 {
                0
            } else if 2 * rem >= w {
                2
            } else {
                1
            };
            Some((q, c))
        }
    }
}

/// A significand scaled to 1 or more has no fraction.
proof fn lemma_int_frac_high(m: nat, k: nat)
    requires
        k >= 1074,
    ensures
        (m * pow2(k)) / pow2(1074) == m * pow2((k - 1074) as nat),
        (m * pow2(k)) % pow2(1074) == 0,
{
    lemma_pow2_pos(1074);
    lemma_pow2_adds((k - 1074) as nat, 1074);
    let (a, b) = (pow2((k - 1074) as nat), pow2(1074));
    let q = m * a;
    assert(m * (a * b) == q * b) by (nonlinear_arith)
        requires
            q == m * a,
    ;
    lemma_fundamental_div_mod_converse((q * b) as int, b as int, q as int, 0);
}

/// Integer part and fraction of a significand scaled below 1.
proof fn lemma_int_frac_low(m: nat, k: nat, t: nat)
    requires
        k + t == 1074,
    ensures
        (m * pow2(k)) / pow2(1074) == m / pow2(t),
        ((m * pow2(k)) % pow2(1074) > 0) == (m % pow2(t) > 0),
        (2 * ((m * pow2(k)) % pow2(1074)) >= pow2(1074)) == (2 * (m % pow2(t)) >= pow2(t)),
{
    lemma_pow2_pos(k);
    lemma_pow2_pos(t);
    lemma_pow2_adds(t, k);
    let (a, b, c) = (pow2(t), pow2(k), pow2(1074));
    let q = m / a;
    let r = m % a;
    lemma_fundamental_div_mod(m as int, a as int);
    lemma_mod_bound(m as int, a as int);
    assert(m * b == q * c + r * b) by (nonlinear_arith)
        requires
            m == a * q + r,
            c == a * b,
    ;
    assert(0 <= r * b < c) by (nonlinear_arith)
        requires
            0 <= r < a,
            b > 0,
            c == a * b,
    ;
    lemma_fundamental_div_mod_converse((m * b) as int, c as int, q as int, (r * b) as int);
    assert((r * b > 0) == (r > 0)) by (nonlinear_arith)
        requires
            b > 0,
            r >= 0,
    ;
    assert((2 * (r * b) >= c) == (2 * r >= a)) by (nonlinear_arith)
        requires
            b > 0,
            c == a * b,
    ;
}

/// From 2^53 on every number is an integer.
pub proof fn lemma_already_whole(a: Num)
    requires
        a.finite(),
        a.int_part() >= pow2(53),
    ensures
        a.frac_part() == 0,
        Num::whole(a.negative(), a.int_part()) == a,
{
    lemma2_to64_rest();
    lemma_pow2_pos(1074);
    let (k, m) = (a.scale(), a.significand());
    if k < 1074 {
        let t = (1074 - k) as nat;
        lemma_int_frac_low(m, k, t);
        lemma_pow2_pos(t);
        lemma_div_is_ordered_by_denominator(m as int, 1, pow2(t) as int);
        lemma_div_basics(m as int);
    } else {
        lemma_int_frac_high(m, k);
        lemma_fundamental_div_mod(a.size() as int, pow2(1074) as int);
        lemma_mul_is_commutative(a.int_part() as int, pow2(1074) as int);
        reveal(Num::whole);
        arith::lemma_round_exact(a);
    }
}

/// Greater natural numbers have nearest numbers at least as great.
pub proof fn lemma_whole_order(a: nat, b: nat)
    requires
        a <= b,
    ensures
        Num::whole(false, a).fle(Num::whole(false, b)),
        !Num::whole(false, a).negative(),
{
    reveal(Num::whole);
    let p = pow2(1074);
    assert(a * p <= b * p) by (nonlinear_arith)
        requires
            a <= b,
            p >= 0,
    ;
    rounding::lemma_round_monotone(a * p, b * p, 1);
}

/// The number of binary digits of a positive natural number.
proof fn lemma_digits(n: nat) -> (l: nat)
    requires
        n > 0,
    ensures
        l >= 1,
        pow2((l - 1) as nat) <= n < pow2(l),
    decreases n,
{
    lemma2_to64();
    if n == 1 {
        1
    } else {
        let h = lemma_digits(n / 2);
        lemma_pow2_unfold(h);
        lemma_pow2_unfold(h + 1);
        h + 1
    }
}

/// Natural numbers below 2^53 are numbers.
pub proof fn lemma_whole_exact(n: nat)
    requires
        n < pow2(53),
    ensures
        Num::whole(false, n).finite(),
        !Num::whole(false, n).negative(),
        Num::whole(false, n).size() == n * pow2(1074),
        Num::whole(false, n).int_part() == n,
        Num::whole(false, n).frac_part() == 0,
{
    reveal(Num::whole);
    let p = pow2(1074);
    let x = n * p;
    let a = Num::whole(false, n);
    lemma_pow2_pos(1074);
    lemma2_to64();
    lemma2_to64_rest();
    if n == 0 {
        arith::lemma_round_zero(1);
        assert(x == 0);
        assert(a.bits == 0);
        assert(a.size() == 0 * pow2(0));
    } else {
        let l = lemma_digits(n);
        if l > 53 {
            if l > 54 {
                lemma_pow2_strictly_increases(53, (l - 1) as nat);
            }
            assert(false);
        }
        let k = (1021 + l) as nat;
        let z = (53 - l) as nat;
        lemma_pow2_adds(l, 1074);
        lemma_pow2_adds((l - 1) as nat, 1074);
        lemma_pow2_adds(l, z);
        lemma_pow2_adds((l - 1) as nat, z);
        lemma_pow2_adds(z, k);
        lemma_pow2_pos(k);
        lemma_pow2_pos(z);
        let (lo, hi, pz, pk) = (pow2((l - 1) as nat), pow2(l), pow2(z), pow2(k));
        let m = n * pz;
        assert(lo * p <= x < hi * p) by (nonlinear_arith)
            requires
                lo <= n < hi,
                x == n * p,
                p > 0,
        ;
        assert(lo * pz <= m < hi * pz) by (nonlinear_arith)
            requires
                lo <= n < hi,
                m == n * pz,
                pz > 0,
        ;
        assert(x == m * pk) by (nonlinear_arith)
            requires
                x == n * p,
                m == n * pz,
                p == pz * pk,
        ;
        rounding::lemma_scale(x, 1, k);
        lemma_fundamental_div_mod_converse(x as int, pk as int, m as int, 0);
        assert(a.mag() == k * 0x10_0000_0000_0000 + m);
        assert(a.scale() == k);
        assert(a.significand() == m);
    }
    lemma_fundamental_div_mod_converse(x as int, p as int, n as int, 0);
}

/// The integer part does not fall where the number grows.
pub proof fn lemma_int_part_monotone(a: Num, b: Num)
    requires
        a.finite(),
        b.finite(),
        !a.negative(),
        a.fle(b),
    ensures
        a.int_part() <= b.int_part(),
{
    arith::lemma_zero_size(a);
    arith::lemma_order_is_exact(a, b);
    lemma_pow2_pos(1074);
    lemma_div_is_ordered(a.size() as int, b.size() as int, pow2(1074) as int);
}

/// A number between two small natural numbers has its integer part between them.
pub proof fn lemma_int_part_between(x: Num, lo: nat, hi: nat)
    requires
        lo <= hi < pow2(53),
        Num::whole(false, lo).fle(x),
        x.fle(Num::whole(false, hi)),
    ensures
        x.finite(),
        lo <= x.trunc_u64() <= hi,
{
    lemma_whole_exact(lo);
    lemma_whole_exact(hi);
    lemma2_to64_rest();
    if x.negative() {
        // Only -0 is not below the least of them.
        arith::lemma_zero_size(x);
        arith::lemma_order_is_exact(Num::whole(false, lo), x);
        lemma_pow2_pos(1074);
        assert(lo == 0) by {
            if lo > 0 {
                assert(lo * pow2(1074) > 0) by (nonlinear_arith)
                    requires
                        lo > 0,
                        pow2(1074) > 0,
                ;
            }
        }
    } else {
        lemma_int_part_monotone(x, Num::whole(false, hi));
        lemma_int_part_monotone(Num::whole(false, lo), x);
    }
}

/// Rounding keeps a number between natural numbers that it lay between.
pub proof fn lemma_round_between(x: Num, lo: nat, hi: nat)
    requires
        lo <= hi < pow2(53),
        !x.negative(),
        Num::whole(false, lo).fle(x),
        x.fle(Num::whole(false, hi)),
    ensures
        Num::whole(false, lo).fle(x.fround()),
        x.fround().fle(Num::whole(false, hi)),
{
    lemma_whole_exact(lo);
    lemma_whole_exact(hi);
    lemma_pow2_pos(1074);
    let p = pow2(1074);
    let top = Num::whole(false, hi);
    lemma_int_part_monotone(x, top);
    lemma_int_part_monotone(Num::whole(false, lo), x);
    arith::lemma_zero_size(x);
    arith::lemma_order_is_exact(x, top);
    let (q, r) = (x.int_part(), x.frac_part());
    lemma_fundamental_div_mod(x.size() as int, p as int);
    if q == hi {
        assert(r == 0) by {
            lemma_mul_is_commutative(q as int, p as int);
        }
    }
    let n: nat = if 2 * r >= p {
        q + 1
    } else {
        q
    };
    lemma_whole_order(lo, n);
    lemma_whole_order(n, hi);
}

/// The floor of a number that is at most `hi` truncates to at most `hi`.
pub proof fn lemma_floor_below(x: Num, hi: nat)
    requires
        hi < pow2(53),
        x.fle(Num::whole(false, hi)),
    ensures
        x.ffloor().trunc_u64() <= hi,
{
    lemma2_to64_rest();
    lemma_whole_exact(hi);
    if x.finite() && !x.negative() {
        lemma_int_part_monotone(x, Num::whole(false, hi));
        lemma_whole_exact(x.int_part());
    } else if x.finite() {
        reveal(Num::whole);
    }
}

} // verus!
