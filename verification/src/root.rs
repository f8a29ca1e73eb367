//! Square roots of `Num`, rounded once.

use crate::arith;
use crate::num::{Num, NAN_BITS, SIGN_BIT};
use crate::rounding;
use vstd::arithmetic::div_mod::*;
use vstd::arithmetic::mul::*;
use vstd::arithmetic::power2::*;
use vstd::prelude::*;

verus! {

/// `s` is the integer part of the square root of `n`.
pub open spec fn is_isqrt(n: nat, s: nat) -> bool {
    s * s <= n < (s + 1) * (s + 1)
}

/// The integer part of the square root.
pub open spec fn isqrt(n: nat) -> nat {
    choose|s: nat| is_isqrt(n, s)
}

/// An integer square root is unique.
pub proof fn lemma_isqrt(n: nat, s: nat)
    requires
        is_isqrt(n, s),
    ensures
        isqrt(n) == s,
{
    let t = isqrt(n);
    assert(is_isqrt(n, t));
    if t < s {
        assert((t + 1) * (t + 1) <= s * s) by (nonlinear_arith)
            requires
                t + 1 <= s,
        ;
    } else if s < t {
        assert((s + 1) * (s + 1) <= t * t) by (nonlinear_arith)
            requires
                s + 1 <= t,
        ;
    }
}

/// Twice the square root of `n`, with the odd values standing for "strictly between".
pub open spec fn twice_sqrt(n: nat) -> nat {
    let s = isqrt(n);
    if s * s == n {
        2 * s
    } else {
        2 * s + 1
    }
}

/// Twice a square root does not exceed twice the root of a greater square.
pub proof fn lemma_twice_sqrt_below(n: nat, s: nat)
    requires
        n <= s * s,
    ensures
        twice_sqrt(n) <= 2 * s,
{
    let t = lemma_isqrt_exists(n);
    lemma_isqrt(n, t);
    if t > s {
        assert(s * s < t * t) by (nonlinear_arith)
            requires
                s < t,
        ;
    }
}

/// Twice a square root does not fall where the number grows.
pub proof fn lemma_twice_sqrt_monotone(a: nat, b: nat)
    requires
        a <= b,
    ensures
        twice_sqrt(a) <= twice_sqrt(b),
{
    let (s, t) = (lemma_isqrt_exists(a), lemma_isqrt_exists(b));
    lemma_isqrt(a, s);
    lemma_isqrt(b, t);
    if t < s {
        assert((t + 1) * (t + 1) <= s * s) by (nonlinear_arith)
            requires
                t + 1 <= s,
        ;
    }
}

impl Num {
    /// The square root, rounded once; NaN below zero, and a zero is its own root.
    ///
    /// In units of 2^-1074 the root of `size` is the root of `size * 2^1074`.
    /// Its fraction never ends on a rounding boundary, so it may be taken as
    /// one half wherever it is not zero.
    #[verifier::opaque]
    pub open spec fn fsqrt(self) -> Num {
        if self.nan() {
            Num::of(NAN_BITS)
        } else if self.mag() == 0 {
            self
        } else if self.negative() {
            Num::of(NAN_BITS)
        } else if self.infinite() {
            self
        } else {
            Num::nearest(false, twice_sqrt(self.size() * pow2(1074)), 2)
        }
    }

    /// The square root, rounded once.
    pub fn sqrt(self) -> (r: Num)
        ensures
            r == self.fsqrt(),
    {
        proof {
            reveal(Num::fsqrt);
        }
        if self.is_nan() {
            Num::of(NAN_BITS)
        } else if self.magnitude() == 0 {
            self
        } else if self.bits >= SIGN_BIT {
            Num::of(NAN_BITS)
        } else if !self.is_finite() {
            self
        } else {
            sqrt_finite(self)
        }
    }
}

/// The integer part of the square root of a machine integer.
fn isqrt_u128(n: u128) -> (s: u128)
    requires
        n < pow2(126),
    ensures
        s < pow2(63),
        is_isqrt(n as nat, s as nat),
{
    let mut s: u128 = 0;
    let mut b: u32 = 63;
    proof {
        lemma2_to64_rest();
        lemma_pow2_adds(63, 63);
    }
    while b > 0
        invariant
            b <= 63,
            s + pow2(b as nat) <= pow2(63),
            s * s <= n,
            n < (s + pow2(b as nat)) * (s + pow2(b as nat)),
            pow2(63) == 0x8000_0000_0000_0000,
        decreases b,
    {
        b = b - 1;
        let w: u128 = rounding::pow2_u128(b);
        proof {
            lemma_pow2_unfold((b + 1) as nat);
        }
        let t: u128 = s + w;
        proof {
            assert(t * t < 0x8000_0000_0000_0000 * 0x8000_0000_0000_0000) by (nonlinear_arith)
                requires
                    0 <= t < 0x8000_0000_0000_0000,
            ;
        }
        if t * t <= n {
            s = t;
        }
    }
    proof {
        lemma2_to64();
    }
    s
}

/// The square root of a finite positive number.
fn sqrt_finite(a: Num) -> (r: Num)
    requires
        a.finite(),
        !a.negative(),
        a.mag() > 0,
    ensures
        r == a.fsqrt(),
{
    let (k, m) = arith::split(a);
    let (a1, z) = arith::normalize(m);
    // Units under the root: a1 * 2^e; an even shift w is taken into the radicand.
    let e: i32 = k as i32 - z as i32 + 1074;
    let w: i32 = if e % 2 == 0 {
        72
    } else {
        73
    };
    let j: i32 = (e - w) / 2;
    let pw: u128 = rounding::pow2_u128(w as u32);
    proof {
        lemma2_to64();
        lemma2_to64_rest();
        lemma_pow2_adds(64, 8);
        lemma_pow2_adds(64, 9);
        lemma_pow2_adds(53, 73);
        lemma_pow2_adds(52, 72);
        lemma_pow2_adds(64, 63);
        let (lo, hi, wlo, whi) = (pow2(52), pow2(53), pow2(72), pow2(73));
        assert(lo * wlo <= a1 * pw < hi * whi) by (nonlinear_arith)
            requires
                0 < lo <= a1 < hi,
                0 < wlo <= pw <= whi,
        {
            assert(lo * wlo <= a1 * wlo);
            assert(a1 * wlo <= a1 * pw);
            assert(a1 * pw <= a1 * whi);
            assert(a1 * whi < hi * whi);
        }
    }
    let big: u128 = (a1 as u128) * pw;
    let s: u128 = isqrt_u128(big);
    let sticky: bool = s * s != big;
    let ghost n: nat = a.size() * pow2(1074);
    proof {
        reveal(Num::fsqrt);
        // n == big * 2^(2j)
        let pj = pow2(j as nat);
        lemma_pow2_adds(j as nat, j as nat);
        lemma_pow2_adds(w as nat, (2 * j) as nat);
        lemma_pow2_adds(k as nat, 1074);
        lemma_pow2_adds((w + 2 * j) as nat, z as nat);
        let (pk, p1074, pz) = (pow2(k as nat), pow2(1074), pow2(z as nat));
        let big_n = big as nat;
        assert(n == big_n * (pj * pj)) by (nonlinear_arith)
            requires
                n == (m * pk) * p1074,
                big_n == (m * pz) * pw,
                pk * p1074 == (pw * (pj * pj)) * pz,
        {
            assert((m * pk) * p1074 == m * (pk * p1074));
            assert(((m * pz) * pw) * (pj * pj) == m * ((pw * (pj * pj)) * pz));
        }
        lemma_pow2_pos(j as nat);
        lemma_root_scaled(big_n, s as nat, pj, n);
        assert(s >= 0x2000_0000_0000_0000) by (nonlinear_arith)
            requires
                big < (s + 1) * (s + 1),
                big >= 0x10_0000_0000_0000 * 0x100_0000_0000_0000_0000,
                s >= 0,
        ;
        lemma_pow2_strictly_increases(63, 127);
        assert(pow2(0) == 1);
        assert(twice_sqrt(n) * 1 == twice_sqrt(n));
    }
    let mag: u64 = rounding::round_pack(s, j, sticky, Ghost(twice_sqrt(n)), Ghost(2));
    Num::with_sign(false, mag)
}

/// The root of a radicand scaled by a square.
proof fn lemma_root_scaled(big: nat, s: nat, pj: nat, n: nat)
    requires
        is_isqrt(big, s),
        pj > 0,
        n == big * (pj * pj),
    ensures
        s * (2 * pj) <= twice_sqrt(n) < (s + 1) * (2 * pj),
        twice_sqrt(n) == s * (2 * pj) <==> s * s == big,
{
    let q = lemma_isqrt_exists(n);
    lemma_isqrt(n, q);
    let lo = s * pj;
    let hi = (s + 1) * pj;
    assert(lo * lo <= n) by (nonlinear_arith)
        requires
            s * s <= big,
            lo == s * pj,
            n == big * (pj * pj),
    {
        assert(lo * lo == (s * s) * (pj * pj));
    }
    assert(n < hi * hi) by (nonlinear_arith)
        requires
            big < (s + 1) * (s + 1),
            hi == (s + 1) * pj,
            n == big * (pj * pj),
            pj > 0,
    {
        assert(hi * hi == ((s + 1) * (s + 1)) * (pj * pj));
        assert(pj * pj > 0);
    }
    assert(lo <= q) by (nonlinear_arith)
        requires
            lo * lo <= n,
            n < (q + 1) * (q + 1),
            lo >= 0,
            q >= 0,
    ;
    assert(q < hi) by (nonlinear_arith)
        requires
            q * q <= n,
            n < hi * hi,
            hi >= 0,
            q >= 0,
    ;
    assert(s * (2 * pj) == 2 * lo && (s + 1) * (2 * pj) == 2 * hi) by (nonlinear_arith)
        requires
            lo == s * pj,
            hi == (s + 1) * pj,
    ;
    assert(lo * lo == n <==> s * s == big) by (nonlinear_arith)
        requires
            lo == s * pj,
            n == big * (pj * pj),
            pj > 0,
    {
        assert(lo * lo == (s * s) * (pj * pj));
        assert(pj * pj > 0);
    }
    if s * s == big {
        assert(q == lo) by (nonlinear_arith)
            requires
                lo * lo == n,
                q * q <= n,
                lo <= q,
                lo >= 0,
        ;
    }
}

/// Every natural number has an integer square root.
pub proof fn lemma_isqrt_exists(n: nat) -> (s: nat)
    ensures
        is_isqrt(n, s),
    decreases n,
{
    if n == 0 {
        assert(is_isqrt(0, 0)) by (nonlinear_arith);
        0
    } else {
        let p = lemma_isqrt_exists((n - 1) as nat);
        if n < (p + 1) * (p + 1) {
            p
        } else {
            let s = p + 1;
            assert(s * s < (s + 1) * (s + 1)) by (nonlinear_arith);
            assert(is_isqrt(n, s));
            s
        }
    }
}

} // verus!
