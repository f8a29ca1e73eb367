//! Bounds by powers of two, and how the rounded operations carry them.

use crate::algebra;
use crate::arith;
use crate::consts::ZERO;
use crate::num::Num;
use crate::root;
use crate::rounding::{self, BINADE};
use vstd::arithmetic::power2::*;
use vstd::prelude::*;

verus! {

/// Two to the power of `k`.
pub open spec fn power(k: int) -> Num {
    Num::of(((1023 + k) * BINADE) as u64)
}

/// `v` is finite and at most `2^k` in absolute value.
pub open spec fn within(v: Num, k: int) -> bool {
    v.finite() && v.mag() <= power(k).mag()
}

/// Powers of two are exact.
pub proof fn lemma_power(k: int)
    requires
        -1022 <= k <= 1023,
    ensures
        power(k).finite(),
        !power(k).negative(),
        power(k).mag() == (1023 + k) * BINADE,
        power(k).size() == pow2((1074 + k) as nat),
{
    let e = 1023 + k;
    assert(0 < e * BINADE < 0x7FF0_0000_0000_0000) by (nonlinear_arith)
        requires
            1 <= e <= 2046,
            BINADE == 0x0010_0000_0000_0000,
    ;
    lemma2_to64();
    lemma2_to64_rest();
    let mag = power(k).mag();
    assert(mag == e * BINADE);
    if e == 1 {
        assert(power(k).scale() == 0);
        assert(power(k).significand() == BINADE);
        assert(pow2(0) == 1);
    } else {
        assert(mag >= 2 * BINADE) by (nonlinear_arith)
            requires
                mag == e * BINADE,
                e >= 2,
        ;
        assert(mag / (BINADE as nat) == e) by (nonlinear_arith)
            requires
                mag == e * BINADE,
                BINADE == 0x0010_0000_0000_0000,
        ;
        assert(power(k).scale() == e - 1);
        assert(power(k).significand() == BINADE) by (nonlinear_arith)
            requires
                mag == e * BINADE,
                power(k).significand() == mag - (e - 1) * BINADE,
        ;
        lemma_pow2_adds(52, (e - 1) as nat);
    }
}

/// What is within a power of two is within the greater ones.
pub proof fn lemma_within_more(v: Num, i: int, j: int)
    requires
        within(v, i),
        -1022 <= i <= j <= 1023,
    ensures
        within(v, j),
{
    lemma_power(i);
    lemma_power(j);
    assert((1023 + i) * BINADE <= (1023 + j) * BINADE) by (nonlinear_arith)
        requires
            i <= j,
            BINADE == 0x0010_0000_0000_0000,
    ;
}

/// The size of what is within `2^k`.
proof fn lemma_size(v: Num, k: int)
    requires
        within(v, k),
        -1022 <= k <= 1023,
    ensures
        v.size() <= pow2((1074 + k) as nat),
{
    lemma_power(k);
    algebra::lemma_mag_size(v, power(k));
}

/// A product of numbers within `2^i` and `2^j` is within their product.
pub proof fn lemma_mul_within(a: Num, b: Num, i: int, j: int)
    requires
        within(a, i),
        within(b, j),
        -1022 <= i <= 1023,
        -1022 <= j <= 1023,
        -1022 <= i + j <= 1023,
    ensures
        within(a.fmul(b), i + j),
{
    reveal(Num::fmul);
    lemma_size(a, i);
    lemma_size(b, j);
    lemma_power(i + j);
    let (x, y) = (pow2((1074 + i) as nat), pow2((1074 + j) as nat));
    let (t, p) = (pow2((1074 + i + j) as nat), pow2(1074));
    lemma_pow2_pos(1074);
    lemma_pow2_adds((1074 + i) as nat, (1074 + j) as nat);
    lemma_pow2_adds((1074 + i + j) as nat, 1074);
    let (m, n) = (a.size(), b.size());
    assert(m * n <= x * y) by (nonlinear_arith)
        requires
            m <= x,
            n <= y,
    ;
    rounding::lemma_round_monotone(m * n, t * p, p);
    algebra::lemma_round_scale(t, 1, p);
    assert(1 * p == p);
    arith::lemma_round_exact(power(i + j));
}

/// A sum of numbers within `2^k` is within twice that.
pub proof fn lemma_add_within(a: Num, b: Num, k: int)
    requires
        within(a, k),
        within(b, k),
        -1022 <= k <= 1022,
    ensures
        within(a.fadd(b), k + 1),
{
    reveal(Num::fadd);
    lemma_size(a, k);
    lemma_size(b, k);
    lemma_power(k + 1);
    lemma_pow2_unfold((1075 + k) as nat);
    arith::lemma_round_exact(power(k + 1));
    let s = a.units() + b.units();
    let t = pow2((1075 + k) as nat);
    let abs: nat = if s < 0 {
        (-s) as nat
    } else {
        s as nat
    };
    assert(abs <= t);
    rounding::lemma_round_monotone(abs, t, 1);
}

/// A quotient of a number within `2^i` by one that is at least `2^j` is within
/// their quotient.
pub proof fn lemma_div_within(a: Num, b: Num, i: int, j: int)
    requires
        within(a, i),
        b.finite(),
        power(j).mag() <= b.mag(),
        -1022 <= i <= 1023,
        -1022 <= j <= 1023,
        -1022 <= i - j <= 1023,
    ensures
        within(a.fdiv(b), i - j),
{
    reveal(Num::fdiv);
    lemma_size(a, i);
    lemma_power(j);
    lemma_power(i - j);
    algebra::lemma_mag_size(power(j), b);
    let (x, y) = (pow2((1074 + i) as nat), pow2((1074 + j) as nat));
    let (t, p) = (pow2((1074 + i - j) as nat), pow2(1074));
    lemma_pow2_pos(1074);
    lemma_pow2_pos((1074 + j) as nat);
    lemma_pow2_adds((1074 + i) as nat, 1074);
    lemma_pow2_adds((1074 + i - j) as nat, (1074 + j) as nat);
    let (m, n) = (a.size(), b.size());
    assert(m * p <= t * n) by (nonlinear_arith)
        requires
            m <= x,
            x * p == t * y,
            y <= n,
    ;
    arith::lemma_zero_size(b);
    rounding::lemma_round_monotone(m * p, t * n, n);
    algebra::lemma_round_scale(t, 1, n);
    assert(1 * n == n);
    arith::lemma_round_exact(power(i - j));
}

/// The square root of a number from zero on within `2^2k` is within `2^k`.
pub proof fn lemma_sqrt_within(a: Num, k: int)
    requires
        within(a, 2 * k),
        Num::of(ZERO).fle(a),
        -511 <= k <= 511,
    ensures
        within(a.fsqrt(), k),
        Num::of(ZERO).fle(a.fsqrt()),
{
    reveal(Num::fsqrt);
    lemma_power(k);
    lemma_power(2 * k);
    if a.mag() > 0 {
        lemma_size(a, 2 * k);
        let (s, p) = (pow2((1074 + k) as nat), pow2(1074));
        lemma_pow2_adds((1074 + k) as nat, (1074 + k) as nat);
        lemma_pow2_adds((1074 + 2 * k) as nat, 1074);
        let x = pow2((1074 + 2 * k) as nat);
        let m = a.size();
        assert(m * p <= s * s) by (nonlinear_arith)
            requires
                m <= x,
                x * p == s * s,
        ;
        root::lemma_twice_sqrt_below(m * p, s);
        rounding::lemma_round_monotone(root::twice_sqrt(m * p), s * 2, 2);
        algebra::lemma_round_scale(s, 1, 2);
        arith::lemma_round_exact(power(k));
    }
}

/// The square root of a finite number from zero on is finite.
pub proof fn lemma_sqrt_finite(a: Num)
    requires
        a.finite(),
        Num::of(ZERO).fle(a),
    ensures
        a.fsqrt().finite(),
{
    reveal(Num::fsqrt);
    lemma_power(512);
    if a.mag() > 0 {
        let (s, p, m) = (pow2(1586), pow2(1074), a.size());
        lemma2_to64_rest();
        lemma_pow2_adds(53, 2045);
        lemma_pow2_adds(1586, 1586);
        lemma_pow2_adds(2098, 1074);
        assert(a.scale() <= 2045);
        assert(a.significand() <= pow2(53));
        if a.scale() < 2045 {
            lemma_pow2_strictly_increases(a.scale(), 2045);
        }
        let (x, y, z, w) = (a.significand(), pow2(a.scale()), pow2(53), pow2(2045));
        assert(x * y <= z * w) by (nonlinear_arith)
            requires
                x <= z,
                y <= w,
        ;
        let c = pow2(2098);
        assert(m * p <= s * s) by (nonlinear_arith)
            requires
                m <= c,
                c * p == s * s,
        ;
        root::lemma_twice_sqrt_below(m * p, s);
        rounding::lemma_round_monotone(root::twice_sqrt(m * p), s * 2, 2);
        algebra::lemma_round_scale(s, 1, 2);
        arith::lemma_round_exact(power(512));
    }
}

} // verus!
