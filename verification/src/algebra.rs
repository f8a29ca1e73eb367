//! Laws of the rounded arithmetic: which identities of exact numbers survive
//! rounding, and that rounding keeps order.

use crate::arith;
use crate::consts::{HALF, ONE, ZERO};
use crate::integral;
use crate::num::{Num, SIGN_BIT};
use crate::root;
use crate::rounding::{self, BINADE, INF_MAG};
use crate::sums;
use vstd::arithmetic::mul::*;
use vstd::arithmetic::power2::*;
use vstd::prelude::*;

verus! {

/// Rounding sees only the ratio of numerator and denominator.
pub proof fn lemma_round_scale(n: nat, d: nat, c: nat)
    requires
        d > 0,
        c > 0,
    ensures
        rounding::round_mag(n * c, d * c) == rounding::round_mag(n, d),
{
    let k = rounding::scale_of(n, d);
    rounding::lemma_scale_bounds(n, d);
    let (hi, lo, p) = (pow2(k + 53), pow2((k + 52) as nat), pow2(k));
    lemma_pow2_pos(k);
    assert(d * c > 0) by (nonlinear_arith)
        requires
            d > 0,
            c > 0,
    ;
    assert(n * c < (d * c) * hi) by (nonlinear_arith)
        requires
            n < d * hi,
            c > 0,
    {
        assert((d * c) * hi == (d * hi) * c);
    }
    if k > 0 {
        assert(n * c >= (d * c) * lo) by (nonlinear_arith)
            requires
                n >= d * lo,
                c > 0,
        {
            assert((d * c) * lo == (d * lo) * c);
        }
    }
    rounding::lemma_scale(n * c, d * c, k);
    assert(d * p > 0) by (nonlinear_arith)
        requires
            d > 0,
            p > 0,
    ;
    rounding::lemma_nearest_scale(n, d * p, c);
    assert((d * c) * p == (d * p) * c) by (nonlinear_arith);
}

/// The pattern of a rounded signed value keeps the order.
proof fn lemma_signed_order(s: int, t: int)
    requires
        s <= t,
    ensures
        rounded(s).key() <= rounded(t).key(),
        !rounded(s).nan(),
        !rounded(t).nan(),
{
    arith::lemma_round_zero(1);
    if 0 <= s {
        rounding::lemma_round_monotone(s as nat, t as nat, 1);
    } else if t <= 0 {
        rounding::lemma_round_monotone((-t) as nat, (-s) as nat, 1);
    }
}

/// A signed number of units, rounded.
pub open spec fn rounded(s: int) -> Num {
    if s >= 0 {
        Num::nearest(false, s as nat, 1)
    } else {
        Num::nearest(true, (-s) as nat, 1)
    }
}

/// The order of a finite sum is that of its exact value, rounded.
proof fn lemma_sum_key(a: Num, b: Num)
    requires
        a.finite(),
        b.finite(),
    ensures
        a.fadd(b).key() == rounded(a.units() + b.units()).key(),
        !a.fadd(b).nan(),
{
    reveal(Num::fadd);
    arith::lemma_round_zero(1);
}

/// Adding a number does not turn an order round.
pub proof fn law_add_monotone(a: Num, b: Num, c: Num)
    requires
        a.fle(b),
        !a.fadd(c).nan(),
        !b.fadd(c).nan(),
    ensures
        a.fadd(c).fle(b.fadd(c)),
{
    if a.finite() && b.finite() && c.finite() {
        arith::lemma_order_is_exact(a, b);
        lemma_sum_key(a, c);
        lemma_sum_key(b, c);
        lemma_signed_order(a.units() + c.units(), b.units() + c.units());
    } else {
        reveal(Num::fadd);
    }
}

/// Sums do not depend on the order of the two.
pub proof fn law_add_commutes(a: Num, b: Num)
    ensures
        a.fadd(b) == b.fadd(a),
{
    reveal(Num::fadd);
}

/// Products do not depend on the order of the two.
pub proof fn law_mul_commutes(a: Num, b: Num)
    ensures
        a.fmul(b) == b.fmul(a),
{
    reveal(Num::fmul);
    lemma_mul_is_commutative(a.size() as int, b.size() as int);
}

/// Adding zero changes nothing but the sign of a zero.
pub proof fn law_add_zero(a: Num)
    requires
        !a.nan(),
    ensures
        a.fadd(Num::of(ZERO)).feq(a),
        a.bits != 0x8000_0000_0000_0000 ==> a.fadd(Num::of(ZERO)) == a,
        a.fadd(Num::of(ZERO).fneg()) == a,
{
    reveal(Num::fadd);
    if a.finite() {
        arith::lemma_zero_size(a);
        arith::lemma_zero_size(Num::of(ZERO));
        arith::lemma_zero_size(Num::of(ZERO).fneg());
        arith::lemma_round_exact(a);
    }
}

/// A finite number less itself is zero.
pub proof fn law_sub_self(a: Num)
    requires
        a.finite(),
    ensures
        a.fsub(a) == Num::of(ZERO),
{
    reveal(Num::fadd);
    assert(a.fneg().size() == a.size());
    arith::lemma_zero_size(a);
}

/// One is 2^1074 units.
pub proof fn lemma_one_size()
    ensures
        Num::of(ONE).size() == pow2(1074),
{
    lemma2_to64();
    lemma2_to64_rest();
    lemma_pow2_adds(52, 1022);
    assert(Num::of(ONE).scale() == 1022);
    assert(Num::of(ONE).significand() == pow2(52));
}

/// One less a half is a half.
pub proof fn lemma_one_less_half()
    ensures
        Num::of(ONE).fsub(Num::of(HALF)) == Num::of(HALF),
{
    reveal(Num::fadd);
    lemma_one_size();
    lemma2_to64();
    lemma2_to64_rest();
    lemma_pow2_adds(52, 1021);
    lemma_pow2_unfold(1074);
    assert(Num::of(HALF).scale() == 1021);
    assert(Num::of(HALF).significand() == pow2(52));
    assert(Num::of(HALF).size() == pow2(1073));
    assert(Num::of(HALF).fneg().size() == pow2(1073));
    lemma_pow2_pos(1073);
    arith::lemma_round_exact(Num::of(HALF));
}

/// Multiplying by one changes nothing.
pub proof fn law_mul_one(a: Num)
    requires
        !a.nan(),
    ensures
        a.fmul(Num::of(ONE)) == a,
        Num::of(ONE).fmul(a) == a,
{
    reveal(Num::fmul);
    lemma_one_size();
    lemma_pow2_pos(1074);
    if a.finite() {
        let p = pow2(1074);
        lemma_round_scale(a.size(), 1, p);
        arith::lemma_round_exact(a);
        assert(1 * p == p);
    }
    law_mul_commutes(a, Num::of(ONE));
}

/// Zero times a finite number is a zero.
pub proof fn law_zero_mul(z: Num, a: Num)
    requires
        z.mag() == 0,
        a.finite(),
    ensures
        z.fmul(a).mag() == 0,
{
    reveal(Num::fmul);
    arith::lemma_zero_size(z);
    lemma_pow2_pos(1074);
    arith::lemma_round_zero(pow2(1074));
    assert(z.size() * a.size() == 0) by (nonlinear_arith)
        requires
            z.size() == 0,
    ;
}

/// A product of finite numbers is a number; it may be infinite.
pub proof fn lemma_mul_is_number(a: Num, b: Num)
    requires
        a.finite(),
        b.finite(),
    ensures
        !a.fmul(b).nan(),
        a.negative() == b.negative() ==> !a.fmul(b).negative(),
{
    reveal(Num::fmul);
}

/// A sum of finite numbers is a number; it may be infinite.
pub proof fn lemma_add_is_number(a: Num, b: Num)
    requires
        a.finite(),
        b.finite(),
    ensures
        !a.fadd(b).nan(),
{
    reveal(Num::fadd);
}

/// The order of magnitude patterns is that of sizes.
pub proof fn lemma_mag_size(a: Num, b: Num)
    requires
        a.finite(),
        b.finite(),
        a.mag() <= b.mag(),
    ensures
        a.size() <= b.size(),
{
    if a.mag() < b.mag() {
        arith::lemma_size_order(a, b);
    }
}

/// Multiplying by a number that is not negative does not turn an order round.
pub proof fn law_mul_monotone(a: Num, b: Num, c: Num)
    requires
        a.fle(b),
        !c.negative(),
        !a.fmul(c).nan(),
        !b.fmul(c).nan(),
    ensures
        a.fmul(c).fle(b.fmul(c)),
{
    reveal(Num::fmul);
    lemma_pow2_pos(1074);
    arith::lemma_round_zero(pow2(1074));
    if a.finite() && b.finite() && c.finite() {
        arith::lemma_zero_size(a);
        arith::lemma_zero_size(b);
        let (x, y, z) = (a.size(), b.size(), c.size());
        if !a.negative() && !b.negative() {
            lemma_mag_size(a, b);
            assert(x * z <= y * z) by (nonlinear_arith)
                requires
                    x <= y,
                    z >= 0,
            ;
            rounding::lemma_round_monotone(x * z, y * z, pow2(1074));
        } else if a.negative() && b.negative() {
            lemma_mag_size(b, a);
            assert(y * z <= x * z) by (nonlinear_arith)
                requires
                    y <= x,
                    z >= 0,
            ;
            rounding::lemma_round_monotone(y * z, x * z, pow2(1074));
        } else if !a.negative() {
            assert(x == 0 && y == 0);
            assert(x * z == 0 && y * z == 0) by (nonlinear_arith)
                requires
                    x == 0,
                    y == 0,
            ;
        }
    }
}

/// Dividing by a positive number does not turn an order round.
pub proof fn law_div_monotone(a: Num, b: Num, c: Num)
    requires
        a.fle(b),
        c.finite(),
        Num::of(ZERO).flt(c),
    ensures
        a.fdiv(c).fle(b.fdiv(c)),
{
    reveal(Num::fdiv);
    lemma_pow2_pos(1074);
    arith::lemma_zero_size(c);
    arith::lemma_round_zero(c.size());
    let p = pow2(1074);
    if a.finite() && b.finite() {
        arith::lemma_zero_size(a);
        arith::lemma_zero_size(b);
        let (x, y) = (a.size(), b.size());
        if !a.negative() && !b.negative() {
            lemma_mag_size(a, b);
            assert(x * p <= y * p) by (nonlinear_arith)
                requires
                    x <= y,
                    p >= 0,
            ;
            rounding::lemma_round_monotone(x * p, y * p, c.size());
        } else if a.negative() && b.negative() {
            lemma_mag_size(b, a);
            assert(y * p <= x * p) by (nonlinear_arith)
                requires
                    y <= x,
                    p >= 0,
            ;
            rounding::lemma_round_monotone(y * p, x * p, c.size());
        } else if !a.negative() {
            assert(x * p == 0 && y * p == 0) by (nonlinear_arith)
                requires
                    x == 0,
                    y == 0,
            ;
        }
    }
}

/// A sum is at most every number that its exact value does not exceed.
pub proof fn lemma_sum_below(a: Num, b: Num, x: Num)
    requires
        a.finite(),
        b.finite(),
        x.finite(),
        a.units() + b.units() <= x.units(),
    ensures
        a.fadd(b).fle(x),
{
    lemma_sum_key(a, b);
    lemma_signed_order(a.units() + b.units(), x.units());
    arith::lemma_round_exact(x);
    arith::lemma_zero_size(x);
}

/// A sum that exceeds a number by less than half a step rounds to it.
pub proof fn lemma_sum_near(a: Num, b: Num, x: Num)
    requires
        a.finite(),
        b.finite(),
        x.finite(),
        !x.negative(),
        x.scale() > 0,
        x.units() <= a.units() + b.units(),
        2 * (a.units() + b.units() - x.units()) < pow2(x.scale()),
    ensures
        a.fadd(b) == x,
{
    reveal(Num::fadd);
    lemma2_to64();
    lemma2_to64_rest();
    let (k, m, p) = (x.scale(), x.significand(), pow2(x.scale()));
    let s = (a.units() + b.units()) as nat;
    let r = (s - x.size()) as nat;
    lemma_pow2_pos(k);
    lemma_pow2_adds(52, k);
    lemma_pow2_adds(53, k);
    assert(0x10_0000_0000_0000 <= m < 0x20_0000_0000_0000);
    assert(pow2(k + 52) <= m * p) by (nonlinear_arith)
        requires
            0x10_0000_0000_0000 <= m,
            pow2(k + 52) == 0x10_0000_0000_0000 * p,
    ;
    assert(m * p + p <= pow2(k + 53)) by (nonlinear_arith)
        requires
            m + 1 <= 0x20_0000_0000_0000,
            pow2(k + 53) == 0x20_0000_0000_0000 * p,
    ;
    rounding::lemma_scale(s, 1, k);
    assert(s == m * p + r);
    vstd::arithmetic::div_mod::lemma_fundamental_div_mod_converse(s as int, p as int, m as int, r as int);
}

/// A number over a greater positive number is not greater.
pub proof fn law_div_antitone(a: Num, b: Num, c: Num)
    requires
        a.finite(),
        Num::of(ZERO).fle(a),
        Num::of(ZERO).flt(b),
        b.fle(c),
        c.finite(),
    ensures
        a.fdiv(c).fle(a.fdiv(b)),
        Num::of(ZERO).fle(a.fdiv(c)),
{
    reveal(Num::fdiv);
    lemma_pow2_pos(1074);
    let p = pow2(1074);
    arith::lemma_zero_size(a);
    arith::lemma_zero_size(b);
    arith::lemma_zero_size(c);
    lemma_mag_size(b, c);
    let (x, y, z) = (a.size() * p, b.size(), c.size());
    arith::lemma_round_zero(y);
    arith::lemma_round_zero(z);
    assert(a.negative() ==> x == 0) by {
        if a.negative() {
            assert(a.size() * p == 0) by (nonlinear_arith)
                requires
                    a.size() == 0,
            ;
        }
    }
    lemma_round_scale(x, z, y);
    lemma_round_scale(x, y, z);
    assert(x * y <= x * z) by (nonlinear_arith)
        requires
            y <= z,
            x >= 0,
    ;
    assert(z * y == y * z) by (nonlinear_arith);
    assert(y * z > 0) by (nonlinear_arith)
        requires
            y > 0,
            z > 0,
    ;
    rounding::lemma_round_monotone(x * y, x * z, y * z);
}

/// Square roots keep the order of numbers from zero on.
pub proof fn law_sqrt_monotone(a: Num, b: Num)
    requires
        Num::of(ZERO).fle(a),
        a.fle(b),
    ensures
        a.fsqrt().fle(b.fsqrt()),
        Num::of(ZERO).fle(a.fsqrt()),
{
    reveal(Num::fsqrt);
    if a.mag() > 0 && b.finite() {
        lemma_mag_size(a, b);
        let (x, y, p) = (a.size(), b.size(), pow2(1074));
        assert(x * p <= y * p) by (nonlinear_arith)
            requires
                x <= y,
                p >= 0,
        ;
        root::lemma_twice_sqrt_monotone(x * p, y * p);
        rounding::lemma_round_monotone(root::twice_sqrt(x * p), root::twice_sqrt(y * p), 2);
    }
}

/// A quotient of a number and itself is one.
pub proof fn law_div_self(a: Num)
    requires
        a.finite(),
        a.mag() > 0,
    ensures
        a.fdiv(a) == Num::of(ONE),
{
    reveal(Num::fdiv);
    lemma_one_size();
    arith::lemma_zero_size(a);
    let p = pow2(1074);
    lemma_round_scale(p, 1, a.size());
    assert(p * a.size() == a.size() * p) by (nonlinear_arith);
    assert(1 * a.size() == a.size());
    arith::lemma_round_exact(Num::of(ONE));
}

/// Each number is less than the next one by at least its 2^53th part.
proof fn lemma_step_size(a: Num, b: Num)
    requires
        a.finite(),
        b.finite(),
        a.mag() + 1 == b.mag(),
    ensures
        a.size() * pow2(53) <= (pow2(53) - 1) * b.size(),
{
    lemma2_to64();
    lemma2_to64_rest();
    let (m, n, p, q) = (a.significand(), b.significand(), pow2(a.scale()), pow2(b.scale()));
    lemma_pow2_pos(a.scale());
    if a.scale() == b.scale() {
        assert((m * p) * pow2(53) <= (pow2(53) - 1) * (n * q)) by (nonlinear_arith)
            requires
                p == q,
                p > 0,
                n == m + 1,
                n <= pow2(53),
        {
            assert((m * p) * pow2(53) == (m * pow2(53)) * p);
            assert((pow2(53) - 1) * (n * q) == ((pow2(53) - 1) * n) * p);
            assert(m * pow2(53) <= (pow2(53) - 1) * n);
        }
    } else {
        lemma_pow2_unfold(b.scale());
        assert((m * p) * pow2(53) <= (pow2(53) - 1) * (n * q)) by (nonlinear_arith)
            requires
                q == 2 * p,
                m == pow2(53) - 1,
                2 * n == pow2(53),
        {
            assert((m * p) * pow2(53) == ((pow2(53) - 1) * pow2(53)) * p);
            assert((pow2(53) - 1) * (n * q) == ((pow2(53) - 1) * (2 * n)) * p);
        }
    }
}

/// Adding a finite number to a number gives a number.
pub proof fn lemma_add_finite(a: Num, b: Num)
    requires
        !a.nan(),
        b.finite(),
    ensures
        !a.fadd(b).nan(),
        !b.fadd(a).nan(),
{
    if a.finite() {
        lemma_add_is_number(a, b);
        lemma_add_is_number(b, a);
    } else {
        reveal(Num::fadd);
    }
}

/// A number over a finite one that is not zero is a number.
pub proof fn lemma_div_finite(a: Num, b: Num)
    requires
        !a.nan(),
        b.finite(),
        b.mag() > 0,
    ensures
        !a.fdiv(b).nan(),
{
    reveal(Num::fdiv);
    arith::lemma_zero_size(b);
    arith::lemma_round_zero(b.size());
}

/// A square is a number from zero on.
pub proof fn lemma_square(a: Num)
    requires
        !a.nan(),
    ensures
        Num::of(ZERO).fle(a.fmul(a)),
        !a.fmul(a).negative(),
{
    if a.finite() {
        lemma_mul_is_number(a, a);
    } else {
        reveal(Num::fmul);
    }
}

/// Numbers whose double is finite.
pub open spec fn halvable(a: Num) -> bool {
    a.mag() + BINADE < INF_MAG
}

/// Half of the double of a number is the number.
proof fn lemma_half_of_double(a: Num)
    requires
        halvable(a),
    ensures
        a.fadd(a).finite(),
        Num::of(HALF).fmul(a.fadd(a)).feq(a),
{
    reveal(Num::fadd);
    reveal(Num::fmul);
    arith::lemma_zero_size(a);
    if a.mag() > 0 {
        let double = Num {
            bits: (if a.negative() {
                SIGN_BIT as nat
            } else {
                0
            } + if a.mag() < BINADE {
                2 * a.mag()
            } else {
                a.mag() + BINADE as nat
            }) as u64,
        };
        assert(double.size() == 2 * a.size()) by {
            if a.mag() < BINADE {
                assert(double.scale() == 0 && a.scale() == 0);
                lemma2_to64();
            } else {
                assert(double.scale() == a.scale() + 1) by (nonlinear_arith)
                    requires
                        double.mag() == a.mag() + BINADE,
                        a.mag() >= BINADE,
                        BINADE == 0x10_0000_0000_0000,
                        a.scale() == (if a.mag() < 2 * BINADE {
                            0
                        } else {
                            a.mag() / (BINADE as nat) - 1
                        }),
                        double.scale() == double.mag() / (BINADE as nat) - 1,
                ;
                lemma_pow2_unfold(a.scale() + 1);
                let (m, p) = (a.significand(), pow2(a.scale()));
                assert(double.significand() == m);
                assert(m * (2 * p) == 2 * (m * p)) by (nonlinear_arith);
            }
        }
        arith::lemma_round_exact(double);
        arith::lemma_round_exact(a);
        assert(a.fadd(a) == double);
        lemma2_to64();
        lemma2_to64_rest();
        lemma_pow2_adds(52, 1021);
        lemma_pow2_unfold(1074);
        lemma_pow2_pos(1074);
        let (h, x, p) = (pow2(1073), a.size(), pow2(1074));
        assert(Num::of(HALF).scale() == 1021);
        assert(Num::of(HALF).significand() == pow2(52));
        assert(h * (2 * x) == x * p) by (nonlinear_arith)
            requires
                p == 2 * h,
        ;
        lemma_round_scale(x, 1, p);
        assert(1 * p == p);
    } else {
        let z = a.fadd(a);
        arith::lemma_zero_size(z);
        assert(Num::of(HALF).size() * 0 == 0);
        lemma_pow2_pos(1074);
        arith::lemma_round_zero(pow2(1074));
    }
}

/// The middle of two numbers lies between them.
pub proof fn law_middle_lies_between(lo: Num, hi: Num)
    requires
        halvable(lo),
        halvable(hi),
        lo.fle(hi),
    ensures
        lo.fle(Num::of(HALF).fmul(lo.fadd(hi))),
        Num::of(HALF).fmul(lo.fadd(hi)).fle(hi),
{
    let half = Num::of(HALF);
    let (x, y, z) = (lo.fadd(lo), lo.fadd(hi), hi.fadd(hi));
    lemma_half_of_double(lo);
    lemma_half_of_double(hi);
    lemma_add_is_number(lo, hi);
    law_add_commutes(lo, hi);
    law_add_monotone(lo, hi, lo);
    law_add_monotone(lo, hi, hi);
    lemma_mul_is_number(x, half);
    lemma_mul_is_number(y, half);
    lemma_mul_is_number(z, half);
    law_mul_commutes(half, x);
    law_mul_commutes(half, y);
    law_mul_commutes(half, z);
    law_mul_monotone(x, y, half);
    law_mul_monotone(y, z, half);
}

/// A factor of the opposite sign turns the sign of a product.
pub proof fn law_mul_neg(a: Num, b: Num)
    requires
        !a.fmul(b).nan(),
    ensures
        a.fmul(b.fneg()) == a.fmul(b).fneg(),
        b.fneg().fmul(a) == b.fmul(a).fneg(),
{
    reveal(Num::fmul);
    law_mul_commutes(a, b);
    law_mul_commutes(b.fneg(), a);
    assert(b.fneg().size() == b.size());
}

/// A number over a greater number is less than one.
pub proof fn law_div_below_one(a: Num, b: Num)
    requires
        Num::of(ZERO).fle(a),
        a.flt(b),
        b.finite(),
    ensures
        a.fdiv(b).flt(Num::of(ONE)),
{
    reveal(Num::fdiv);
    lemma_one_size();
    lemma2_to64();
    lemma2_to64_rest();
    arith::lemma_zero_size(a);
    arith::lemma_zero_size(b);
    let below = Num { bits: (b.mag() - 1) as u64 };
    let top = Num { bits: (ONE - 1) as u64 };
    lemma_mag_size(a, below);
    lemma_step_size(below, b);
    lemma_pow2_adds(53, 1021);
    assert(top.scale() == 1021 && top.significand() == pow2(53) - 1);
    let (x, y, p, h) = (a.size(), b.size(), pow2(1074), pow2(1021));
    assert(x * p <= top.size() * y) by (nonlinear_arith)
        requires
            x <= below.size(),
            below.size() * pow2(53) <= (pow2(53) - 1) * y,
            p == pow2(53) * h,
            top.size() == (pow2(53) - 1) * h,
            h >= 0,
    {
        assert(x * p <= below.size() * p);
        assert(below.size() * p == (below.size() * pow2(53)) * h);
        assert((below.size() * pow2(53)) * h <= ((pow2(53) - 1) * y) * h);
        assert(((pow2(53) - 1) * y) * h == top.size() * y);
    }
    rounding::lemma_round_monotone(x * p, top.size() * y, y);
    lemma_round_scale(top.size(), 1, y);
    assert(1 * y == y);
    arith::lemma_round_exact(top);
}

/// A positive count is a positive number.
pub proof fn lemma_whole_positive(n: nat)
    requires
        0 < n < pow2(53),
    ensures
        Num::of(ZERO).flt(Num::whole(false, n)),
        Num::whole(false, n).mag() > 0,
{
    integral::lemma_whole_exact(n);
    lemma_pow2_pos(1074);
    let p = pow2(1074);
    assert(n * p > 0) by (nonlinear_arith)
        requires
            n > 0,
            p > 0,
    ;
    arith::lemma_zero_size(Num::whole(false, n));
}

/// Zero over a positive number is zero.
pub proof fn lemma_zero_over(z: Num, b: Num)
    requires
        z.finite(),
        z.size() == 0,
        b.finite(),
        Num::of(ZERO).flt(b),
    ensures
        z.fdiv(b).mag() == 0,
{
    reveal(Num::fdiv);
    arith::lemma_zero_size(b);
    arith::lemma_round_zero(b.size());
    let p = pow2(1074);
    assert(z.size() * p == 0) by (nonlinear_arith)
        requires
            z.size() == 0,
    ;
}

/// A sum of numbers that are not negative is not negative.
pub proof fn lemma_add_not_negative(a: Num, b: Num)
    requires
        !a.nan(),
        !a.negative(),
        !b.nan(),
        !b.negative(),
    ensures
        !a.fadd(b).nan(),
        !a.fadd(b).negative(),
        a.fle(a.fadd(b)),
        b.fle(a.fadd(b)),
{
    reveal(Num::fadd);
    let zero = Num::of(ZERO);
    law_add_commutes(zero, a);
    law_add_commutes(zero, b);
    law_add_commutes(a, b);
    law_add_zero(a);
    law_add_zero(b);
    law_add_monotone(zero, b, a);
    law_add_monotone(zero, a, b);
}

/// A product of a number that is not negative and a positive finite one is not negative.
pub proof fn lemma_mul_not_negative(a: Num, b: Num)
    requires
        !a.nan(),
        !a.negative(),
        b.finite(),
        !b.negative(),
        b.mag() > 0,
    ensures
        !a.fmul(b).nan(),
        !a.fmul(b).negative(),
{
    reveal(Num::fmul);
}

/// Adding a zero of either sign keeps a value.
pub proof fn lemma_add_any_zero(a: Num, z: Num)
    requires
        !a.nan(),
        z.mag() == 0,
    ensures
        a.fadd(z).feq(a),
{
    law_add_zero(a);
    if !z.negative() {
        assert(z == Num::of(ZERO));
    } else {
        assert(z == Num::of(ZERO).fneg());
    }
}

/// The difference of two finite numbers in order is not negative, but for a
/// negative zero.
pub proof fn lemma_rise(a: Num, b: Num)
    requires
        a.finite(),
        b.finite(),
        a.fle(b),
    ensures
        !b.fsub(a).nan(),
        !b.fsub(a).negative() || b.fsub(a).mag() == 0,
        Num::of(ZERO).fle(b.fsub(a)),
{
    reveal(Num::fadd);
    arith::lemma_order_is_exact(a, b);
    assert(a.fneg().size() == a.size());
    arith::lemma_zero_size(a);
    arith::lemma_zero_size(b);
}

/// A factor that is zero or more, up to the sign of a zero, does not turn an
/// order round.
pub proof fn lemma_scale_order(a: Num, b: Num, c: Num)
    requires
        a.fle(b),
        !c.negative() || c.mag() == 0,
        !a.fmul(c).nan(),
        !b.fmul(c).nan(),
    ensures
        a.fmul(c).fle(b.fmul(c)),
{
    if !c.negative() {
        law_mul_monotone(a, b, c);
    } else {
        if a.finite() {
            law_zero_mul(c, a);
            law_mul_commutes(a, c);
        }
        if b.finite() {
            law_zero_mul(c, b);
            law_mul_commutes(b, c);
        }
        reveal(Num::fmul);
    }
}

/// A weight times a factor between -1 and 1 is at most the weight.
pub proof fn lemma_weighted(w: Num, v: Num)
    requires
        w.finite(),
        !w.negative(),
        Num::of(ONE).fneg().fle(v),
        v.fle(Num::of(ONE)),
    ensures
        w.fmul(v).finite(),
        w.fmul(v).mag() <= w.mag(),
        Num::of(ZERO).fle(v) ==> Num::of(ZERO).fle(w.fmul(v)),
{
    let one = Num::of(ONE);
    law_mul_commutes(w, v);
    law_mul_one(w);
    lemma_mul_is_number(v, w);
    lemma_mul_is_number(one.fneg(), w);
    law_mul_monotone(v, one, w);
    law_mul_monotone(one.fneg(), v, w);
    assert(one.fneg().fmul(w) == w.fneg()) by {
        reveal(Num::fmul);
        assert(one.fneg().size() == one.size());
    }
    if Num::of(ZERO).fle(v) {
        law_zero_mul(Num::of(ZERO), w);
        law_mul_monotone(Num::of(ZERO), v, w);
    }
}

/// A sum of parts that are at most `x` and `y` is at most `x + y`.
pub proof fn lemma_bounded_sum(a: Num, b: Num, x: Num, y: Num)
    requires
        a.finite(),
        b.finite(),
        x.finite(),
        y.finite(),
        !x.negative(),
        !y.negative(),
        a.mag() <= x.mag(),
        b.mag() <= y.mag(),
    ensures
        a.fadd(b).mag() <= x.fadd(y).mag(),
        !a.fadd(b).nan(),
{
    sums::lemma_abs_of_sum(a, b, x);
    lemma_add_is_number(x, y);
    law_add_commutes(x, b.fabs());
    law_add_commutes(x, y);
    law_add_monotone(b.fabs(), y, x);
    lemma_add_not_negative(x, y);
}

/// A sum of numbers from zero on is not below zero.
pub proof fn lemma_sum_from_zero(a: Num, b: Num)
    requires
        a.finite(),
        b.finite(),
        Num::of(ZERO).fle(a),
        Num::of(ZERO).fle(b),
    ensures
        Num::of(ZERO).fle(a.fadd(b)),
{
    let zero = Num::of(ZERO);
    lemma_add_is_number(b, a);
    lemma_add_is_number(zero, a);
    law_add_commutes(zero, a);
    law_add_commutes(b, a);
    law_add_zero(a);
    law_add_monotone(zero, b, a);
}

/// Not a number, or not below zero.
pub open spec fn no_less_than_zero(v: Num) -> bool {
    v.nan() || Num::of(ZERO).fle(v)
}

/// Sums of numbers from zero on, and of NaN, are of the same kind.
pub proof fn lemma_add_kind(a: Num, b: Num)
    requires
        no_less_than_zero(a),
        no_less_than_zero(b),
    ensures
        no_less_than_zero(a.fadd(b)),
{
    reveal(Num::fadd);
    if a.finite() && b.finite() {
        lemma_sum_from_zero(a, b);
    }
}

/// So are products.
pub proof fn lemma_mul_kind(a: Num, b: Num)
    requires
        no_less_than_zero(a),
        no_less_than_zero(b),
    ensures
        no_less_than_zero(a.fmul(b)),
{
    reveal(Num::fmul);
    if a.finite() && b.finite() {
        law_mul_commutes(a, b);
        if a.mag() == 0 {
            law_zero_mul(a, b);
        } else if b.mag() == 0 {
            law_zero_mul(b, a);
        }
    }
}

/// So are quotients by positive numbers.
pub proof fn lemma_div_kind(a: Num, b: Num)
    requires
        no_less_than_zero(a),
        b.nan() || Num::of(ZERO).flt(b),
    ensures
        no_less_than_zero(a.fdiv(b)),
{
    if a.finite() && b.finite() {
        law_div_antitone(a, b, b);
    } else {
        reveal(Num::fdiv);
    }
}

/// A running sum that starts at zero never has a sign.
pub proof fn lemma_add_sign(a: Num, b: Num)
    requires
        a.nan() || !a.negative(),
        no_less_than_zero(b),
    ensures
        a.fadd(b).nan() || !a.fadd(b).negative(),
        a.fadd(b).nan() <==> a.nan() || b.nan(),
{
    reveal(Num::fadd);
    if b.finite() {
        arith::lemma_zero_size(b);
    }
}

/// A number over one is the number.
pub proof fn law_div_one(a: Num)
    requires
        a.finite(),
    ensures
        a.fdiv(Num::of(ONE)) == a,
{
    reveal(Num::fdiv);
    lemma_one_size();
    lemma_pow2_pos(1074);
    let p = pow2(1074);
    lemma_round_scale(a.size(), 1, p);
    assert(1 * p == p);
    arith::lemma_round_exact(a);
}

/// A part of a count over the count lies between 0 and 1.
pub proof fn lemma_fraction(k: nat, n: nat)
    requires
        k <= n,
        0 < n < pow2(53),
    ensures
        Num::of(ZERO).fle(Num::whole(false, k).fdiv(Num::whole(false, n))),
        Num::whole(false, k).fdiv(Num::whole(false, n)).fle(Num::of(ONE)),
{
    lemma2_to64_rest();
    let (a, b) = (Num::whole(false, k), Num::whole(false, n));
    integral::lemma_whole_exact(n);
    integral::lemma_whole_exact(k);
    integral::lemma_whole_exact(0);
    integral::lemma_whole_order(k, n);
    integral::lemma_whole_order(0, k);
    lemma_whole_positive(n);
    law_div_monotone(a, b, b);
    law_div_self(b);
    law_div_monotone(Num::whole(false, 0), a, b);
    lemma_zero_over(Num::whole(false, 0), b);
}

/// The point `t` of the way from `a` to `b`.
pub open spec fn blend(a: Num, b: Num, t: Num) -> Num {
    a.fadd(t.fmul(b.fsub(a)))
}

/// Two finite numbers in order whose way from one to the other does not round
/// beyond its end.
pub open spec fn sound_gap(a: Num, b: Num) -> bool {
    gap(a, b) && a.fadd(b.fsub(a)).fle(b)
}

/// Two finite numbers in order, a finite way apart.
pub open spec fn gap(a: Num, b: Num) -> bool {
    a.finite() && b.finite() && a.fle(b) && b.fsub(a).finite()
}

/// A point on the way is not below its start, a later one is not lower, and
/// none is above the last.
pub proof fn lemma_blend_rises(a: Num, b: Num, s: Num, t: Num)
    requires
        gap(a, b),
        Num::of(ZERO).fle(s),
        s.fle(t),
        t.fle(Num::of(ONE)),
    ensures
        a.fle(blend(a, b, s)),
        blend(a, b, s).fle(blend(a, b, t)),
        blend(a, b, t).fle(a.fadd(b.fsub(a))),
{
    let rise = b.fsub(a);
    let (zero, one) = (Num::of(ZERO), Num::of(ONE));
    lemma_rise(a, b);
    lemma_mul_is_number(s, rise);
    lemma_mul_is_number(t, rise);
    lemma_mul_is_number(zero, rise);
    law_mul_one(rise);
    lemma_scale_order(zero, s, rise);
    lemma_scale_order(s, t, rise);
    lemma_scale_order(t, one, rise);
    law_zero_mul(zero, rise);
    let (x, y, z) = (s.fmul(rise), t.fmul(rise), zero.fmul(rise));
    assert(x.finite() && y.finite()) by {
        assert(z.fle(x) && x.fle(y) && y.fle(rise));
    }
    lemma_add_is_number(x, a);
    lemma_add_is_number(y, a);
    lemma_add_is_number(z, a);
    lemma_add_is_number(rise, a);
    law_add_commutes(a, x);
    law_add_commutes(a, y);
    law_add_commutes(a, z);
    law_add_commutes(a, rise);
    law_add_monotone(z, x, a);
    law_add_monotone(x, y, a);
    law_add_monotone(y, rise, a);
    lemma_add_any_zero(a, z);
}

/// A point on the way lies between the ends, and a later one is not lower.
pub proof fn lemma_blend(a: Num, b: Num, s: Num, t: Num)
    requires
        sound_gap(a, b),
        Num::of(ZERO).fle(s),
        s.fle(t),
        t.fle(Num::of(ONE)),
    ensures
        a.fle(blend(a, b, s)),
        blend(a, b, s).fle(blend(a, b, t)),
        blend(a, b, t).fle(b),
{
    lemma_blend_rises(a, b, s, t);
}

/// Sums of natural numbers are exact.
pub proof fn lemma_whole_add(a: nat, b: nat)
    requires
        a + b < pow2(53),
    ensures
        Num::whole(false, a).fadd(Num::whole(false, b)) == Num::whole(false, a + b),
{
    reveal(Num::fadd);
    integral::lemma_whole_exact(a);
    integral::lemma_whole_exact(b);
    integral::lemma_whole_exact(a + b);
    let (x, y, z) = (Num::whole(false, a), Num::whole(false, b), Num::whole(false, a + b));
    let p = pow2(1074);
    assert(a * p + b * p == (a + b) * p) by (nonlinear_arith);
    arith::lemma_round_exact(z);
    arith::lemma_zero_size(z);
}

/// Products of natural numbers are exact.
pub proof fn lemma_whole_mul(a: nat, b: nat)
    requires
        a < pow2(53),
        b < pow2(53),
        a * b < pow2(53),
    ensures
        Num::whole(false, a).fmul(Num::whole(false, b)) == Num::whole(false, a * b),
{
    reveal(Num::fmul);
    integral::lemma_whole_exact(a);
    integral::lemma_whole_exact(b);
    integral::lemma_whole_exact(a * b);
    let z = Num::whole(false, a * b);
    let p = pow2(1074);
    lemma_pow2_pos(1074);
    assert((a * p) * (b * p) == ((a * b) * p) * p) by (nonlinear_arith);
    lemma_round_scale((a * b) * p, 1, p);
    assert(1 * p == p);
    arith::lemma_round_exact(z);
}

/// A multiple of a natural number over it is exact.
pub proof fn lemma_whole_ratio(a: nat, b: nat)
    requires
        a < pow2(53),
        0 < b < pow2(53),
        a * b < pow2(53),
    ensures
        Num::whole(false, a * b).fdiv(Num::whole(false, b)) == Num::whole(false, a),
{
    reveal(Num::fdiv);
    integral::lemma_whole_exact(a);
    integral::lemma_whole_exact(b);
    integral::lemma_whole_exact(a * b);
    lemma_whole_positive(b);
    let z = Num::whole(false, a);
    let p = pow2(1074);
    lemma_pow2_pos(1074);
    assert(b * p > 0) by (nonlinear_arith)
        requires
            b > 0,
            p > 0,
    ;
    assert(((a * b) * p) * p == (a * p) * (b * p)) by (nonlinear_arith);
    lemma_round_scale(a * p, 1, b * p);
    assert(1 * (b * p) == b * p);
    arith::lemma_round_exact(z);
}

/// A sum of finite numbers that are not greater is not greater.
pub proof fn lemma_sum_order(x: Num, y: Num, a: Num, b: Num)
    requires
        x.finite() && y.finite() && a.finite() && b.finite(),
        x.fle(a),
        y.fle(b),
    ensures
        x.fadd(y).fle(a.fadd(b)),
{
    lemma_add_is_number(x, y);
    lemma_add_is_number(a, y);
    lemma_add_is_number(y, a);
    lemma_add_is_number(b, a);
    law_add_monotone(x, a, y);
    law_add_commutes(a, y);
    law_add_commutes(a, b);
    law_add_monotone(y, b, a);
}

/// A weight times a number that is not greater is not greater.
pub proof fn lemma_weight_order(w: Num, x: Num, y: Num)
    requires
        w.finite(),
        !w.negative(),
        x.finite() && y.finite(),
        x.fle(y),
    ensures
        w.fmul(x).fle(w.fmul(y)),
{
    lemma_mul_is_number(x, w);
    lemma_mul_is_number(y, w);
    law_mul_monotone(x, y, w);
    law_mul_commutes(w, x);
    law_mul_commutes(w, y);
}

} // verus!
