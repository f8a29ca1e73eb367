//! Exact values of numbers and the error of one rounding.

use crate::arith;
use crate::consts::ZERO;
use crate::integral;
use crate::num::Num;
use crate::root;
use crate::rounding::{self, BINADE};
use vstd::arithmetic::div_mod::*;
use vstd::arithmetic::power2::*;
use vstd::prelude::*;

verus! {

/// 2^1074: how many units make one.
pub open spec fn one_units() -> real {
    pow2(1074) as int as real
}

impl Num {
    /// The exact value of a finite number.
    #[verifier::opaque]
    pub open spec fn exact(self) -> real {
        self.units() as real / one_units()
    }
}

/// Relative error of one rounding: 2^-53.
pub open spec fn eps() -> real {
    1real / (0x20_0000_0000_0000int as real)
}

/// Half of a unit: the error of one rounding near zero.
pub open spec fn tiny() -> real {
    1real / (2real * one_units())
}

/// Absolute value.
pub open spec fn rabs(x: real) -> real {
    if x >= 0real {
        x
    } else {
        -x
    }
}

/// The size of a rounded fraction is the nearest multiple of its step.
proof fn lemma_round_size(negative: bool, n: nat, d: nat)
    requires
        d > 0,
        Num::nearest(negative, n, d).finite(),
    ensures
        ({
            let k = rounding::scale_of(n, d);
            let m = rounding::nearest_even(n, d * pow2(k));
            &&& Num::nearest(negative, n, d).size() == m * pow2(k)
            &&& Num::nearest(negative, n, d).negative() == negative
        }),
{
    let k = rounding::scale_of(n, d);
    let p = pow2(k);
    let q = d * p;
    let m = rounding::nearest_even(n, q);
    let r = Num::nearest(negative, n, d);
    rounding::lemma_scale_bounds(n, d);
    lemma_pow2_pos(k);
    lemma2_to64();
    lemma2_to64_rest();
    lemma_pow2_adds(k, 53);
    assert(q > 0) by (nonlinear_arith)
        requires
            d > 0,
            p > 0,
            q == d * p,
    ;
    lemma_fundamental_div_mod(n as int, q as int);
    lemma_mod_bound(n as int, q as int);
    let f = n / q;
    assert(m <= 0x20_0000_0000_0000) by {
        assert(f < 0x20_0000_0000_0000) by (nonlinear_arith)
            requires
                n < d * (p * 0x20_0000_0000_0000),
                q == d * p,
                q > 0,
                q * f <= n,
        ;
    }
    if k > 0 {
        lemma_pow2_adds(k, 52);
        assert(f >= 0x10_0000_0000_0000) by (nonlinear_arith)
            requires
                n >= d * (p * 0x10_0000_0000_0000),
                q == d * p,
                q > 0,
                n < q * f + q,
        ;
    }
    assert(r.mag() == k * (BINADE as nat) + m);
    if m < 0x20_0000_0000_0000 {
        assert(r.scale() == k) by (nonlinear_arith)
            requires
                r.mag() == k * (BINADE as nat) + m,
                BINADE == 0x10_0000_0000_0000,
                k > 0 ==> m >= 0x10_0000_0000_0000,
                m < 0x20_0000_0000_0000,
                r.scale() == (if r.mag() < 2 * BINADE {
                    0
                } else {
                    r.mag() / (BINADE as nat) - 1
                }),
        ;
        assert(r.significand() == m);
    } else {
        assert(r.scale() == k + 1) by (nonlinear_arith)
            requires
                r.mag() == k * (BINADE as nat) + m,
                BINADE == 0x10_0000_0000_0000,
                m == 0x20_0000_0000_0000,
                r.scale() == (if r.mag() < 2 * BINADE {
                    0
                } else {
                    r.mag() / (BINADE as nat) - 1
                }),
        ;
        lemma_pow2_unfold(k + 1);
        assert(r.significand() == BINADE);
        assert(0x10_0000_0000_0000 * (2 * p) == 0x20_0000_0000_0000 * p) by (nonlinear_arith);
    }
}

/// A rounded fraction is off by at most 2^-53 of it or half a unit.
pub proof fn lemma_round_error(negative: bool, n: nat, d: nat)
    requires
        d > 0,
        Num::nearest(negative, n, d).finite(),
    ensures
        ({
            let e = Num::nearest(negative, n, d).size() * d - n;
            let a = if e >= 0 {
                e
            } else {
                -e
            };
            2 * a <= d || a * 0x20_0000_0000_0000 <= n
        }),
        Num::nearest(negative, n, d).negative() == negative,
{
    lemma_round_size(negative, n, d);
    let k = rounding::scale_of(n, d);
    let p = pow2(k);
    let q = d * p;
    let m = rounding::nearest_even(n, q);
    rounding::lemma_scale_bounds(n, d);
    lemma_pow2_pos(k);
    lemma2_to64();
    lemma2_to64_rest();
    assert(q > 0) by (nonlinear_arith)
        requires
            d > 0,
            p > 0,
            q == d * p,
    ;
    lemma_fundamental_div_mod(n as int, q as int);
    lemma_mod_bound(n as int, q as int);
    assert((m * p) * d == q * m) by (nonlinear_arith)
        requires
            q == d * p,
    ;
    assert(q * (n / q + 1) == q * (n / q) + q) by (nonlinear_arith);
    let e = q * m - n;
    assert(2 * e <= q && -q <= 2 * e);
    if k > 0 {
        lemma_pow2_adds(k, 52);
        assert(q * 0x10_0000_0000_0000 <= n) by (nonlinear_arith)
            requires
                n >= d * (p * 0x10_0000_0000_0000),
                q == d * p,
        ;
    } else {
        assert(q == d) by (nonlinear_arith)
            requires
                p == 1,
                q == d * p,
        ;
    }
}

/// Products of integers are exact.
pub proof fn lemma_real_mul(a: int, b: int)
    by (nonlinear_arith)
    ensures
        (a * b) as real == (a as real) * (b as real),
{
}

/// The error of a rounded fraction, in units.
proof fn lemma_error_units(r: nat, n: nat, d: nat)
    requires
        d > 0,
        ({
            let e = r * d - n;
            let a = if e >= 0 {
                e
            } else {
                -e
            };
            2 * a <= d || a * 0x20_0000_0000_0000 <= n
        }),
    ensures
        ({
            let x = (n as int as real) / (d as int as real);
            &&& rabs(r as int as real - x) <= eps() * x + 1real / 2real
            &&& d == 1 ==> rabs(r as int as real - x) <= eps() * x
            &&& x >= 0real
        }),
{
    let (rr, nn, dd) = (r as int as real, n as int as real, d as int as real);
    let x = nn / dd;
    lemma_real_mul(r as int, d as int);
    let e = r * d - n;
    let a = if e >= 0 {
        e
    } else {
        -e
    };
    let aa = a as real;
    assert(aa == rabs(rr * dd - nn));
    assert(2real * aa <= dd || aa * (0x20_0000_0000_0000int as real) <= nn);
    assert(nn == x * dd) by (nonlinear_arith)
        requires
            x == nn / dd,
            dd > 0real,
    ;
    assert(x >= 0real) by (nonlinear_arith)
        requires
            nn == x * dd,
            dd > 0real,
            nn >= 0real,
    ;
    let y = rabs(rr - x);
    assert(aa == y * dd) by (nonlinear_arith)
        requires
            aa == rabs(rr * dd - nn),
            nn == x * dd,
            y == rabs(rr - x),
            dd > 0real,
    ;
    if aa * (0x20_0000_0000_0000int as real) <= nn {
        assert(y <= eps() * x) by (nonlinear_arith)
            requires
                aa * (0x20_0000_0000_0000int as real) <= nn,
                aa == y * dd,
                nn == x * dd,
                dd > 0real,
                eps() == 1real / (0x20_0000_0000_0000int as real),
        ;
    } else {
        assert(y <= 1real / 2real) by (nonlinear_arith)
            requires
                2real * aa <= dd,
                aa == y * dd,
                dd > 0real,
        ;
        assert(eps() * x >= 0real) by (nonlinear_arith)
            requires
                x >= 0real,
                eps() == 1real / (0x20_0000_0000_0000int as real),
        ;
    }
}

/// There are units.
pub proof fn lemma_units_positive()
    ensures
        one_units() >= 1real,
        0real < tiny() <= 1real,
{
    lemma_pow2_pos(1074);
    let u = one_units();
    assert(0real < 1real / (2real * u) <= 1real) by (nonlinear_arith)
        requires
            u >= 1real,
    ;
}

/// The order of numbers is that of their exact values.
pub proof fn lemma_exact_order(a: Num, b: Num)
    requires
        a.finite(),
        b.finite(),
    ensures
        a.fle(b) <==> a.exact() <= b.exact(),
        a.flt(b) <==> a.exact() < b.exact(),
{
    reveal(Num::exact);
    arith::lemma_order_is_exact(a, b);
    lemma_units_positive();
    let (x, y, u) = (a.units() as real, b.units() as real, one_units());
    assert((x <= y <==> x / u <= y / u) && (x < y <==> x / u < y / u)) by (nonlinear_arith)
        requires
            u >= 1real,
    ;
}

/// A sum is off by at most 2^-53 of the exact one.
pub proof fn lemma_exact_add(a: Num, b: Num)
    requires
        a.finite(),
        b.finite(),
        a.fadd(b).finite(),
    ensures
        rabs(a.fadd(b).exact() - (a.exact() + b.exact())) <= eps() * rabs(a.exact() + b.exact()),
{
    reveal(Num::exact);
    reveal(Num::fadd);
    lemma_units_positive();
    let s = a.units() + b.units();
    let r = a.fadd(b);
    let u = one_units();
    let n = (if s >= 0 {
        s
    } else {
        -s
    }) as nat;
    if s != 0 {
        lemma_round_error(s < 0, n, 1);
        lemma_error_units(r.size(), n, 1);
    } else {
        arith::lemma_zero_size(r);
    }
    let (x, y) = (s as real, r.units() as real);
    assert(n as int as real / (1int as real) == n as int as real);
    assert(rabs(y - x) <= eps() * rabs(x));
    assert(rabs(y / u - x / u) <= eps() * rabs(x / u)) by (nonlinear_arith)
        requires
            rabs(y - x) <= eps() * rabs(x),
            u >= 1real,
    ;
    assert(a.exact() + b.exact() == x / u) by (nonlinear_arith)
        requires
            a.exact() == a.units() as real / u,
            b.exact() == b.units() as real / u,
            x == a.units() as real + b.units() as real,
            u >= 1real,
    ;
}

/// A product is off by at most 2^-53 of the exact one, and half a unit.
pub proof fn lemma_exact_mul(a: Num, b: Num)
    requires
        a.finite(),
        b.finite(),
        a.fmul(b).finite(),
    ensures
        rabs(a.fmul(b).exact() - a.exact() * b.exact()) <= eps() * rabs(a.exact() * b.exact())
            + tiny(),
{
    reveal(Num::exact);
    reveal(Num::fmul);
    lemma_units_positive();
    lemma_pow2_pos(1074);
    let r = a.fmul(b);
    let (m, n) = (a.size(), b.size());
    let u = one_units();
    lemma_round_error(a.negative() != b.negative(), m * n, pow2(1074));
    lemma_error_units(r.size(), m * n, pow2(1074));
    lemma_real_mul(m as int, n as int);
    let (x, y) = (a.units() as real, b.units() as real);
    let z = r.units() as real;
    let t = x * y / u;
    let (mm, nn) = (m as int as real, n as int as real);
    assert(rabs(t) == mm * nn / u) by (nonlinear_arith)
        requires
            t == x * y / u,
            u >= 1real,
            x == mm || x == -mm,
            y == nn || y == -nn,
            mm >= 0real,
            nn >= 0real,
    ;
    assert(rabs(z - t) <= eps() * rabs(t) + 1real / 2real) by {
        if a.negative() == b.negative() {
            assert(t == mm * nn / u) by (nonlinear_arith)
                requires
                    t == x * y / u,
                    (x == mm && y == nn) || (x == -mm && y == -nn),
                    u >= 1real,
            ;
        } else {
            assert(t == -(mm * nn / u)) by (nonlinear_arith)
                requires
                    t == x * y / u,
                    (x == mm && y == -nn) || (x == -mm && y == nn),
                    u >= 1real,
            ;
        }
    }
    assert(a.exact() * b.exact() == t / u) by (nonlinear_arith)
        requires
            a.exact() == x / u,
            b.exact() == y / u,
            t == x * y / u,
            u >= 1real,
    ;
    lemma_scaled(z, t, u);
}

proof fn lemma_scaled(z: real, t: real, u: real)
    by (nonlinear_arith)
    requires
        rabs(z - t) <= eps() * rabs(t) + 1real / 2real,
        u >= 1real,
    ensures
        rabs(z / u - t / u) <= eps() * rabs(t / u) + 1real / (2real * u),
{
}

/// A quotient is off by at most 2^-53 of the exact one, and half a unit.
pub proof fn lemma_exact_div(a: Num, b: Num)
    requires
        a.finite(),
        b.finite(),
        b.mag() > 0,
        a.fdiv(b).finite(),
    ensures
        rabs(a.fdiv(b).exact() - a.exact() / b.exact()) <= eps() * rabs(a.exact() / b.exact())
            + tiny(),
        b.exact() != 0real,
{
    reveal(Num::exact);
    reveal(Num::fdiv);
    lemma_units_positive();
    lemma_pow2_pos(1074);
    arith::lemma_zero_size(b);
    let r = a.fdiv(b);
    let (m, n) = (a.size(), b.size());
    let u = one_units();
    lemma_round_error(a.negative() != b.negative(), m * pow2(1074), n);
    lemma_error_units(r.size(), m * pow2(1074), n);
    lemma_real_mul(m as int, pow2(1074) as int);
    let (x, y) = (a.units() as real, b.units() as real);
    let z = r.units() as real;
    let t = x * u / y;
    let (mm, nn) = (m as int as real, n as int as real);
    assert(rabs(t) == mm * u / nn) by (nonlinear_arith)
        requires
            t == x * u / y,
            u >= 1real,
            x == mm || x == -mm,
            y == nn || y == -nn,
            mm >= 0real,
            nn > 0real,
    ;
    assert(rabs(z - t) <= eps() * rabs(t) + 1real / 2real) by {
        if a.negative() == b.negative() {
            assert(t == mm * u / nn) by (nonlinear_arith)
                requires
                    t == x * u / y,
                    (x == mm && y == nn) || (x == -mm && y == -nn),
                    nn > 0real,
            ;
        } else {
            assert(t == -(mm * u / nn)) by (nonlinear_arith)
                requires
                    t == x * u / y,
                    (x == mm && y == -nn) || (x == -mm && y == nn),
                    nn > 0real,
            ;
        }
    }
    assert(y / u != 0real) by (nonlinear_arith)
        requires
            u >= 1real,
            y != 0real,
    ;
    assert(a.exact() / b.exact() == t / u) by (nonlinear_arith)
        requires
            a.exact() == x / u,
            b.exact() == y / u,
            t == x * u / y,
            u >= 1real,
            y != 0real,
    ;
    lemma_scaled(z, t, u);
}

/// The square of a root is off by at most 2^-50 of the number.
pub proof fn lemma_exact_sqrt(a: Num)
    requires
        a.finite(),
        !a.negative(),
        a.mag() > 0,
        a.fsqrt().finite(),
    ensures
        ({
            let s = a.fsqrt().exact();
            &&& s >= 0real
            &&& s * s >= a.exact() * (1real - 8real * eps())
            &&& s * s <= a.exact() * (1real + 8real * eps())
        }),
{
    reveal(Num::exact);
    reveal(Num::fsqrt);
    lemma_units_positive();
    lemma2_to64_rest();
    arith::lemma_zero_size(a);
    let (m, u) = (a.size(), pow2(1074));
    let x = m * u;
    let w = root::lemma_isqrt_exists(x);
    root::lemma_isqrt(x, w);
    let t = root::twice_sqrt(x);
    let s = a.fsqrt();
    lemma_round_error(false, t, 2);
    lemma_pow2_adds(54, 1020);
    lemma_pow2_adds(54, 54);
    lemma_pow2_strictly_increases(108, 1074);
    let h = pow2(54);
    assert(w >= h) by (nonlinear_arith)
        requires
            x < (w + 1) * (w + 1),
            x == m * u,
            m >= 1,
            u > h * h,
            w >= 0,
            h >= 1,
    {
        assert(m * u >= u);
        if w < h {
            assert((w + 1) * (w + 1) <= h * h);
        }
    }
    assert(h == 0x40_0000_0000_0000) by {
        lemma_pow2_unfold(54);
    }
    let (rr, ww, tt) = (s.size() as int as real, w as int as real, t as int as real);
    let b = 0x20_0000_0000_0000int as real;
    assert(ww >= 2real * b);
    assert(2real * ww <= tt <= 2real * ww + 1real);
    assert(rabs(2real * rr - tt) * b <= tt) by {
        let e = s.size() * 2 - t;
        assert(2 * e <= 2 && -2 <= 2 * e ==> -1 <= e <= 1);
    }
    let e = eps();
    assert(e * b == 1real) by (nonlinear_arith)
        requires
            e == 1real / b,
            b > 0real,
    ;
    assert(rabs(2real * rr - tt) <= e * tt) by (nonlinear_arith)
        requires
            rabs(2real * rr - tt) * b <= tt,
            e * b == 1real,
            b > 0real,
    ;
    lemma_root_bounds(rr, ww, tt, e);
    lemma_real_mul(w as int, w as int);
    lemma_real_mul((w + 1) as int, (w + 1) as int);
    lemma_real_mul(m as int, u as int);
    let (mm, uu) = (m as int as real, one_units());
    let z = s.exact();
    let (below, above) = (ww * ww, (ww + 1real) * (ww + 1real));
    assert(below <= mm * uu <= above);
    assert(above * (1real - 8real * e) >= (mm * uu) * (1real - 8real * e) && below * (1real + 8real
        * e) <= (mm * uu) * (1real + 8real * e)) by (nonlinear_arith)
        requires
            below <= mm * uu <= above,
            0real < e < 1real / 1000real,
    ;
    assert(z >= 0real) by (nonlinear_arith)
        requires
            z == rr / uu,
            uu >= 1real,
            rr >= 0real,
    ;
    assert(z * z >= mm / uu * (1real - 8real * e) && z * z <= mm / uu * (1real + 8real * e))
        by (nonlinear_arith)
        requires
            z == rr / uu,
            uu >= 1real,
            rr * rr >= (mm * uu) * (1real - 8real * e),
            rr * rr <= (mm * uu) * (1real + 8real * e),
    {
        assert(z * z == rr * rr / (uu * uu));
        assert(mm / uu == (mm * uu) / (uu * uu));
    }
}

proof fn lemma_root_bounds(r: real, w: real, t: real, e: real)
    requires
        0real < e < 1real / 1000real,
        w >= 2real,
        w * e >= 2real,
        2real * w <= t <= 2real * w + 1real,
        rabs(2real * r - t) <= e * t,
        r >= 0real,
    ensures
        r * r >= (w + 1real) * (w + 1real) * (1real - 8real * e),
        r * r <= w * w * (1real + 8real * e),
{
    let (lo, hi) = ((w + 1real) * (1real - 3real * e), w * (1real + 3real * e));
    assert(r >= lo && lo >= 0real) by (nonlinear_arith)
        requires
            0real < e < 1real / 1000real,
            w >= 2real,
            w * e >= 2real,
            2real * w <= t <= 2real * w + 1real,
            rabs(2real * r - t) <= e * t,
            lo == (w + 1real) * (1real - 3real * e),
    {
        assert(2real * r >= t * (1real - e));
        assert(t * (1real - e) >= 2real * w * (1real - e));
        assert(w + 1real <= w * (1real + e));
        assert((w + 1real) * (1real - 3real * e) <= w * (1real + e) * (1real - 3real * e));
        assert(w * (1real + e) * (1real - 3real * e) <= w * (1real - e));
    }
    assert(r <= hi) by (nonlinear_arith)
        requires
            0real < e < 1real / 1000real,
            w >= 2real,
            w * e >= 2real,
            2real * w <= t <= 2real * w + 1real,
            rabs(2real * r - t) <= e * t,
            hi == w * (1real + 3real * e),
    {
        assert(2real * r <= t * (1real + e));
        assert(t * (1real + e) <= (2real * w + 1real) * (1real + e));
        assert(2real * w + 1real <= 2real * (w * (1real + e)));
        assert((2real * w + 1real) * (1real + e) <= 2real * (w * (1real + e)) * (1real + e));
        assert((1real + e) * (1real + e) <= 1real + 3real * e);
        assert(w * ((1real + e) * (1real + e)) <= w * (1real + 3real * e));
    }
    assert(r * r >= lo * lo && r * r <= hi * hi) by (nonlinear_arith)
        requires
            0real <= lo <= r <= hi,
    ;
    assert(lo * lo >= (w + 1real) * (w + 1real) * (1real - 8real * e) && hi * hi <= w * w * (1real
        + 8real * e)) by (nonlinear_arith)
        requires
            0real < e < 1real / 1000real,
            w >= 2real,
            lo == (w + 1real) * (1real - 3real * e),
            hi == w * (1real + 3real * e),
    {
        let (a, b) = ((w + 1real) * (w + 1real), w * w);
        assert(lo * lo == a * ((1real - 3real * e) * (1real - 3real * e)));
        assert(hi * hi == b * ((1real + 3real * e) * (1real + 3real * e)));
        assert((1real - 3real * e) * (1real - 3real * e) >= 1real - 8real * e);
        assert((1real + 3real * e) * (1real + 3real * e) <= 1real + 8real * e);
    }
}

/// 2^-192, far above a unit and far below what is measured.
pub open spec fn small() -> real {
    let b = 0x1_0000_0000_0000_0000int as real;
    1real / (b * b * b)
}

/// Half a unit is negligible beside the error of a rounding.
pub proof fn lemma_small()
    ensures
        small() > 0real,
        tiny() <= eps() * small(),
        tiny() <= small(),
{
    lemma2_to64_rest();
    lemma_pow2_adds(64, 64);
    lemma_pow2_adds(128, 64);
    lemma_pow2_adds(192, 53);
    lemma_pow2_strictly_increases(245, 1074);
    let b = 0x1_0000_0000_0000_0000int;
    assert(pow2(64) == b);
    lemma_real_mul(b, b);
    lemma_real_mul(b * b, b);
    lemma_real_mul((b * b) * b, 0x20_0000_0000_0000int);
    let c = (b as real) * (b as real) * (b as real);
    let (d, u) = (0x20_0000_0000_0000int as real, one_units());
    assert(c >= 1real) by (nonlinear_arith)
        requires
            c == (b as real) * (b as real) * (b as real),
            b == 0x1_0000_0000_0000_0000int,
    ;
    assert(u >= c * d);
    let (s, e, t) = (small(), eps(), tiny());
    assert(s > 0real && t <= e * s && t <= s) by (nonlinear_arith)
        requires
            s == 1real / c,
            e == 1real / d,
            t == 1real / (2real * u),
            u >= c * d,
            c >= 1real,
            d >= 1real,
    {
        assert(e * s == 1real / (c * d));
        assert(1real / (2real * u) <= 1real / (c * d));
        assert(1real / (c * d) <= 1real / c);
    }
}

/// And it is below one.
pub proof fn lemma_small_is_small()
    ensures
        small() <= 1real,
{
    let b = 0x1_0000_0000_0000_0000int as real;
    lemma_factor(b, b);
    lemma_factor(b * b, b);
    let c = b * b * b;
    lemma_over(1real, c);
    lemma_small();
    lemma_times(1real, c, small());
}

/// `v` is within `k` rounding errors of `x`.
pub open spec fn near(v: real, x: real, k: real) -> bool {
    x * (1real - k * eps()) <= v <= x * (1real + k * eps())
}

/// A sum of numbers from zero on is near.
pub proof fn lemma_near_add(a: Num, b: Num)
    requires
        a.finite(),
        b.finite(),
        a.fadd(b).finite(),
        a.exact() >= 0real,
        b.exact() >= 0real,
    ensures
        near(a.fadd(b).exact(), a.exact() + b.exact(), 1real),
{
    lemma_exact_add(a, b);
    let (v, x, e) = (a.fadd(b).exact(), a.exact() + b.exact(), eps());
    assert(x * (1real - 1real * e) <= v <= x * (1real + 1real * e)) by (nonlinear_arith)
        requires
            rabs(v - x) <= e * rabs(x),
            x >= 0real,
    ;
}

proof fn lemma_near_of_error(v: real, x: real)
    requires
        rabs(v - x) <= eps() * rabs(x) + tiny(),
        x >= small(),
    ensures
        near(v, x, 2real),
{
    lemma_small();
    let (e, s, t) = (eps(), small(), tiny());
    assert(x * (1real - 2real * e) <= v <= x * (1real + 2real * e)) by (nonlinear_arith)
        requires
            rabs(v - x) <= e * rabs(x) + t,
            x >= s,
            s > 0real,
            t <= e * s,
            e > 0real,
    {
        assert(e * s <= e * x);
    }
}

/// A product that is not too small is near.
pub proof fn lemma_near_mul(a: Num, b: Num)
    requires
        a.finite(),
        b.finite(),
        a.fmul(b).finite(),
        a.exact() * b.exact() >= small(),
    ensures
        near(a.fmul(b).exact(), a.exact() * b.exact(), 2real),
{
    lemma_exact_mul(a, b);
    lemma_near_of_error(a.fmul(b).exact(), a.exact() * b.exact());
}

/// A quotient that is not too small is near.
pub proof fn lemma_near_div(a: Num, b: Num)
    requires
        a.finite(),
        b.finite(),
        b.mag() > 0,
        a.fdiv(b).finite(),
        a.exact() / b.exact() >= small(),
    ensures
        near(a.fdiv(b).exact(), a.exact() / b.exact(), 2real),
{
    lemma_exact_div(a, b);
    lemma_near_of_error(a.fdiv(b).exact(), a.exact() / b.exact());
}

/// Errors add up over steps.
pub proof fn lemma_near_step(r: real, v: real, x: real, j: real, k: real)
    requires
        near(r, v, j),
        near(v, x, k),
        x >= 0real,
        0real <= j <= 1000real,
        0real <= k <= 1000real,
    ensures
        near(r, x, j + k + 1real),
{
    let e = eps();
    assert(x * (1real - (j + k + 1real) * e) <= r <= x * (1real + (j + k + 1real) * e))
        by (nonlinear_arith)
        requires
            v * (1real - j * e) <= r <= v * (1real + j * e),
            x * (1real - k * e) <= v <= x * (1real + k * e),
            x >= 0real,
            0real <= j <= 1000real,
            0real <= k <= 1000real,
            0real < e < 1real / 1000000000real,
    {
        assert(j * e <= 1real / 1000000real && k * e <= 1real / 1000000real);
        assert(j * e >= 0real && k * e >= 0real);
        assert(x * (1real - k * e) * (1real - j * e) <= v * (1real - j * e));
        assert(v * (1real + j * e) <= x * (1real + k * e) * (1real + j * e));
        assert((j * e) * (k * e) <= e) by {
            assert((j * e) * k <= 1real / 1000real);
            assert((j * e) * (k * e) == ((j * e) * k) * e);
        }
        assert((1real + k * e) * (1real + j * e) <= 1real + (j + k + 1real) * e);
        assert((1real - k * e) * (1real - j * e) >= 1real - (j + k + 1real) * e);
        assert(x * ((1real + k * e) * (1real + j * e)) <= x * (1real + (j + k + 1real) * e));
        assert(x * ((1real - k * e) * (1real - j * e)) >= x * (1real - (j + k + 1real) * e));
    }
}

/// Errors of factors add up.
pub proof fn lemma_near_product(v: real, x: real, w: real, y: real, j: real, k: real)
    requires
        near(v, x, j),
        near(w, y, k),
        x >= 0real,
        y >= 0real,
        0real <= j <= 1000real,
        0real <= k <= 1000real,
    ensures
        near(v * w, x * y, j + k + 1real),
{
    let e = eps();
    assert(v * y * (1real - k * e) <= v * w <= v * y * (1real + k * e)) by (nonlinear_arith)
        requires
            y * (1real - k * e) <= w <= y * (1real + k * e),
            x * (1real - j * e) <= v,
            x >= 0real,
            0real <= j <= 1000real,
            0real < e < 1real / 1000000000real,
    {
        assert(j * e <= 1real / 1000000real);
        assert(v >= 0real);
    }
    assert((x * y) * (1real - j * e) <= v * y <= (x * y) * (1real + j * e)) by (nonlinear_arith)
        requires
            x * (1real - j * e) <= v <= x * (1real + j * e),
            y >= 0real,
    ;
    assert(x * y >= 0real) by (nonlinear_arith)
        requires
            x >= 0real,
            y >= 0real,
    ;
    lemma_near_step(v * w, v * y, x * y, k, j);
}

/// Errors of dividend and divisor add up.
pub proof fn lemma_near_quotient(v: real, x: real, w: real, y: real, j: real, k: real)
    requires
        near(v, x, j),
        near(w, y, k),
        x >= 0real,
        y > 0real,
        0real <= j <= 1000real,
        0real <= k <= 900real,
    ensures
        w > 0real,
        near(v / w, x / y, j + k + 2real),
{
    let e = eps();
    let i = 1real / w;
    assert(w > 0real && (1real / y) * (1real - (k + 1real) * e) <= i && i <= (1real / y) * (1real
        + (k + 1real) * e)) by (nonlinear_arith)
        requires
            y * (1real - k * e) <= w <= y * (1real + k * e),
            y > 0real,
            i == 1real / w,
            0real <= k <= 1000real,
            0real < e < 1real / 1000000000real,
    {
        assert(0real <= k * e <= 1real / 1000000real);
        assert(w > 0real);
        let f = (k + 1real) * e;
        assert(k * (k * e) <= 1real / 1000real);
        assert((k * e) * (k * e) == (k * (k * e)) * e);
        assert((k * e) * f == (k * e) * (k * e) + (k * e) * e);
        assert((1real - k * e) * (1real + f) >= 1real);
        assert((1real + k * e) * (1real - f) <= 1real);
        assert(y * (1real - f) * (1real + k * e) <= y);
        assert(w * (1real + f) >= y * (1real - k * e) * (1real + f));
        assert(y * ((1real - k * e) * (1real + f)) >= y);
        assert(w * (1real - f) <= y * (1real + k * e) * (1real - f));
        assert(i * w == 1real);
        let g = 1real / y;
        assert(g * y == 1real);
        assert(g * (1real + f) * w >= 1real);
        assert(g * (1real - f) * w <= 1real);
    }
    assert(1real / y >= 0real) by (nonlinear_arith)
        requires
            y > 0real,
    ;
    lemma_near_product(v, x, i, 1real / y, j, k + 1real);
    assert(v * i == v / w && x * (1real / y) == x / y) by (nonlinear_arith)
        requires
            i == 1real / w,
            w > 0real,
            y > 0real,
    ;
}

/// What is near within few errors is near within more.
pub proof fn lemma_near_more(v: real, x: real, j: real, k: real)
    requires
        near(v, x, j),
        x >= 0real,
        j <= k,
    ensures
        near(v, x, k),
{
    let e = eps();
    assert(x * (1real - k * e) <= x * (1real - j * e) && x * (1real + j * e) <= x * (1real + k * e))
        by (nonlinear_arith)
        requires
            x >= 0real,
            j <= k,
            e > 0real,
    {
        assert(j * e <= k * e);
    }
}

/// Sums of what is near are near.
pub proof fn lemma_near_sum(v: real, x: real, w: real, y: real, k: real)
    requires
        near(v, x, k),
        near(w, y, k),
    ensures
        near(v + w, x + y, k),
{
    let e = eps();
    assert((x + y) * (1real - k * e) <= v + w <= (x + y) * (1real + k * e)) by (nonlinear_arith)
        requires
            x * (1real - k * e) <= v <= x * (1real + k * e),
            y * (1real - k * e) <= w <= y * (1real + k * e),
    ;
}

/// One, two and the counts below 2^53 are exact.
pub proof fn lemma_exact_whole(n: nat)
    requires
        n < pow2(53),
    ensures
        Num::whole(false, n).exact() == n as int as real,
{
    reveal(Num::exact);
    integral::lemma_whole_exact(n);
    lemma_units_positive();
    lemma_real_mul(n as int, pow2(1074) as int);
    let (x, u) = (n as int as real, one_units());
    assert(x * u / u == x) by (nonlinear_arith)
        requires
            u >= 1real,
    ;
}

/// Every count is off by at most 2^-53 of it.
pub proof fn lemma_near_whole(negative: bool, n: nat)
    requires
        Num::whole(negative, n).finite(),
    ensures
        ({
            let x = n as int as real;
            let y = if negative {
                -x
            } else {
                x
            };
            rabs(Num::whole(negative, n).exact() - y) <= eps() * x
        }),
{
    reveal(Num::exact);
    reveal(Num::whole);
    let (v, p) = (Num::whole(negative, n), pow2(1074));
    lemma_round_error(negative, n * p, 1);
    lemma_units_positive();
    lemma_real_mul(n as int, p as int);
    let (x, u, r) = (n as int as real, one_units(), v.size() as int as real);
    let a = rabs(r - x * u);
    assert(a <= eps() * (x * u)) by {
        let e = v.size() * 1 - n * p;
        let i = if e >= 0 {
            e
        } else {
            -e
        };
        assert(i as real == a);
        assert(i * 0x20_0000_0000_0000 <= n * p);
        assert((i * 0x20_0000_0000_0000) as real == a * (0x20_0000_0000_0000int as real));
        assert(a <= eps() * (x * u)) by (nonlinear_arith)
            requires
                a * (0x20_0000_0000_0000int as real) <= x * u,
                eps() == 1real / (0x20_0000_0000_0000int as real),
        ;
    }
    let w = v.units() as real;
    assert(w == if negative {
        -r
    } else {
        r
    });
    assert(rabs(r / u - x) <= eps() * x && (-r) / u == -(r / u)) by (nonlinear_arith)
        requires
            rabs(r - x * u) <= eps() * (x * u),
            u >= 1real,
    {
        let q = r / u;
        assert(q * u == r);
        assert(rabs(q - x) * u == rabs(q * u - x * u));
    }
}

/// Multiplying and dividing by the same number changes nothing.
proof fn lemma_undo(x: real, u: real)
    by (nonlinear_arith)
    requires
        u >= 1real,
    ensures
        x * u / u == x,
{
}

/// Zeros are zero.
pub proof fn lemma_exact_zero(a: Num)
    requires
        a.mag() == 0,
    ensures
        a.exact() == 0real,
{
    reveal(Num::exact);
    arith::lemma_zero_size(a);
    lemma_units_positive();
    lemma_undo(0real, one_units());
}

/// The exact value of a number that is a power of two.
pub proof fn lemma_exact_power(a: Num, k: nat)
    requires
        a.finite(),
        !a.negative(),
        a.size() == pow2(1074 + k),
    ensures
        a.exact() == pow2(k) as int as real,
{
    reveal(Num::exact);
    lemma_units_positive();
    lemma_pow2_adds(1074, k);
    lemma_real_mul(pow2(1074) as int, pow2(k) as int);
    let (x, u) = (pow2(k) as int as real, one_units());
    lemma_undo(x, u);
    assert(x * u == u * x) by (nonlinear_arith);
}

/// The opposite of a number is exact.
pub proof fn lemma_exact_neg(a: Num)
    requires
        a.finite(),
    ensures
        a.fneg().finite(),
        a.fneg().exact() == -a.exact(),
{
    reveal(Num::exact);
    lemma_units_positive();
    assert(a.fneg().size() == a.size());
    arith::lemma_zero_size(a);
    let (x, u) = (a.units() as real, one_units());
    assert(a.fneg().units() as real == -x);
    assert((-x) / u == -(x / u)) by (nonlinear_arith)
        requires
            u >= 1real,
    ;
}

/// A product with a factor from 1 on is not smaller.
pub proof fn lemma_factor(x: real, y: real)
    by (nonlinear_arith)
    requires
        x >= 0real,
        y >= 1real,
    ensures
        x * y >= x,
{
}

/// Products keep the order.
pub proof fn lemma_times(x: real, y: real, k: real)
    by (nonlinear_arith)
    requires
        x <= y,
        k >= 0real,
    ensures
        x * k <= y * k,
        k * x <= k * y,
{
}

/// A quotient times its divisor is the dividend.
pub proof fn lemma_over(x: real, d: real)
    by (nonlinear_arith)
    requires
        d > 0real,
    ensures
        (x / d) * d == x,
{
}

/// A quotient that covers a multiple of the divisor is at least that multiple.
pub proof fn lemma_at_least(w: real, k: real, d: real)
    by (nonlinear_arith)
    requires
        k * d <= w * d,
        d > 0real,
    ensures
        k <= w,
{
}

/// Squares and products of numbers from zero on are not negative.
pub proof fn lemma_not_negative(x: real, y: real)
    by (nonlinear_arith)
    requires
        x >= 0real,
        y >= 0real,
    ensures
        x * y >= 0real,
{
}

/// A quotient is what times the divisor gives the dividend.
pub proof fn lemma_quotient_is(x: real, y: real, d: real)
    by (nonlinear_arith)
    requires
        x * d == y,
        d > 0real,
    ensures
        y / d == x,
{
}

/// Everything is near itself.
pub proof fn lemma_near_self(x: real)
    ensures
        near(x, x, 0real),
{
    lemma_times(0real, 0real, eps());
    assert(0real * eps() == 0real);
    assert(1real - 0real * eps() == 1real);
}

/// What is near something positive is positive.
pub proof fn lemma_still_positive(v: real, x: real, k: real)
    requires
        near(v, x, k),
        x >= 0real,
        0real <= k <= 1000real,
    ensures
        v >= 0real,
        v >= x / 2real,
        v <= 2real * x,
{
    let e = eps();
    assert(v >= x / 2real && v <= 2real * x) by (nonlinear_arith)
        requires
            x * (1real - k * e) <= v <= x * (1real + k * e),
            x >= 0real,
            0real <= k <= 1000real,
            0real < e < 1real / 1000000000real,
    {
        assert(k * e <= 1real / 2real);
        assert(x * (1real / 2real) <= x * (1real - k * e));
        assert(x * (1real + k * e) <= x * 2real);
    }
}

/// A share is off by at most a rounding error of it, and a bit.
pub proof fn lemma_share(v: Num, sum: Num)
    requires
        v.finite() && !v.negative(),
        sum.finite(),
        Num::of(ZERO).flt(sum),
        v.fdiv(sum).finite(),
    ensures
        rabs(v.fdiv(sum).exact() - v.exact() / sum.exact()) <= eps() * (v.exact()
            / sum.exact()) + eps(),
        v.exact() / sum.exact() >= 0real,
{
    let zero = Num::of(ZERO);
    lemma_exact_zero(zero);
    lemma_exact_order(zero, v);
    lemma_exact_order(zero, sum);
    lemma_exact_div(v, sum);
    lemma_small();
    lemma_small_is_small();
    lemma_times(small(), 1real, eps());
    lemma_over(v.exact(), sum.exact());
    if v.exact() / sum.exact() < 0real {
        lemma_times(sum.exact(), sum.exact(), 1real);
        assert((v.exact() / sum.exact()) * sum.exact() < 0real) by (nonlinear_arith)
            requires
                v.exact() / sum.exact() < 0real,
                sum.exact() > 0real,
        ;
    }
}

} // verus!
