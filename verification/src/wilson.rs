//! How far rounding moves a Wilson interval from the exact one.

use crate::algebra;
use crate::bounds;
use crate::calibration::{self, WilsonInterval, FOUR, WILSON_Z_95};
use crate::consts::{ONE, TWO, ZERO};
use crate::exact;
use crate::integral;
use crate::num::Num;
use vstd::arithmetic::power2::*;
use vstd::prelude::*;

verus! {

/// Exact middle of the interval of a proportion `q`: `t` of the way to a half.
pub open spec fn middle(q: real, t: real) -> real {
    q + t * (1real / 2real - q)
}

/// Exact square of its half-width.
pub open spec fn half_squared(q: real, t: real) -> real {
    let a = q * (1real - q);
    a * t + (t * t) * (1real / 4real - a)
}

/// How far the middle is moved to a half: `b` is the squared multiplier over
/// the number of trials.
pub open spec fn share(b: real) -> real {
    b / (1real + b)
}

/// The variance of a proportion.
proof fn lemma_variance(q: real)
    requires
        0real <= q <= 1real,
    ensures
        0real <= q * (1real - q) <= 1real / 4real,
{
    exact::lemma_not_negative(q, 1real - q);
    lemma_variance_below(q);
}

proof fn lemma_variance_below(q: real)
    by (nonlinear_arith)
    ensures
        q * (1real - q) <= 1real / 4real,
{
    assert((q - 1real / 2real) * (q - 1real / 2real) >= 0real);
}

proof fn lemma_gap_square(q: real)
    by (nonlinear_arith)
    ensures
        (1real / 2real - q) * (1real / 2real - q) == 1real / 4real - q * (1real - q),
{
}

proof fn lemma_regroup(x: real, y: real)
    by (nonlinear_arith)
    ensures
        (x * y) * (x * y) == (x * x) * (y * y),
{
}

proof fn lemma_sum_square(x: real, y: real)
    by (nonlinear_arith)
    ensures
        (x + y) * (x + y) == x * x + 2real * (x * y) + y * y,
{
}

/// The square of the middle exceeds that of the half-width.
proof fn lemma_inside(q: real, t: real)
    requires
        0real <= q <= 1real,
        0real < t < 1real,
    ensures
        half_squared(q, t) <= middle(q, t) * middle(q, t),
{
    let (a, w) = (q * (1real - q), 1real / 2real - q);
    lemma_sum_square(q, t * w);
    lemma_regroup(t, w);
    lemma_gap_square(q);
    // The cross term is t * q - 2 * t * q * q.
    assert(q * (t * w) == (t * q) / 2real - t * (q * q)) by (nonlinear_arith)
        requires
            w == 1real / 2real - q,
    ;
    assert(a * t == t * q - t * (q * q)) by (nonlinear_arith)
        requires
            a == q * (1real - q),
    ;
    exact::lemma_not_negative(q, q);
    exact::lemma_times(t, 1real, q * q);
}

/// The exact interval reaches from the middle to the proportion and beyond,
/// and lies between 0 and 1.
proof fn lemma_reaches(q: real, t: real)
    requires
        0real <= q <= 1real,
        0real < t < 1real,
    ensures
        ({
            let g = middle(q, t) - q;
            g * g <= half_squared(q, t)
        }),
        0real <= half_squared(q, t) <= 1real / 4real,
        half_squared(q, t) <= middle(q, t) * middle(q, t),
        half_squared(q, t) <= (1real - middle(q, t)) * (1real - middle(q, t)),
        0real < middle(q, t) < 1real,
{
    let p = 1real - q;
    let (a, w) = (q * p, 1real / 2real - q);
    lemma_variance(q);
    exact::lemma_not_negative(a, t);
    exact::lemma_not_negative(t, t);
    exact::lemma_not_negative(t * t, 1real / 4real - a);
    lemma_gap_square(q);
    lemma_regroup(t, w);
    lemma_inside(q, t);
    lemma_inside(p, t);
    assert(p * (1real - p) == a) by (nonlinear_arith)
        requires
            p == 1real - q,
            a == q * p,
    ;
    assert(middle(p, t) == 1real - middle(q, t)) by (nonlinear_arith)
        requires
            p == 1real - q,
            middle(p, t) == p + t * (1real / 2real - p),
            middle(q, t) == q + t * (1real / 2real - q),
    ;
    exact::lemma_times(t, 1real, a);
    exact::lemma_times(t, 1real, t);
    exact::lemma_times(t * t, 1real, 1real / 4real - a);
    lemma_middle_inside(q, t);
    lemma_middle_inside(p, t);
}

proof fn lemma_middle_inside(q: real, t: real)
    by (nonlinear_arith)
    requires
        0real <= q <= 1real,
        0real < t < 1real,
    ensures
        middle(q, t) > 0real,
{
    assert(q + t * (1real / 2real - q) == q * (1real - t) + t / 2real);
    assert(q * (1real - t) >= 0real);
}

/// The exact half-width shrinks with the number of trials.
proof fn lemma_shrinks(q: real, s: real, t: real)
    requires
        0real <= q <= 1real,
        0real < s <= t < 1real,
    ensures
        half_squared(q, s) <= half_squared(q, t),
{
    let a = q * (1real - q);
    lemma_variance(q);
    exact::lemma_times(s, t, a);
    exact::lemma_times(s, t, s);
    exact::lemma_times(s, t, t);
    exact::lemma_times(s * s, t * t, 1real / 4real - a);
}

/// The share lies between 0 and 1, and grows with the weight.
proof fn lemma_share(b: real, c: real)
    requires
        0real < b <= c,
    ensures
        0real < share(b) < 1real,
        share(b) <= share(c),
        share(b) * (1real + b) == b,
{
    exact::lemma_over(b, 1real + b);
    exact::lemma_over(c, 1real + c);
    let (s, t) = (share(b), share(c));
    if s <= 0real {
        exact::lemma_times(s, 0real, 1real + b);
    }
    if s >= 1real {
        exact::lemma_times(1real, s, 1real + b);
    }
    if t < s {
        // Then b is more than its part of c.
        assert(false) by (nonlinear_arith)
            requires
                s * (1real + b) == b,
                t * (1real + c) == c,
                t < s < 1real,
                0real < b <= c,
        {
            assert(b * (1real - s) == s);
            assert(c * (1real - t) == t);
            assert(c * (1real - s) >= b * (1real - s));
            assert(c * (1real - t) > c * (1real - s));
        }
    }
}

/// The middle as it is computed.
proof fn lemma_middle_is(q: real, b: real)
    requires
        b > 0real,
    ensures
        (q + b / 2real) / (1real + b) == middle(q, share(b)),
{
    let (t, d) = (share(b), 1real + b);
    lemma_share(b, b);
    let w = 1real / 2real - q;
    assert((q + t * w) * d == q + b / 2real) by (nonlinear_arith)
        requires
            t * d == b,
            d == 1real + b,
            w == 1real / 2real - q,
    {
        assert((t * w) * d == (t * d) * w);
    }
    exact::lemma_quotient_is(middle(q, t), q + b / 2real, d);
}

/// The square of the half-width as it is computed.
proof fn lemma_half_is(q: real, b: real)
    requires
        b > 0real,
    ensures
        (q * (1real - q) * b + b * b / 4real) / ((1real + b) * (1real + b)) == half_squared(
            q,
            share(b),
        ),
{
    let (t, d, a) = (share(b), 1real + b, q * (1real - q));
    lemma_share(b, b);
    lemma_regroup(t, d);
    exact::lemma_times(1real, d, d);
    let r = 1real / 4real - a;
    assert((a * t) * (d * d) == a * (b * d)) by (nonlinear_arith)
        requires
            t * d == b,
    {
        assert((a * t) * (d * d) == a * ((t * d) * d));
    }
    assert(((t * t) * r) * (d * d) == (b * b) * r) by (nonlinear_arith)
        requires
            (t * d) * (t * d) == (t * t) * (d * d),
            t * d == b,
    {
        assert(((t * t) * r) * (d * d) == ((t * t) * (d * d)) * r);
    }
    assert(a * (b * d) + (b * b) * r == a * b + b * b / 4real) by (nonlinear_arith)
        requires
            d == 1real + b,
            r == 1real / 4real - a,
    ;
    assert((a * t + (t * t) * r) * (d * d) == (a * t) * (d * d) + ((t * t) * r) * (d * d))
        by (nonlinear_arith);
    exact::lemma_quotient_is(half_squared(q, t), a * b + b * b / 4real, d * d);
}

/// The exact number of trials that a count is taken for.
pub open spec fn trials(n: u64) -> real {
    Num::whole(false, n as nat).exact()
}

/// The squared multiplier over the number of trials.
pub open spec fn weight(n: u64) -> real {
    Num::of(WILSON_Z_95).exact() * Num::of(WILSON_Z_95).exact() / trials(n)
}

/// The exact values of the constants, and the range of a count.
proof fn lemma_constants(n: u64)
    requires
        n > 0,
    ensures
        Num::of(ONE).exact() == 1real,
        Num::of(TWO).exact() == 2real,
        Num::of(FOUR).exact() == 4real,
        1real <= Num::of(WILSON_Z_95).exact() <= 2real,
        1real <= trials(n) <= 0x1_0000_0000_0000_0000int as real,
        Num::whole(false, n as nat).finite(),
        Num::whole(false, n as nat).mag() > 0,
{
    let (one, two, four, z) = (
        Num::of(ONE),
        Num::of(TWO),
        Num::of(FOUR),
        Num::of(WILSON_Z_95),
    );
    let nf = Num::whole(false, n as nat);
    lemma_power_exact(0);
    lemma_power_exact(1);
    lemma_power_exact(2);
    lemma_power_exact(64);
    lemma2_to64();
    lemma2_to64_rest();
    assert(bounds::power(0) == one && bounds::power(1) == two && bounds::power(2) == four);
    exact::lemma_exact_order(one, z);
    exact::lemma_exact_order(z, two);
    calibration::lemma_trials(n);
    exact::lemma_exact_order(one, nf);
    bounds::lemma_power(64);
    exact::lemma_exact_order(nf, bounds::power(64));
}

/// A power of two is exact.
proof fn lemma_power_exact(k: nat)
    requires
        k <= 64,
    ensures
        bounds::power(k as int).exact() == pow2(k) as int as real,
        bounds::power(k as int).finite(),
{
    bounds::lemma_power(k as int);
    exact::lemma_exact_power(bounds::power(k as int), k);
}

/// Nothing of an interval is too small.
proof fn lemma_sizes(y: real, n: real)
    requires
        1real <= y <= 4real,
        1real <= n <= 0x1_0000_0000_0000_0000int as real,
    ensures
        y / n >= 40real * exact::small(),
        y / (2real * n) >= 40real * exact::small(),
        y / (4real * n * n) >= 40real * exact::small(),
        0real < y / n <= 4real,
        exact::small() <= 1real / 10000real,
        exact::small() > 0real,
{
    let b = 0x1_0000_0000_0000_0000int as real;
    let s = exact::small();
    let g = b * b;
    exact::lemma_small();
    exact::lemma_factor(b, b);
    exact::lemma_factor(g, b);
    exact::lemma_over(1real, g * b);
    // s * (g * b) is 1, and 160 * g is at most g * b.
    exact::lemma_times(160real, b, g);
    exact::lemma_times(160real * g, g * b, s);
    assert(s * (160real * g) <= 1real);
    exact::lemma_times(10000real, g * b, s);
    assert(s * 10000real <= 1real);
    let f = 4real * n * n;
    exact::lemma_times(n, b, n);
    exact::lemma_times(n, b, b);
    assert(n * n <= g);
    exact::lemma_factor(n, n);
    assert(f == 4real * (n * n)) by (nonlinear_arith)
        requires
            f == 4real * n * n,
    ;
    assert(1real <= f <= 4real * g);
    lemma_large(y, f, s, g);
    lemma_large(y, n, s, g);
    lemma_large(y, 2real * n, s, g);
    exact::lemma_over(y, n);
    assert(0real < y / n <= 4real) by {
        let w = y / n;
        if w <= 0real {
            exact::lemma_times(w, 0real, n);
        }
        if w > 4real {
            exact::lemma_factor(w, n);
        }
    }
}

proof fn lemma_large(y: real, f: real, s: real, g: real)
    requires
        y >= 1real,
        1real <= f <= 4real * g,
        s > 0real,
        s * (160real * g) <= 1real,
    ensures
        y / f >= 40real * s,
{
    exact::lemma_over(y, f);
    exact::lemma_times(f, 4real * g, 40real * s);
    assert((40real * s) * (4real * g) == s * (160real * g)) by (nonlinear_arith);
    exact::lemma_at_least(y / f, 40real * s, f);
}

/// Squared multiplier, weight and common denominator are near their exact values.
proof fn lemma_denominator(n: u64)
    requires
        n > 0,
    ensures
        ({
            let (nf, z) = (Num::whole(false, n as nat), Num::of(WILSON_Z_95).exact());
            &&& exact::near(WilsonInterval::z2().exact(), z * z, 2real)
            &&& exact::near(WilsonInterval::denom(nf).exact(), 1real + weight(n), 9real)
            &&& WilsonInterval::denom(nf).finite()
            &&& WilsonInterval::denom(nf).mag() > 0
            &&& 1real <= z * z <= 4real
        }),
{
    let (nf, zf) = (Num::whole(false, n as nat), Num::of(WILSON_Z_95));
    let (z, m) = (zf.exact(), trials(n));
    let z2 = WilsonInterval::z2();
    lemma_constants(n);
    calibration::lemma_trials(n);
    calibration::lemma_wilson_divisors(n);
    assert(1real <= z * z <= 4real) by (nonlinear_arith)
        requires
            1real <= z <= 2real,
    ;
    lemma_sizes(z * z, m);
    exact::lemma_near_mul(zf, zf);
    bounds::lemma_power(0);
    bounds::lemma_power(2);
    bounds::lemma_div_within(z2, nf, 2, 0);
    exact::lemma_near_self(m);
    exact::lemma_near_quotient(z2.exact(), z * z, m, m, 2real, 0real);
    lemma_still_large(z2.exact() / m, weight(n), 4real);
    exact::lemma_near_div(z2, nf);
    let q = z2.fdiv(nf);
    exact::lemma_near_step(q.exact(), z2.exact() / m, weight(n), 2real, 4real);
    exact::lemma_near_self(1real);
    exact::lemma_near_more(1real, 1real, 0real, 7real);
    exact::lemma_near_sum(1real, 1real, q.exact(), weight(n), 7real);
    exact::lemma_still_positive(q.exact(), weight(n), 7real);
    exact::lemma_near_add(Num::of(ONE), q);
    exact::lemma_near_step(
        WilsonInterval::denom(nf).exact(),
        1real + q.exact(),
        1real + weight(n),
        1real,
        7real,
    );
}

/// What is near something large enough is large enough.
proof fn lemma_still_large(v: real, x: real, k: real)
    requires
        exact::near(v, x, k),
        x >= 2real * exact::small(),
        0real <= k <= 1000real,
    ensures
        v >= exact::small(),
{
    exact::lemma_small();
    exact::lemma_still_positive(v, x, k);
}

/// The exact value of a proportion.
pub open spec fn proportion(p: Num) -> real {
    calibration::unit(p).exact()
}

/// A proportion lies between 0 and 1.
proof fn lemma_proportion(p: Num)
    ensures
        0real <= proportion(p) <= 1real,
        calibration::unit(p).finite(),
{
    let q = calibration::unit(p);
    lemma_constants(1);
    exact::lemma_exact_zero(Num::of(ZERO));
    exact::lemma_exact_order(Num::of(ZERO), q);
    exact::lemma_exact_order(q, Num::of(ONE));
}

/// The exact middle is not too small.
proof fn lemma_middle_large(x: real, b: real)
    requires
        x >= 0real,
        40real * exact::small() <= b <= 4real,
    ensures
        (x + b / 2real) / (1real + b) >= 2real * exact::small(),
{
    exact::lemma_small();
    let d = 1real + b;
    let w = (x + b / 2real) / d;
    exact::lemma_over(x + b / 2real, d);
    if w < b / 20real {
        exact::lemma_times(w, b / 20real, d);
        exact::lemma_times(d, 5real, b / 20real);
    }
}

/// The middle of an interval is near the exact one.
proof fn lemma_center(p: Num, n: u64)
    requires
        n > 0,
    ensures
        ({
            let nf = Num::whole(false, n as nat);
            let c = WilsonInterval::center(calibration::unit(p), nf);
            &&& exact::near(c.exact(), middle(proportion(p), share(weight(n))), 25real)
            &&& c.finite()
        }),
{
    let (nf, q) = (Num::whole(false, n as nat), calibration::unit(p));
    let (z, m, b, x) = (Num::of(WILSON_Z_95).exact(), trials(n), weight(n), proportion(p));
    let (z2, d, two) = (WilsonInterval::z2(), WilsonInterval::denom(nf), Num::of(TWO).fmul(nf));
    lemma_proportion(p);
    lemma_constants(n);
    calibration::lemma_trials(n);
    calibration::lemma_wilson_divisors(n);
    calibration::lemma_wilson_parts(p, n);
    lemma_denominator(n);
    lemma_sizes(z * z, m);
    // Twice the trials.
    exact::lemma_near_mul(Num::of(TWO), nf);
    exact::lemma_near_quotient(z2.exact(), z * z, two.exact(), 2real * m, 2real, 2real);
    lemma_still_large(z2.exact() / two.exact(), z * z / (2real * m), 6real);
    bounds::lemma_power(0);
    bounds::lemma_power(2);
    bounds::lemma_div_within(z2, two, 2, 0);
    exact::lemma_near_div(z2, two);
    let y = z2.fdiv(two);
    let b2 = b / 2real;
    exact::lemma_over(z * z, m);
    lemma_double(b, m);
    exact::lemma_quotient_is(b2, z * z, 2real * m);
    exact::lemma_near_step(y.exact(), z2.exact() / two.exact(), b2, 2real, 6real);
    // The proportion and that.
    exact::lemma_near_self(x);
    exact::lemma_near_more(x, x, 0real, 9real);
    exact::lemma_near_sum(x, x, y.exact(), b2, 9real);
    exact::lemma_still_positive(y.exact(), b2, 9real);
    bounds::lemma_within_more(q, 0, 2);
    bounds::lemma_add_within(q, y, 2);
    exact::lemma_near_add(q, y);
    let s = q.fadd(y);
    exact::lemma_near_step(s.exact(), x + y.exact(), x + b2, 1real, 9real);
    // Over the denominator.
    let c = (x + b2) / (1real + b);
    exact::lemma_near_quotient(s.exact(), x + b2, d.exact(), 1real + b, 11real, 9real);
    lemma_middle_large(x, b);
    lemma_still_large(s.exact() / d.exact(), c, 22real);
    exact::lemma_near_div(s, d);
    exact::lemma_near_step(s.fdiv(d).exact(), s.exact() / d.exact(), c, 2real, 22real);
    lemma_middle_is(x, b);
}

proof fn lemma_double(b: real, m: real)
    by (nonlinear_arith)
    ensures
        (b / 2real) * (2real * m) == b * m,
{
}

/// `v` is within `k` rounding errors and `i` halves of a unit of `x`.
pub open spec fn nearly(v: real, x: real, k: real, i: real) -> bool {
    let (e, t) = (exact::eps(), exact::tiny());
    x * (1real - k * e) - i * t <= v <= x * (1real + k * e) + i * t
}

proof fn lemma_nearly_step(r: real, v: real, x: real, k: real, i: real)
    requires
        nearly(v, x, k, i),
        exact::rabs(r - v) <= exact::eps() * exact::rabs(v) + exact::tiny(),
        v >= 0real,
        x >= 0real,
        0real <= k <= 100real,
        0real <= i <= 100real,
    ensures
        nearly(r, x, k + 2real, i + 2real),
{
    let (e, t) = (exact::eps(), exact::tiny());
    exact::lemma_units_positive();
    let (ke, it) = (k * e, i * t);
    exact::lemma_times(k, 100real, e);
    exact::lemma_not_negative(k, e);
    exact::lemma_not_negative(i, t);
    exact::lemma_times(i, 100real, t);
    // How much one rounding adds.
    let (lo, hi) = (x * (1real - ke) - it, x * (1real + ke) + it);
    exact::lemma_times(v, hi, e);
    assert(e * hi == e * (x * (1real + ke)) + e * it) by (nonlinear_arith)
        requires
            hi == x * (1real + ke) + it,
    ;
    exact::lemma_times(1real + ke, 2real, x);
    exact::lemma_times(x * (1real + ke), x * 2real, e);
    exact::lemma_times(it, 100real * t, e);
    exact::lemma_times(e, 1real / 100real, 100real * t);
    assert(e * (x * 2real) == x * (2real * e)) by (nonlinear_arith);
    assert(x * (1real - (k + 2real) * e) == x * (1real - ke) - x * (2real * e)) by (nonlinear_arith)
        requires
            ke == k * e,
    ;
    assert(x * (1real + (k + 2real) * e) == x * (1real + ke) + x * (2real * e)) by (nonlinear_arith)
        requires
            ke == k * e,
    ;
    assert((i + 2real) * t == it + 2real * t) by (nonlinear_arith)
        requires
            it == i * t,
    ;
}

proof fn lemma_nearly_over(v: real, x: real, m: real, k: real, i: real)
    requires
        nearly(v, x, k, i),
        m >= 1real,
        0real <= i,
    ensures
        nearly(v / m, x / m, k, i),
{
    let (e, t) = (exact::eps(), exact::tiny());
    exact::lemma_units_positive();
    let it = i * t;
    exact::lemma_not_negative(i, t);
    let (f, g) = (1real - k * e, 1real + k * e);
    assert(x * f - it <= v <= x * g + it);
    assert((x / m) * f - it <= v / m <= (x / m) * g + it) by (nonlinear_arith)
        requires
            x * f - it <= v <= x * g + it,
            m >= 1real,
            it >= 0real,
    {
        assert((x / m) * f == (x * f) / m);
        assert((x / m) * g == (x * g) / m);
        assert((x * f - it) / m <= v / m <= (x * g + it) / m);
        assert(it / m <= it);
        assert((x * f - it) / m == (x * f) / m - it / m);
        assert((x * g + it) / m == (x * g) / m + it / m);
    }
}

/// The first part of what the root is taken of.
proof fn lemma_spread_variance(p: Num, n: u64)
    requires
        n > 0,
    ensures
        ({
            let (nf, q) = (Num::whole(false, n as nat), calibration::unit(p));
            let v = q.fmul(Num::of(ONE).fsub(q)).fdiv(nf);
            let x = proportion(p);
            &&& nearly(v.exact(), x * (1real - x) / trials(n), 6real, 4real)
            &&& v.finite()
            &&& v.exact() >= 0real
        }),
{
    let (nf, q, one) = (Num::whole(false, n as nat), calibration::unit(p), Num::of(ONE));
    let (m, x) = (trials(n), proportion(p));
    let (e, t) = (exact::eps(), exact::tiny());
    let y = 1real - x;
    let a = x * y;
    lemma_proportion(p);
    lemma_constants(n);
    lemma_variance(x);
    calibration::lemma_trials(n);
    calibration::lemma_wilson_spread(p, n);
    exact::lemma_units_positive();
    bounds::lemma_power(0);
    bounds::lemma_power(1);
    // One less the proportion.
    let rf = one.fsub(q);
    exact::lemma_exact_neg(q);
    bounds::lemma_add_within(one, q.fneg(), 0);
    exact::lemma_exact_add(one, q.fneg());
    let r = rf.exact();
    assert(exact::rabs(r - y) <= e * y);
    exact::lemma_times(e, 1real, y);
    assert(y * (1real - 1real * e) == y - e * y) by (nonlinear_arith);
    assert(y * (1real + 1real * e) == y + e * y) by (nonlinear_arith);
    assert(exact::near(r, y, 1real));
    assert(r >= 0real);
    // Times the proportion.
    exact::lemma_near_self(x);
    exact::lemma_near_product(x, x, r, y, 0real, 1real);
    lemma_nearly_of_near(x * r, a, 2real);
    exact::lemma_not_negative(x, r);
    let vf = q.fmul(rf);
    exact::lemma_exact_mul(q, rf);
    lemma_nearly_step(vf.exact(), x * r, a, 2real, 0real);
    exact::lemma_exact_zero(Num::of(ZERO));
    exact::lemma_exact_order(Num::of(ZERO), vf);
    // Over the trials.
    lemma_nearly_over(vf.exact(), a, m, 4real, 2real);
    let w = vf.fdiv(nf);
    bounds::lemma_mul_within(q, rf, 0, 1);
    bounds::lemma_div_within(vf, nf, 1, 0);
    algebra::law_div_antitone(vf, nf, nf);
    exact::lemma_exact_order(Num::of(ZERO), w);
    exact::lemma_exact_div(vf, nf);
    lemma_ratio_not_negative(vf.exact(), m);
    lemma_ratio_not_negative(a, m);
    lemma_nearly_step(w.exact(), vf.exact() / m, a / m, 4real, 2real);
}

proof fn lemma_ratio_not_negative(x: real, m: real)
    by (nonlinear_arith)
    requires
        x >= 0real,
        m >= 1real,
    ensures
        x / m >= 0real,
{
}

proof fn lemma_nearly_of_near(v: real, x: real, k: real)
    requires
        exact::near(v, x, k),
    ensures
        nearly(v, x, k, 0real),
{
    assert(0real * exact::tiny() == 0real) by (nonlinear_arith);
}

/// Exact value of what the root is taken of.
pub open spec fn spread(q: real, y: real, m: real) -> real {
    q * (1real - q) / m + y / (4real * m * m)
}

/// What the root is taken of is near the exact value.
proof fn lemma_spread(p: Num, n: u64)
    requires
        n > 0,
    ensures
        ({
            let (nf, q) = (Num::whole(false, n as nat), calibration::unit(p));
            let z = Num::of(WILSON_Z_95).exact();
            let s = calibration::wilson_spread(q, nf);
            &&& exact::near(s.exact(), spread(proportion(p), z * z, trials(n)), 20real)
            &&& s.finite()
            &&& spread(proportion(p), z * z, trials(n)) >= 40real * exact::small()
        }),
{
    let (nf, q, z2) = (
        Num::whole(false, n as nat),
        calibration::unit(p),
        WilsonInterval::z2(),
    );
    let (z, m, x) = (Num::of(WILSON_Z_95).exact(), trials(n), proportion(p));
    let (f1, f2) = (Num::of(FOUR).fmul(nf), Num::of(FOUR).fmul(nf).fmul(nf));
    lemma_proportion(p);
    lemma_constants(n);
    lemma_denominator(n);
    lemma_sizes(z * z, m);
    lemma_variance(x);
    lemma_ratio_not_negative(x * (1real - x), m);
    calibration::lemma_trials(n);
    calibration::lemma_wilson_divisors(n);
    calibration::lemma_wilson_spread(p, n);
    bounds::lemma_power(0);
    bounds::lemma_power(2);
    exact::lemma_small();
    // Four times the squared trials.
    bounds::lemma_mul_within(Num::of(FOUR), nf, 2, 64);
    exact::lemma_near_mul(Num::of(FOUR), nf);
    exact::lemma_near_self(m);
    exact::lemma_near_product(f1.exact(), 4real * m, m, m, 2real, 0real);
    exact::lemma_factor(m, m);
    lemma_four(m);
    lemma_still_large(f1.exact() * m, 4real * m * m, 3real);
    exact::lemma_near_mul(f1, nf);
    exact::lemma_near_step(f2.exact(), f1.exact() * m, 4real * m * m, 2real, 3real);
    // The second part.
    let y = z * z / (4real * m * m);
    exact::lemma_near_quotient(z2.exact(), z * z, f2.exact(), 4real * m * m, 2real, 6real);
    lemma_still_large(z2.exact() / f2.exact(), y, 10real);
    bounds::lemma_div_within(z2, f2, 2, 0);
    exact::lemma_near_div(z2, f2);
    let w = z2.fdiv(f2);
    exact::lemma_near_step(w.exact(), z2.exact() / f2.exact(), y, 2real, 10real);
    exact::lemma_still_positive(w.exact(), y, 13real);
    // Both.
    lemma_spread_variance(p, n);
    let v = q.fmul(Num::of(ONE).fsub(q)).fdiv(nf);
    let a = x * (1real - x) / m;
    lemma_nearly_sum(v.exact(), a, w.exact(), y);
    exact::lemma_near_add(v, w);
    exact::lemma_near_step(v.fadd(w).exact(), v.exact() + w.exact(), a + y, 1real, 17real);
    exact::lemma_near_more(v.fadd(w).exact(), a + y, 19real, 20real);
}

proof fn lemma_four(m: real)
    by (nonlinear_arith)
    requires
        m >= 1real,
    ensures
        (4real * m) * m == 4real * m * m,
        4real * m * m >= 4real,
{
    assert(m * m >= 1real);
}

proof fn lemma_nearly_sum(v: real, a: real, w: real, y: real)
    requires
        nearly(v, a, 6real, 4real),
        exact::near(w, y, 13real),
        a >= 0real,
        y >= 40real * exact::small(),
    ensures
        exact::near(v + w, a + y, 17real),
{
    let (e, t) = (exact::eps(), exact::tiny());
    exact::lemma_small();
    exact::lemma_times(40real * exact::small(), y, e);
    exact::lemma_times(a, a, e);
    exact::lemma_not_negative(a, e);
    assert((a + y) * (1real + 17real * e) == a + y + 17real * (a * e) + 17real * (y * e))
        by (nonlinear_arith);
    assert((a + y) * (1real - 17real * e) == a + y - 17real * (a * e) - 17real * (y * e))
        by (nonlinear_arith);
    assert(a * (1real + 6real * e) == a + 6real * (a * e)) by (nonlinear_arith);
    assert(a * (1real - 6real * e) == a - 6real * (a * e)) by (nonlinear_arith);
    assert(y * (1real + 13real * e) == y + 13real * (y * e)) by (nonlinear_arith);
    assert(y * (1real - 13real * e) == y - 13real * (y * e)) by (nonlinear_arith);
    assert((40real * exact::small()) * e == 40real * (e * exact::small())) by (nonlinear_arith);
}

/// The root is not too small.
proof fn lemma_root_large(w: real, a: real)
    requires
        w >= 0real,
        exact::near(w * w, a, 29real),
        a >= 40real * exact::small(),
        0real < exact::small() <= 1real / 10000real,
    ensures
        w >= 100real * exact::small(),
{
    let s = exact::small();
    exact::lemma_still_positive(w * w, a, 29real);
    if w < 100real * s {
        exact::lemma_times(w, 100real * s, w);
        exact::lemma_times(w, 100real * s, 100real * s);
        exact::lemma_times(s, 1real / 10000real, s);
        assert((100real * s) * (100real * s) == 10000real * (s * s)) by (nonlinear_arith);
    }
}

/// The product of squared multiplier and spread.
proof fn lemma_spread_is(a: real, y: real, m: real)
    requires
        m >= 1real,
    ensures
        y * (a / m + y / (4real * m * m)) == a * (y / m) + (y / m) * (y / m) / 4real,
{
    let (b, c, d) = (y / m, a / m, y / (4real * m * m));
    exact::lemma_over(y, m);
    exact::lemma_over(a, m);
    lemma_four(m);
    exact::lemma_over(y, 4real * m * m);
    assert(d * (4real * m) == b) by (nonlinear_arith)
        requires
            d * (4real * m * m) == y,
            b * m == y,
            m >= 1real,
    {
        assert((d * (4real * m)) * m == d * (4real * m * m));
    }
    assert(y * c == a * b) by (nonlinear_arith)
        requires
            b * m == y,
            c * m == a,
    {
        assert(y * c == b * (c * m));
    }
    assert(y * d == b * b / 4real) by (nonlinear_arith)
        requires
            b * m == y,
            d * (4real * m) == b,
    {
        assert(y * d == b * (m * d));
        assert(4real * (m * d) == b);
    }
    assert(y * (c + d) == y * c + y * d) by (nonlinear_arith);
}

/// The half-width of an interval is near the exact one.
proof fn lemma_half(p: Num, n: u64)
    requires
        n > 0,
    ensures
        ({
            let nf = Num::whole(false, n as nat);
            let h = WilsonInterval::half(calibration::unit(p), nf);
            &&& exact::near(
                h.exact() * h.exact(),
                half_squared(proportion(p), share(weight(n))),
                63real,
            )
            &&& h.finite()
            &&& h.exact() >= 0real
        }),
{
    let (nf, q, zf) = (
        Num::whole(false, n as nat),
        calibration::unit(p),
        Num::of(WILSON_Z_95),
    );
    let (z, m, b, x) = (zf.exact(), trials(n), weight(n), proportion(p));
    let d = WilsonInterval::denom(nf);
    let sf = calibration::wilson_spread(q, nf);
    let a = spread(x, z * z, m);
    lemma_proportion(p);
    lemma_constants(n);
    lemma_denominator(n);
    lemma_sizes(z * z, m);
    lemma_variance(x);
    lemma_spread(p, n);
    calibration::lemma_wilson_spread(p, n);
    calibration::lemma_wilson_divisors(n);
    calibration::lemma_wilson_parts(p, n);
    exact::lemma_exact_zero(Num::of(ZERO));
    exact::lemma_small();
    // The root.
    lemma_still_large(sf.exact(), a, 20real);
    exact::lemma_exact_order(Num::of(ZERO), sf);
    let wf = sf.fsqrt();
    lemma_root_finite(p, n);
    exact::lemma_exact_sqrt(sf);
    let w = wf.exact();
    assert(exact::near(w * w, sf.exact(), 8real));
    exact::lemma_near_step(w * w, sf.exact(), a, 8real, 20real);
    lemma_root_large(w, a);
    // Times the multiplier.
    let tf = zf.fmul(wf);
    let t = tf.exact();
    exact::lemma_times(1real, z, w);
    exact::lemma_near_mul(zf, wf);
    exact::lemma_not_negative(z, w);
    exact::lemma_near_product(t, z * w, t, z * w, 2real, 2real);
    lemma_regroup(z, w);
    exact::lemma_near_self(z * z);
    exact::lemma_near_product(z * z, z * z, w * w, a, 0real, 29real);
    exact::lemma_not_negative(z * z, a);
    exact::lemma_near_step(t * t, (z * z) * (w * w), (z * z) * a, 5real, 30real);
    exact::lemma_still_positive(t, z * w, 2real);
    // Over the denominator.
    let (dd, d0) = (d.exact(), 1real + b);
    exact::lemma_still_positive(dd, d0, 9real);
    exact::lemma_near_product(dd, d0, dd, d0, 9real, 9real);
    exact::lemma_times(1real, d0, d0);
    exact::lemma_near_quotient(t * t, (z * z) * a, dd * dd, d0 * d0, 36real, 19real);
    let hf = tf.fdiv(d);
    let h = hf.exact();
    exact::lemma_over(t, dd);
    if t / dd < exact::small() {
        exact::lemma_times(t / dd, exact::small(), dd);
        exact::lemma_times(dd, 10real, exact::small());
    }
    exact::lemma_near_div(tf, d);
    exact::lemma_near_product(h, t / dd, h, t / dd, 2real, 2real);
    lemma_square_ratio(t, dd);
    let g = (z * z) * a / (d0 * d0);
    lemma_at_most_zero((z * z) * a, d0 * d0);
    exact::lemma_near_step(h * h, (t * t) / (dd * dd), g, 5real, 57real);
    lemma_spread_is(x * (1real - x), z * z, m);
    lemma_half_is(x, b);
    assert(h >= 0real) by {
        exact::lemma_exact_order(Num::of(ZERO), hf);
    }
}

proof fn lemma_square_ratio(t: real, d: real)
    by (nonlinear_arith)
    requires
        d > 0real,
    ensures
        (t / d) * (t / d) == (t * t) / (d * d),
{
}

proof fn lemma_at_most_zero(x: real, d: real)
    by (nonlinear_arith)
    requires
        x >= 0real,
        d >= 1real,
    ensures
        x / d >= 0real,
{
}

/// The root of the spread is finite.
proof fn lemma_root_finite(p: Num, n: u64)
    requires
        n > 0,
    ensures
        calibration::wilson_spread(
            calibration::unit(p),
            Num::whole(false, n as nat),
        ).fsqrt().finite(),
{
    let s = calibration::wilson_spread(calibration::unit(p), Num::whole(false, n as nat));
    calibration::lemma_wilson_spread(p, n);
    let r = Num::of(WILSON_Z_95).fmul(s.fsqrt());
    assert(r.finite());
    reveal(Num::fmul);
}

/// What rounding may move an end of an interval by: 1e-12.
pub open spec fn tolerance() -> real {
    1real / 1000000000000real
}

/// Numbers whose squares are nearly in order are nearly in order.
proof fn lemma_close_roots(g: real, h: real, k: real)
    requires
        g >= 0real,
        h >= 0real,
        k >= 0real,
        (g * g) * (1real - k * exact::eps()) <= h * h,
    ensures
        g <= h + (k * exact::eps()) * g,
{
    let f = k * exact::eps();
    exact::lemma_not_negative(k, exact::eps());
    if g > h + f * g {
        exact::lemma_not_negative(f, g);
        exact::lemma_not_negative(f * g, h);
        assert((g - h) * (g + h) == g * g - h * h) by (nonlinear_arith);
        assert((f * g) * (g + h) == f * (g * g) + (f * g) * h) by (nonlinear_arith);
        assert((g * g) * (1real - f) == g * g - f * (g * g)) by (nonlinear_arith);
        let (u, v) = (g - h, f * g);
        assert(u * (g + h) > v * (g + h)) by (nonlinear_arith)
            requires
                u > v,
                g + h > 0real,
        ;
    }
}

/// Middle and half-width of an interval: how they stand to the proportion, to
/// zero and to one.
proof fn lemma_shape(p: Num, n: u64)
    requires
        n > 0,
    ensures
        ({
            let nf = Num::whole(false, n as nat);
            let c = WilsonInterval::center(calibration::unit(p), nf).exact();
            let h = WilsonInterval::half(calibration::unit(p), nf).exact();
            let x = proportion(p);
            &&& 0real <= h <= 1real
            &&& c - h <= x + 100real * exact::eps()
            &&& x <= c + h + 100real * exact::eps()
            &&& h <= c + 100real * exact::eps()
            &&& c + h <= 1real + 100real * exact::eps()
        }),
{
    let nf = Num::whole(false, n as nat);
    let c = WilsonInterval::center(calibration::unit(p), nf).exact();
    let h = WilsonInterval::half(calibration::unit(p), nf).exact();
    let (x, b, e) = (proportion(p), weight(n), exact::eps());
    let t = share(b);
    let (m, s) = (middle(x, t), half_squared(x, t));
    let z = Num::of(WILSON_Z_95).exact();
    lemma_proportion(p);
    lemma_constants(n);
    lemma_denominator(n);
    lemma_sizes(z * z, trials(n));
    lemma_share(b, b);
    lemma_reaches(x, t);
    lemma_center(p, n);
    lemma_half(p, n);
    // The middle.
    exact::lemma_times(m, 1real, 25real * e);
    assert(m * (1real + 25real * e) == m + (25real * e) * m) by (nonlinear_arith);
    assert(m * (1real - 25real * e) == m - (25real * e) * m) by (nonlinear_arith);
    assert(m - 25real * e <= c <= m + 25real * e);
    // The half-width.
    let hh = h * h;
    exact::lemma_times(s, 1real / 4real, 63real * e);
    assert(s * (1real + 63real * e) == s + (63real * e) * s) by (nonlinear_arith);
    assert(s * (1real - 63real * e) == s - (63real * e) * s) by (nonlinear_arith);
    assert(hh <= 1real);
    if h > 1real {
        exact::lemma_times(1real, h, h);
    }
    // Reach of the proportion.
    let g = if m >= x {
        m - x
    } else {
        x - m
    };
    assert(g * g == (m - x) * (m - x)) by (nonlinear_arith)
        requires
            g == m - x || g == x - m,
    ;
    exact::lemma_times(g * g, s, 1real - 63real * e);
    lemma_close_roots(g, h, 63real);
    assert(g <= 1real);
    exact::lemma_times(g, 1real, 63real * e);
    // Zero and one.
    assert(hh * (1real - 64real * e) <= s) by {
        let k = (63real * e) * s;
        exact::lemma_times(s + k, s + k, 64real * e);
        assert(hh * (1real - 64real * e) == hh - (64real * e) * hh) by (nonlinear_arith);
        exact::lemma_times(hh, s + k, 1real - 64real * e);
        assert((s + k) * (1real - 64real * e) <= s) by (nonlinear_arith)
            requires
                k == (63real * e) * s,
                s >= 0real,
                0real < e < 1real / 1000000real,
        {
            assert((s + k) * (1real - 64real * e) == s * ((1real + 63real * e) * (1real - 64real
                * e)));
            assert((1real + 63real * e) * (1real - 64real * e) <= 1real);
        }
    }
    lemma_close_roots(h, m, 64real);
    lemma_close_roots(h, 1real - m, 64real);
    exact::lemma_times(h, 1real, 64real * e);
}

/// The ends before they are moved into range.
proof fn lemma_raw_ends(p: Num, n: u64)
    requires
        n > 0,
    ensures
        ({
            let nf = Num::whole(false, n as nat);
            let c = WilsonInterval::center(calibration::unit(p), nf);
            let h = WilsonInterval::half(calibration::unit(p), nf);
            let (lo, hi) = (c.fsub(h), c.fadd(h));
            let e = exact::eps();
            &&& lo.finite() && hi.finite()
            &&& exact::rabs(lo.exact() - (c.exact() - h.exact())) <= 2real * e
            &&& exact::rabs(hi.exact() - (c.exact() + h.exact())) <= 2real * e
        }),
{
    let nf = Num::whole(false, n as nat);
    let c = WilsonInterval::center(calibration::unit(p), nf);
    let h = WilsonInterval::half(calibration::unit(p), nf);
    lemma_shape(p, n);
    lemma_center(p, n);
    lemma_half(p, n);
    lemma_proportion(p);
    calibration::lemma_wilson_parts(p, n);
    bounds::lemma_power(3);
    bounds::lemma_power(4);
    bounds::lemma_add_within(c, h, 3);
    bounds::lemma_add_within(c, h.fneg(), 3);
    exact::lemma_exact_neg(h);
    exact::lemma_exact_add(c, h);
    exact::lemma_exact_add(c, h.fneg());
    let (x, y) = (c.exact() - h.exact(), c.exact() + h.exact());
    exact::lemma_times(exact::rabs(x), 2real, exact::eps());
    exact::lemma_times(exact::rabs(y), 2real, exact::eps());
}

/// A number moved into `[0, 1]`, exactly.
proof fn lemma_unit_exact(v: Num)
    requires
        v.finite(),
    ensures
        ({
            let (x, u) = (v.exact(), calibration::unit(v).exact());
            u == if x < 0real {
                0real
            } else if x > 1real {
                1real
            } else {
                x
            }
        }),
{
    lemma_constants(1);
    exact::lemma_exact_zero(Num::of(ZERO));
    exact::lemma_exact_order(v, Num::of(ZERO));
    exact::lemma_exact_order(Num::of(ONE), v);
}

/// A Wilson interval brackets the proportion it was made for, up to 1e-12.
pub proof fn law_wilson_brackets(p: Num, n: u64)
    requires
        n > 0,
    ensures
        ({
            let w = WilsonInterval::of_proportion(p, n);
            &&& w.lo.exact() <= proportion(p) + tolerance()
            &&& proportion(p) <= w.hi.exact() + tolerance()
        }),
{
    let nf = Num::whole(false, n as nat);
    let c = WilsonInterval::center(calibration::unit(p), nf);
    let h = WilsonInterval::half(calibration::unit(p), nf);
    lemma_proportion(p);
    lemma_shape(p, n);
    lemma_raw_ends(p, n);
    lemma_unit_exact(c.fsub(h));
    lemma_unit_exact(c.fadd(h));
}

/// The interval of a proportion of one half lies evenly about it, up to rounding.
pub proof fn law_wilson_is_even_about_a_half(p: Num, n: u64)
    requires
        n > 0,
        proportion(p) == 1real / 2real,
    ensures
        ({
            let w = WilsonInterval::of_proportion(p, n);
            exact::rabs(w.lo.exact() + w.hi.exact() - 1real) <= tolerance()
        }),
{
    let nf = Num::whole(false, n as nat);
    let c = WilsonInterval::center(calibration::unit(p), nf);
    let h = WilsonInterval::half(calibration::unit(p), nf);
    let t = share(weight(n));
    lemma_shape(p, n);
    lemma_raw_ends(p, n);
    lemma_unit_exact(c.fsub(h));
    lemma_unit_exact(c.fadd(h));
    lemma_center(p, n);
    assert(t * (1real / 2real - 1real / 2real) == 0real) by (nonlinear_arith);
    assert(middle(proportion(p), t) == 1real / 2real);
}

/// How wide an interval is, exactly.
pub open spec fn width(w: WilsonInterval) -> real {
    w.hi.exact() - w.lo.exact()
}

/// The width of an interval is twice its half-width, up to rounding.
proof fn lemma_width(p: Num, n: u64)
    requires
        n > 0,
    ensures
        ({
            let nf = Num::whole(false, n as nat);
            let h = WilsonInterval::half(calibration::unit(p), nf).exact();
            let w = width(WilsonInterval::of_proportion(p, n));
            exact::rabs(w - 2real * h) <= 300real * exact::eps()
        }),
{
    let nf = Num::whole(false, n as nat);
    let c = WilsonInterval::center(calibration::unit(p), nf);
    let h = WilsonInterval::half(calibration::unit(p), nf);
    lemma_proportion(p);
    lemma_shape(p, n);
    lemma_raw_ends(p, n);
    lemma_unit_exact(c.fsub(h));
    lemma_unit_exact(c.fadd(h));
}

/// A Wilson interval widens as the number of trials shrinks: from more trials
/// it is not wider, up to 1e-12.
pub proof fn law_wilson_widens_as_trials_shrink(p: Num, n: u64, m: u64)
    requires
        0 < n <= m,
    ensures
        width(WilsonInterval::of_proportion(p, m)) <= width(WilsonInterval::of_proportion(p, n))
            + tolerance(),
{
    let (nf, mf) = (Num::whole(false, n as nat), Num::whole(false, m as nat));
    let q = calibration::unit(p);
    let (g, h) = (WilsonInterval::half(q, mf).exact(), WilsonInterval::half(q, nf).exact());
    let (x, z, e) = (proportion(p), Num::of(WILSON_Z_95).exact(), exact::eps());
    lemma_proportion(p);
    lemma_constants(n);
    lemma_constants(m);
    lemma_denominator(n);
    lemma_sizes(z * z, trials(n));
    lemma_sizes(z * z, trials(m));
    integral::lemma_whole_order(n as nat, m as nat);
    exact::lemma_exact_order(nf, mf);
    lemma_over_more(z * z, trials(n), trials(m));
    lemma_share(weight(m), weight(n));
    lemma_share(weight(n), weight(n));
    lemma_half(p, n);
    lemma_half(p, m);
    lemma_shape(p, m);
    let (s, t) = (half_squared(x, share(weight(m))), half_squared(x, share(weight(n))));
    lemma_shrinks(x, share(weight(m)), share(weight(n)));
    lemma_reaches(x, share(weight(m)));
    exact::lemma_times(s, t, 1real + 63real * e);
    exact::lemma_not_negative(g, g);
    lemma_ratio_of_squares(g * g, h * h, t);
    lemma_close_roots(g, h, 130real);
    exact::lemma_times(g, 1real, 130real * e);
    lemma_width(p, n);
    lemma_width(p, m);
}

proof fn lemma_over_more(y: real, n: real, m: real)
    by (nonlinear_arith)
    requires
        y >= 0real,
        1real <= n <= m,
    ensures
        y / m <= y / n,
{
}

proof fn lemma_ratio_of_squares(g: real, h: real, t: real)
    requires
        0real <= g <= t * (1real + 63real * exact::eps()),
        h >= t * (1real - 63real * exact::eps()),
        t >= 0real,
    ensures
        g * (1real - 130real * exact::eps()) <= h,
{
    let e = exact::eps();
    exact::lemma_times(g, t * (1real + 63real * e), 1real - 130real * e);
    assert((1real + 63real * e) * (1real - 130real * e) <= 1real - 63real * e) by (nonlinear_arith)
        requires
            0real < e < 1real / 1000000real,
    ;
    exact::lemma_times((1real + 63real * e) * (1real - 130real * e), 1real - 63real * e, t);
    assert((t * (1real + 63real * e)) * (1real - 130real * e) == t * ((1real + 63real * e) * (1real
        - 130real * e))) by (nonlinear_arith);
}

} // verus!
