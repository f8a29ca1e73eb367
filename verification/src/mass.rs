//! How far rounding moves the mass of a density.

use crate::algebra;
use crate::consts::{HALF, NEG_ZERO, ONE, ZERO};
use crate::exact;
use crate::num::Num;
use crate::risk;
use crate::rnd;
use crate::sums;
use vstd::arithmetic::power2::*;
use vstd::prelude::*;

verus! {

/// Finite numbers from zero on.
pub open spec fn masses(xs: Seq<Num>) -> bool {
    forall|i: int| 0 <= i < xs.len() ==> (#[trigger] xs[i]).finite() && !xs[i].negative()
}

/// The exact sum of some numbers.
pub open spec fn exact_sum(xs: Seq<Num>) -> real
    decreases xs.len(),
{
    if xs.len() == 0 {
        0real
    } else {
        exact_sum(xs.drop_last()) + xs.last().exact()
    }
}

/// Numbers from zero on are exactly that.
proof fn lemma_mass(a: Num)
    requires
        a.finite(),
        !a.negative(),
    ensures
        a.exact() >= 0real,
{
    exact::lemma_exact_zero(Num::of(ZERO));
    exact::lemma_exact_order(Num::of(ZERO), a);
}

/// A sum of masses is near the exact one.
proof fn lemma_sum_near(xs: Seq<Num>)
    requires
        masses(xs),
        xs.len() <= 400,
        sums::sum(xs).finite(),
    ensures
        exact::near(
            sums::sum(xs).exact(),
            exact_sum(xs),
            2real * (xs.len() as int as real),
        ),
        exact_sum(xs) >= 0real,
        sums::sum(xs).exact() >= 0real,
    decreases xs.len(),
{
    if xs.len() == 0 {
        exact::lemma_exact_zero(Num::of(NEG_ZERO));
        assert(0real * (1real - (2real * 0real) * exact::eps()) == 0real) by (nonlinear_arith);
        assert(0real * (1real + (2real * 0real) * exact::eps()) == 0real) by (nonlinear_arith);
    } else {
        let (r, x) = (xs.drop_last(), xs.last());
        assert(forall|i: int| 0 <= i < r.len() ==> r[i] == xs[i]);
        assert(xs[xs.len() - 1] == x);
        let s = sums::sum(r);
        assert(s.finite()) by {
            reveal(Num::fadd);
        }
        lemma_sum_near(r);
        lemma_mass(x);
        exact::lemma_near_add(s, x);
        let (n, v, t) = (2real * (r.len() as int as real), x.exact(), exact_sum(r));
        exact::lemma_near_self(v);
        exact::lemma_near_more(v, v, 0real, n);
        exact::lemma_near_sum(s.exact(), t, v, v, n);
        exact::lemma_near_step(s.fadd(x).exact(), s.exact() + v, t + v, 1real, n);
        exact::lemma_still_positive(s.fadd(x).exact(), s.exact() + v, 1real);
    }
}

/// The exact trapezoid between two sides.
pub open spec fn exact_trapezoid(a: Num, b: Num, h: real) -> real {
    (a.exact() + b.exact()) / 2real * h
}

/// What a trapezoid may be off by beyond five roundings of it.
pub open spec fn crumb(h: real) -> real {
    exact::tiny() * (2real * h + 1real)
}

/// A trapezoid is near the exact one.
proof fn lemma_trapezoid_near(a: Num, b: Num, step: Num)
    requires
        a.finite() && !a.negative(),
        b.finite() && !b.negative(),
        step.finite() && !step.negative(),
        rnd::trapezoid(a, b, step).finite(),
    ensures
        ({
            let (w, x) = (
                rnd::trapezoid(a, b, step).exact(),
                exact_trapezoid(a, b, step.exact()),
            );
            let e = exact::eps();
            &&& exact::rabs(w - x) <= 5real * (e * x) + crumb(step.exact())
            &&& x >= 0real
            &&& w >= 0real
            &&& !rnd::trapezoid(a, b, step).negative()
        }),
{
    let (half, u) = (Num::of(HALF), a.fadd(b));
    let v = half.fmul(u);
    let w = v.fmul(step);
    let (e, t, h) = (exact::eps(), exact::tiny(), step.exact());
    exact::lemma_units_positive();
    assert(u.finite() && v.finite()) by {
        reveal(Num::fmul);
        reveal(Num::fadd);
        algebra::lemma_add_not_negative(a, b);
    }
    lemma_mass(a);
    lemma_mass(b);
    lemma_mass(step);
    algebra::lemma_add_not_negative(a, b);
    algebra::lemma_mul_is_number(half, u);
    algebra::lemma_mul_is_number(v, step);
    lemma_mass(u);
    lemma_mass(v);
    lemma_mass(w);
    exact::lemma_exact_add(a, b);
    exact::lemma_exact_mul(half, u);
    exact::lemma_exact_mul(v, step);
    lemma_half_exact();
    let (p, q) = (a.exact() + b.exact(), v.exact());
    // The middle height.
    let m = p / 2real;
    exact::lemma_times(e, 1real / 100real, p);
    assert(e * p == p * e) by (nonlinear_arith);
    assert((1real / 2real) * u.exact() == u.exact() / 2real);
    exact::lemma_times(u.exact() / 2real, p, e);
    assert(exact::rabs(q - m) <= 3real * (e * m) + t) by {
        assert(e * m == e * p / 2real) by (nonlinear_arith)
            requires
                m == p / 2real,
        ;
        exact::lemma_not_negative(e, p);
        // e * u / 2 is at most e * p, that is 2 * e * m.
        assert(exact::rabs(q - u.exact() / 2real) <= e * (u.exact() / 2real) + t);
        lemma_tighter(e, u.exact(), p);
    }
    // Times the step.
    let x = m * h;
    exact::lemma_not_negative(m, h);
    exact::lemma_not_negative(e, x);
    exact::lemma_not_negative(t, h);
    lemma_error_by(q, m, 3real * (e * m) + t, h);
    assert((3real * (e * m) + t) * h == 3real * (e * x) + t * h) by (nonlinear_arith)
        requires
            x == m * h,
    ;
    exact::lemma_not_negative(q, h);
    lemma_last_step(e, q * h, x, t * h, t);
    assert(t * (2real * h + 1real) == 2real * (t * h) + t) by (nonlinear_arith);
}

/// One half is exact.
proof fn lemma_half_exact()
    ensures
        Num::of(HALF).exact() == 1real / 2real,
        Num::of(HALF).finite(),
{
    reveal(Num::exact);
    lemma2_to64();
    lemma2_to64_rest();
    lemma_pow2_adds(52, 1021);
    lemma_pow2_unfold(1074);
    exact::lemma_units_positive();
    assert(Num::of(HALF).scale() == 1021);
    assert(Num::of(HALF).significand() == pow2(52));
    let (x, u) = (pow2(1073) as int as real, exact::one_units());
    assert(u == 2real * x);
    assert(x / u == 1real / 2real) by (nonlinear_arith)
        requires
            u == 2real * x,
            u >= 1real,
    ;
}

proof fn lemma_tighter(e: real, u: real, p: real)
    requires
        e == exact::eps(),
        p >= 0real,
        exact::rabs(u - p) <= e * p,
    ensures
        e * (u / 2real) + (e * p) / 2real <= 3real * (e * p / 2real),
{
    exact::lemma_not_negative(e, p);
    exact::lemma_times(e, 1real / 100real, p);
    assert(e * p == p * e) by (nonlinear_arith);
    assert(u / 2real <= p);
    exact::lemma_times(u / 2real, p, e);
}

proof fn lemma_error_by(x: real, y: real, d: real, h: real)
    requires
        exact::rabs(x - y) <= d,
        h >= 0real,
    ensures
        exact::rabs(x * h - y * h) <= d * h,
{
    assert(x * h - y * h == (x - y) * h) by (nonlinear_arith);
    exact::lemma_times(x - y, d, h);
    exact::lemma_times(-d, x - y, h);
    assert((-d) * h == -(d * h)) by (nonlinear_arith);
}

/// One more rounding.
proof fn lemma_last_step(e: real, y: real, x: real, th: real, t: real)
    requires
        e == exact::eps(),
        y >= 0real,
        x >= 0real,
        th >= 0real,
        t >= 0real,
        exact::rabs(y - x) <= 3real * (e * x) + th,
    ensures
        3real * (e * x) + th + e * y + t <= 5real * (e * x) + 2real * th + t,
{
    let ex = e * x;
    exact::lemma_not_negative(e, x);
    exact::lemma_times(y, x + 3real * ex + th, e);
    assert(e * (x + 3real * ex + th) == ex + 3real * (e * ex) + e * th) by (nonlinear_arith)
        requires
            ex == e * x,
    ;
    exact::lemma_times(e, 1real / 3real, ex);
    exact::lemma_times(e, 1real, th);
}

/// The exact integral over the first `n` trapezoids.
pub open spec fn area(ys: Seq<Num>, h: real, n: nat) -> real
    decreases n,
{
    if n == 0 {
        0real
    } else {
        area(ys, h, (n - 1) as nat) + exact_trapezoid(ys[n - 1], ys[n as int], h)
    }
}

/// The trapezoids of a grid are masses that add up near the exact integral.
proof fn lemma_trapezoids_near(ys: Seq<Num>, step: Num, n: nat)
    requires
        masses(ys),
        step.finite() && !step.negative(),
        n < ys.len(),
        forall|i: int|
            0 <= i < n ==> (#[trigger] rnd::trapezoids(ys, step)[i]).finite(),
    ensures
        ({
            let (ts, h) = (rnd::trapezoids(ys, step), step.exact());
            let (w, a) = (exact_sum(ts.take(n as int)), area(ys, h, n));
            &&& exact::rabs(w - a) <= 5real * (exact::eps() * a) + (n as int as real) * crumb(h)
            &&& a >= 0real
            &&& w >= 0real
            &&& masses(ts.take(n as int))
        }),
    decreases n,
{
    let (ts, h) = (rnd::trapezoids(ys, step), step.exact());
    let (e, c) = (exact::eps(), crumb(step.exact()));
    if n == 0 {
        assert(5real * (e * 0real) == 0real && 0real * c == 0real) by (nonlinear_arith);
    } else {
        let m = (n - 1) as nat;
        lemma_trapezoids_near(ys, step, m);
        let (a, b) = (ys[n - 1], ys[n as int]);
        assert(ts[n - 1] == rnd::trapezoid(a, b, step));
        assert(ts[n - 1].finite());
        lemma_trapezoid_near(a, b, step);
        assert(ts.take(n as int).drop_last() =~= ts.take(m as int));
        assert(ts.take(n as int).last() == ts[n - 1]);
        let (p, x, k) = (area(ys, h, m), exact_trapezoid(a, b, h), m as int as real);
        assert(e * (p + x) == e * p + e * x) by (nonlinear_arith);
        assert((k + 1real) * c == k * c + c) by (nonlinear_arith);
        assert(n as int as real == k + 1real);
        assert forall|i: int| 0 <= i < n implies (#[trigger] ts.take(n as int)[i]).finite()
            && !ts.take(n as int)[i].negative() by {
            if i < m {
                assert(ts.take(m as int)[i] == ts[i]);
            }
        }
    }
}

/// What an integral over a hundred trapezoids may be off by.
pub open spec fn off(a: real, h: real) -> real {
    500real * (exact::eps() * a) + 200real * crumb(h)
}

/// An integral is near the exact one.
proof fn lemma_integral_near(ys: Seq<Num>, step: Num)
    requires
        masses(ys),
        step.finite() && !step.negative(),
        ys.len() == 101,
        rnd::integral_of(ys, step).finite(),
    ensures
        ({
            let (t, a) = (rnd::integral_of(ys, step).exact(), area(ys, step.exact(), 100));
            &&& exact::rabs(t - a) <= off(a, step.exact())
            &&& a >= 0real
            &&& t >= 0real
        }),
{
    let (ts, h) = (rnd::trapezoids(ys, step), step.exact());
    let (e, c) = (exact::eps(), crumb(step.exact()));
    lemma_parts_finite(ts, 100);
    assert(ts.take(100) =~= ts);
    lemma_trapezoids_near(ys, step, 100);
    lemma_sum_near(ts);
    let (w, a, t) = (exact_sum(ts), area(ys, h, 100), sums::sum(ts).exact());
    lemma_mass(step);
    exact::lemma_units_positive();
    exact::lemma_not_negative(exact::tiny(), 2real * h + 1real);
    exact::lemma_not_negative(e, a);
    // The sum is within 200 roundings of w, and w is at most 2 * a + 100 * c.
    exact::lemma_times(e, 1real / 100real, a);
    assert(e * a == a * e) by (nonlinear_arith);
    assert(w <= 2real * a + 100real * c);
    exact::lemma_times(w, 2real * a + 100real * c, e);
    assert(e * (2real * a + 100real * c) == 2real * (e * a) + 100real * (e * c)) by (nonlinear_arith);
    exact::lemma_times(e, 1real / 1000000real, c);
    assert(e * c == c * e) by (nonlinear_arith);
    assert(w * (1real - 200real * e) == w - 200real * (e * w)) by (nonlinear_arith);
    assert(w * (1real + 200real * e) == w + 200real * (e * w)) by (nonlinear_arith);
    assert(2real * (100int as real) == 200real);
}

/// The parts of a finite sum are finite.
proof fn lemma_parts_finite(xs: Seq<Num>, n: nat)
    requires
        xs.len() == n,
        sums::sum(xs).finite(),
    ensures
        forall|i: int| 0 <= i < n ==> (#[trigger] xs[i]).finite(),
    decreases n,
{
    if n > 0 {
        let (r, x) = (xs.drop_last(), xs.last());
        assert(sums::sum(r).finite() && x.finite()) by {
            reveal(Num::fadd);
        }
        lemma_parts_finite(r, (n - 1) as nat);
        assert forall|i: int| 0 <= i < n implies (#[trigger] xs[i]).finite() by {
            if i < n - 1 {
                assert(r[i] == xs[i]);
            }
        }
    }
}

/// 2^64.
pub open spec fn wide() -> real {
    0x1_0000_0000_0000_0000int as real
}

/// Crumbs of a step of at most 2^64 are negligible beside a total from 2^-64 on.
proof fn lemma_crumbs(h: real)
    requires
        0real <= h <= wide(),
    ensures
        ({
            let g = 1real / wide();
            &&& 0real <= crumb(h)
            &&& 800real * crumb(h) <= exact::eps() * g
            &&& 100real * (exact::tiny() * h) <= exact::eps() * g
            &&& exact::tiny() * h >= 0real
            &&& g > 0real
            &&& g <= 1real / 1000000real
        }),
{
    let (b, e, t, s) = (wide(), exact::eps(), exact::tiny(), exact::small());
    let g = 1real / b;
    exact::lemma_small();
    exact::lemma_units_positive();
    exact::lemma_over(1real, b);
    exact::lemma_over(1real, b * b * b);
    exact::lemma_not_negative(t, h);
    exact::lemma_not_negative(t, 2real * h + 1real);
    // b * s is g * g.
    let gg = g * g;
    assert(b * s == gg) by {
        exact::lemma_factor(b, b);
        exact::lemma_factor(b * b, b);
        assert((gg * b) * b == 1real) by (nonlinear_arith)
            requires
                gg == g * g,
                g * b == 1real,
        {
            assert((gg * b) * b == (g * b) * (g * b));
        }
        assert((b * s) * (b * b) == 1real) by (nonlinear_arith)
            requires
                s * (b * b * b) == 1real,
        ;
        assert(gg * (b * b) == 1real) by (nonlinear_arith)
            requires
                (gg * b) * b == 1real,
        ;
        exact::lemma_at_least(b * s, gg, b * b);
        exact::lemma_at_least(gg, b * s, b * b);
    }
    // What the crumbs add up to.
    exact::lemma_times(2real * h + 1real, 3real * b, t);
    exact::lemma_times(t, e * s, 3real * b);
    assert((e * s) * (3real * b) == 3real * (e * (b * s))) by (nonlinear_arith);
    assert(t * (3real * b) == (3real * b) * t) by (nonlinear_arith);
    assert(crumb(h) <= 3real * (e * gg));
    exact::lemma_times(h, b, t);
    exact::lemma_times(t, e * s, b);
    assert((e * s) * b == e * (b * s)) by (nonlinear_arith);
    assert(t * b == b * t) by (nonlinear_arith);
    assert(t * h <= e * gg);
    // g is small.
    exact::lemma_times(1000000real, b, g);
    assert(g * b == 1real);
    exact::lemma_times(g, 1real / 1000000real, g);
    exact::lemma_times(gg, g / 1000000real, e);
    assert(e * (g / 1000000real) == (e * g) / 1000000real) by (nonlinear_arith);
    exact::lemma_not_negative(e, g);
}

/// The exact integral of shares is nearly the share of the exact integral.
proof fn lemma_shares_area(ys: Seq<Num>, ds: Seq<Num>, total: Num, h: real, n: nat)
    requires
        masses(ys),
        masses(ds),
        ds.len() == ys.len(),
        n < ys.len(),
        forall|i: int| 0 <= i < ys.len() ==> #[trigger] ds[i] == ys[i].fdiv(total),
        total.finite() && total.mag() > 0,
        total.exact() > 0real,
        h >= 0real,
    ensures
        ({
            let (a, b) = (area(ys, h, n) / total.exact(), area(ds, h, n));
            &&& exact::rabs(b - a) <= exact::eps() * a + (n as int as real) * (exact::tiny() * h)
            &&& a >= 0real
        }),
    decreases n,
{
    let (e, t, c) = (exact::eps(), exact::tiny(), total.exact());
    let th = t * h;
    if n == 0 {
        exact::lemma_quotient_is(0real, 0real, c);
        assert(e * 0real == 0real && 0real * th == 0real && 0real * c == 0real)
            by (nonlinear_arith);
    } else {
        let m = (n - 1) as nat;
        lemma_shares_area(ys, ds, total, h, m);
        let (y, z) = (ys[n - 1], ys[n as int]);
        let (u, v) = (ds[n - 1], ds[n as int]);
        lemma_mass(y);
        lemma_mass(z);
        exact::lemma_exact_div(y, total);
        exact::lemma_exact_div(z, total);
        let (py, pz) = (y.exact() / c, z.exact() / c);
        exact::lemma_over(y.exact(), c);
        exact::lemma_over(z.exact(), c);
        lemma_quotient_sign(y.exact(), c);
        lemma_quotient_sign(z.exact(), c);
        // The two heights and the trapezoid.
        let (k, q) = ((u.exact() + v.exact()) / 2real, (py + pz) / 2real);
        assert(exact::rabs(k - q) <= e * q + t) by {
            assert(e * q == (e * py + e * pz) / 2real) by (nonlinear_arith)
                requires
                    q == (py + pz) / 2real,
            ;
        }
        lemma_error_by(k, q, e * q + t, h);
        let x = q * h;
        assert((e * q + t) * h == e * x + th) by (nonlinear_arith)
            requires
                x == q * h,
                th == t * h,
        ;
        exact::lemma_not_negative(q, h);
        // Its share of the exact one.
        let w = exact_trapezoid(y, z, h);
        assert(x * c == w) by (nonlinear_arith)
            requires
                x == q * h,
                q == (py + pz) / 2real,
                py * c == y.exact(),
                pz * c == z.exact(),
                w == (y.exact() + z.exact()) / 2real * h,
        {
            assert((q * h) * c == (q * c) * h);
            assert(q * c == (py * c + pz * c) / 2real);
        }
        let p = area(ys, h, m);
        exact::lemma_over(p, c);
        assert((p / c + x) * c == p + w) by (nonlinear_arith)
            requires
                (p / c) * c == p,
                x * c == w,
        ;
        exact::lemma_quotient_is(p / c + x, p + w, c);
        let r = m as int as real;
        assert(e * (p / c + x) == e * (p / c) + e * x) by (nonlinear_arith);
        assert((r + 1real) * th == r * th + th) by (nonlinear_arith);
        assert(n as int as real == r + 1real);
    }
}

proof fn lemma_quotient_sign(x: real, c: real)
    by (nonlinear_arith)
    requires
        x >= 0real,
        c > 0real,
    ensures
        x / c >= 0real,
{
}

/// A density over its total integrates to one, up to 2^-42.
///
/// The step is at most 2^64, the total at least 2^-64.
pub proof fn law_density_integrates_to_one(ys: Seq<Num>, step: Num)
    requires
        masses(ys),
        ys.len() == 101,
        step.finite() && !step.negative(),
        step.exact() <= wide(),
        ({
            let total = rnd::integral_of(ys, step);
            let ds = ys.map_values(|y: Num| y.fdiv(total));
            &&& total.finite()
            &&& total.exact() >= 1real / wide()
            &&& masses(ds)
            &&& rnd::integral_of(ds, step).finite()
        }),
    ensures
        ({
            let total = rnd::integral_of(ys, step);
            let ds = ys.map_values(|y: Num| y.fdiv(total));
            exact::rabs(rnd::integral_of(ds, step).exact() - 1real) <= 2048real * exact::eps()
        }),
{
    let total = rnd::integral_of(ys, step);
    let ds = ys.map_values(|y: Num| y.fdiv(total));
    let (h, e, c) = (step.exact(), exact::eps(), crumb(step.exact()));
    let (t, g) = (total.exact(), 1real / wide());
    lemma_mass(step);
    lemma_crumbs(h);
    lemma_integral_near(ys, step);
    lemma_integral_near(ds, step);
    assert(total.mag() > 0) by {
        if total.mag() == 0 {
            exact::lemma_exact_zero(total);
        }
    }
    lemma_shares_area(ys, ds, total, h, 100);
    let (a, b, v) = (area(ys, h, 100), area(ds, h, 100), rnd::integral_of(ds, step).exact());
    // The total is within 502 roundings of the exact one.
    exact::lemma_not_negative(e, a);
    exact::lemma_times(e, 1real / 1000000real, a);
    assert(e * a == a * e) by (nonlinear_arith);
    exact::lemma_times(e, 1real / 1000000real, g);
    assert(e * g == g * e) by (nonlinear_arith);
    assert(a >= g / 2real);
    exact::lemma_times(g / 2real, a, e);
    assert(e * (g / 2real) == e * g / 2real) by (nonlinear_arith);
    assert(exact::rabs(t - a) <= 501real * (e * a));
    // So is the share of the exact one from one.
    let s = a / t;
    exact::lemma_over(a, t);
    lemma_quotient_sign(a, t);
    lemma_ratio_near(s, t, a, e);
    // And the exact integral of the shares.
    exact::lemma_times(s, 2real, e);
    exact::lemma_times(g, 1real, e);
    assert(exact::rabs(b - 1real) <= 510real * e);
    exact::lemma_times(b, 2real, e);
}

proof fn lemma_ratio_near(s: real, t: real, a: real, e: real)
    requires
        e == exact::eps(),
        s * t == a,
        t > 0real,
        s >= 0real,
        exact::rabs(t - a) <= 501real * (e * a),
    ensures
        exact::rabs(s - 1real) <= 502real * e,
{
    // t is between a * (1 - 501 e) and a * (1 + 501 e).
    let f = 501real * e;
    assert(f * a == 501real * (e * a)) by (nonlinear_arith)
        requires
            f == 501real * e,
    ;
    assert((f * s) * t == f * a) by (nonlinear_arith)
        requires
            s * t == a,
    ;
    // In parts of t: |1 - s| is at most f * s.
    assert((1real - s) * t == t - a) by (nonlinear_arith)
        requires
            s * t == a,
    ;
    exact::lemma_at_least(f * s, 1real - s, t);
    assert((s - 1real) * t == a - t) by (nonlinear_arith)
        requires
            s * t == a,
    ;
    exact::lemma_at_least(f * s, s - 1real, t);
    // So s is at most 1 + 502 e, and f * s at most 502 e.
    exact::lemma_times(f, 1real / 1000000real, s);
    assert(f * s == s * f) by (nonlinear_arith);
    assert(s <= 1real + 1real / 100000real);
    exact::lemma_times(s, 1real + 1real / 100000real, f);
    assert((1real + 1real / 100000real) * f <= 502real * e) by (nonlinear_arith)
        requires
            f == 501real * e,
            e >= 0real,
    ;
}

/// The chances below and above the spot add up to one, up to a rounding.
pub proof fn law_spot_chances_add_up(
    curve: rnd::RndCurve,
    spot: Num,
    grid: rnd::RndGrid,
    density: Seq<Num>,
)
    requires
        curve.is_of(spot, grid, density),
        !curve.prob_below_spot.nan(),
    ensures
        exact::rabs(
            curve.prob_below_spot.exact() + curve.prob_above_spot.exact() - 1real,
        ) <= exact::eps(),
{
    let (zero, one, p) = (Num::of(ZERO), Num::of(ONE), curve.prob_below_spot);
    risk::lemma_complement(p);
    exact::lemma_exact_zero(zero);
    algebra::lemma_one_size();
    lemma2_to64();
    exact::lemma_exact_power(one, 0);
    exact::lemma_exact_order(zero, p);
    exact::lemma_exact_order(p, one);
    exact::lemma_exact_neg(p);
    exact::lemma_exact_add(one, p.fneg());
    exact::lemma_times(exact::rabs(1real - p.exact()), 1real, exact::eps());
}

} // verus!
