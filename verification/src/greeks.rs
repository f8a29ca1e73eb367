//! What the greeks of the pricing model are in real numbers, and the equations
//! between them.

use crate::black_scholes::{BsGreeks, BsInputs, BsTerms};
use crate::bounds;
use crate::closeness::{self, beside};
use crate::consts::ZERO;
use crate::dist;
use crate::exact;
use crate::market::OptionRight;
use crate::num::Num;
use crate::payoff;
use vstd::arithmetic::power2::*;
use vstd::prelude::*;

verus! {

/// Whether a number lies between two bounds.
pub open spec fn ranges(v: Num, lo: real, hi: real) -> bool {
    v.finite() && lo <= v.exact() <= hi
}

/// A contract and its terms within ordinary bounds: prices from 2^-10 to 2^24, vol
/// from 2^-10 to 16, time from 2^-20 to 64 years, rates up to one, discounts from
/// 1/16 to 16, and a normal density from 2^-24 on.
pub open spec fn ordinary(i: BsInputs, t: BsTerms) -> bool {
    &&& !i.degenerate()
    &&& ranges(i.spot, 1real / 1024real, 0x100_0000int as real)
    &&& ranges(i.strike, 1real / 1024real, 0x100_0000int as real)
    &&& ranges(i.vol, 1real / 1024real, 16real)
    &&& ranges(i.t_years, 1real / 0x10_0000int as real, 64real)
    &&& ranges(i.rate, -1real, 1real)
    &&& ranges(i.div_yield, -1real, 1real)
    &&& ranges(t.disc_rate, 1real / 16real, 16real)
    &&& ranges(t.disc_yield, 1real / 16real, 16real)
    &&& ranges(dist::pdf_from(t.exp_d1), 1real / 0x100_0000int as real, 1real)
}

/// A product lies between the products of the bounds.
proof fn lemma_range(x: real, z: real, a: real, b: real, c: real, d: real)
    requires
        0real < a <= x <= b,
        0real < c <= z <= d,
    ensures
        a * c <= x * z <= b * d,
        x * z > 0real,
{
    exact::lemma_times(a, x, c);
    exact::lemma_times(c, z, x);
    exact::lemma_times(x, b, z);
    exact::lemma_times(z, d, b);
    assert(a * c > 0real) by (nonlinear_arith)
        requires
            a > 0real,
            c > 0real,
    ;
}

/// The root of an ordinary time.
proof fn lemma_root(t: Num)
    requires
        ranges(t, 1real / 0x10_0000int as real, 64real),
    ensures
        ranges(t.fsqrt(), 1real / 2048real, 16real),
        exact::rabs(t.fsqrt().exact() * t.fsqrt().exact() - t.exact()) <= (8real * exact::eps())
            * t.exact(),
{
    let (e, x, s) = (exact::eps(), t.exact(), t.fsqrt().exact());
    exact::lemma_units_positive();
    exact::lemma_exact_zero(Num::of(ZERO));
    exact::lemma_exact_order(Num::of(ZERO), t);
    bounds::lemma_sqrt_finite(t);
    assert(!t.negative() && t.mag() > 0);
    exact::lemma_exact_sqrt(t);
    payoff::lemma_dist(1real, 8real * e, x);
    exact::lemma_times(8real * e, 1real / 2real, x);
    let q = s * s;
    assert(x / 2real <= q <= 2real * x);
    assert(s <= 16real) by (nonlinear_arith)
        requires
            q == s * s,
            q <= 128real,
            s >= 0real,
    ;
    assert(s >= 1real / 2048real) by (nonlinear_arith)
        requires
            q == s * s,
            q >= 1real / 0x20_0000int as real,
            s >= 0real,
    ;
}

/// Vega and gamma relative to their real values: vega is the discounted spot times
/// the normal density times the root of time, and gamma the discounted density over
/// spot times vol times the root of time.
pub proof fn law_vega_and_gamma_are_worth(i: BsInputs, right: OptionRight, t: BsTerms)
    requires
        ordinary(i, t),
    ensures
        ({
            let g = BsGreeks::of_contract(i, right, t);
            let (s, v, r) = (i.spot.exact(), i.vol.exact(), i.t_years.fsqrt().exact());
            let (q, p) = (t.disc_yield.exact(), dist::pdf_from(t.exp_d1).exact());
            &&& beside(g.vega, ((s * q) * p) * r, 12real)
            &&& beside(g.gamma, (q * p) / ((s * v) * r), 18real)
        }),
{
    let (s, v, root) = (i.spot.exact(), i.vol.exact(), i.t_years.fsqrt());
    let pdf = dist::pdf_from(t.exp_d1);
    let (r, q, p) = (root.exact(), t.disc_yield.exact(), pdf.exact());
    let (u, w) = (1real / 1024real, 0x100_0000int as real);
    lemma2_to64_rest();
    lemma_pow2_strictly_increases(53, 400);
    lemma_root(i.t_years);
    closeness::lemma_beside_self(i.spot);
    closeness::lemma_beside_self(i.vol);
    closeness::lemma_beside_self(root);
    closeness::lemma_beside_self(t.disc_yield);
    closeness::lemma_beside_self(pdf);
    // Vega.
    lemma_range(s, q, u, w, 1real / 16real, 16real);
    closeness::lemma_beside_mul(i.spot, s, t.disc_yield, q, 0real, 0real);
    let x = s * q;
    lemma_range(x, p, u / 16real, w * 16real, 1real / w, 1real);
    closeness::lemma_beside_mul(i.spot.fmul(t.disc_yield), x, pdf, p, 4real, 0real);
    let y = x * p;
    lemma_range(y, r, (u / 16real) / w, w * 16real, 1real / 2048real, 16real);
    closeness::lemma_beside_mul(i.spot.fmul(t.disc_yield).fmul(pdf), y, root, r, 8real, 0real);
    // Gamma.
    lemma_range(q, p, 1real / 16real, 16real, 1real / w, 1real);
    closeness::lemma_beside_mul(t.disc_yield, q, pdf, p, 0real, 0real);
    lemma_range(s, v, u, w, u, 16real);
    closeness::lemma_beside_mul(i.spot, s, i.vol, v, 0real, 0real);
    let z = s * v;
    lemma_range(z, r, u * u, w * 16real, 1real / 2048real, 16real);
    closeness::lemma_beside_mul(i.spot.fmul(i.vol), z, root, r, 4real, 0real);
    let (a, b) = (q * p, z * r);
    lemma_over_range(a, b, (1real / 16real) / w, 16real, (u * u) / 2048real, (w * 16real) * 16real);
    closeness::lemma_beside_div(
        t.disc_yield.fmul(pdf),
        a,
        i.spot.fmul(i.vol).fmul(root),
        b,
        4real,
        8real,
    );
}

/// A quotient lies between the quotients of the bounds.
proof fn lemma_over_range(x: real, z: real, a: real, b: real, c: real, d: real)
    requires
        0real < a <= x <= b,
        0real < c <= z <= d,
    ensures
        a / d <= x / z <= b / c,
        x / z > 0real,
{
    exact::lemma_over(x, z);
    exact::lemma_over(a, d);
    exact::lemma_over(b, c);
    let (q, f, g) = (x / z, a / d, b / c);
    assert(f > 0real) by (nonlinear_arith)
        requires
            f * d == a,
            a > 0real,
            d > 0real,
    ;
    assert(g > 0real) by (nonlinear_arith)
        requires
            g * c == b,
            b > 0real,
            c > 0real,
    ;
    exact::lemma_times(z, d, f);
    exact::lemma_times(c, z, g);
    assert(f <= q) by (nonlinear_arith)
        requires
            f * z <= q * z,
            z > 0real,
    ;
    assert(q <= g) by (nonlinear_arith)
        requires
            q * z <= g * z,
            z > 0real,
    ;
}

/// Products in another order.
proof fn lemma_regroup(s: real, v: real, r: real)
    by (nonlinear_arith)
    ensures
        ((s * s) * v) * (r * r) == (s * r) * ((s * v) * r),
{
}

proof fn lemma_regroup_four(s: real, r: real, q: real, p: real)
    by (nonlinear_arith)
    ensures
        (s * r) * (q * p) == ((s * q) * p) * r,
{
}

proof fn lemma_group(a: real, b: real, c: real)
    by (nonlinear_arith)
    ensures
        (a * b) * c == a * (b * c),
        a * (b * c) == a * (c * b),
{
}

proof fn lemma_double_factor(x: real, y: real)
    by (nonlinear_arith)
    ensures
        x * (2real * y) == 2real * (x * y),
{
}

proof fn lemma_times_few(k: real, e: real, m: real, g: real)
    by (nonlinear_arith)
    ensures
        m * ((k * e) * g) == k * (e * (m * g)),
{
}

/// Vega is gamma times spot squared, vol and time, up to rounding.
pub proof fn law_vega_is_gamma_by_variance(i: BsInputs, right: OptionRight, t: BsTerms)
    requires
        ordinary(i, t),
    ensures
        ({
            let g = BsGreeks::of_contract(i, right, t);
            let (s, v, y) = (i.spot.exact(), i.vol.exact(), i.t_years.exact());
            &&& g.vega.exact() > 0real
            &&& exact::rabs(g.vega.exact() - (((s * s) * v) * y) * g.gamma.exact()) <= (200real
                * exact::eps()) * g.vega.exact()
        }),
{
    let g = BsGreeks::of_contract(i, right, t);
    let (s, v, y, r) = (
        i.spot.exact(),
        i.vol.exact(),
        i.t_years.exact(),
        i.t_years.fsqrt().exact(),
    );
    let (q, p) = (t.disc_yield.exact(), dist::pdf_from(t.exp_d1).exact());
    let (e, vega, gamma) = (exact::eps(), g.vega.exact(), g.gamma.exact());
    exact::lemma_units_positive();
    lemma_root(i.t_years);
    law_vega_and_gamma_are_worth(i, right, t);
    let (v0, g0) = (((s * q) * p) * r, (q * p) / ((s * v) * r));
    let m = (s * s) * v;
    let (n, rr) = ((s * v) * r, r * r);
    exact::lemma_not_negative(s, s);
    exact::lemma_not_negative(s * s, v);
    assert(n > 0real) by {
        lemma_range(s, v, s, s, v, v);
        lemma_range(s * v, r, s * v, s * v, r, r);
    }
    exact::lemma_over(q * p, n);
    lemma_regroup(s, v, r);
    payoff::lemma_assoc(s * r, n, g0);
    lemma_regroup_four(s, r, q, p);
    lemma_group(s * r, g0, n);
    assert((m * rr) * g0 == v0);
    // m y gamma - m r^2 g0 = m y (gamma - g0) + m (y - r^2) g0
    let (c, d) = (gamma - g0, y - rr);
    payoff::lemma_dist(gamma, g0, m * y);
    payoff::lemma_dist(y, rr, m * g0);
    payoff::lemma_assoc(m, y, g0);
    payoff::lemma_assoc(m, rr, g0);
    exact::lemma_not_negative(m, y);
    exact::lemma_not_negative(m, g0);
    payoff::lemma_abs_mul(m * y, c);
    payoff::lemma_abs_mul(m * g0, d);
    exact::lemma_times(exact::rabs(c), (18real * e) * g0, m * y);
    exact::lemma_times(exact::rabs(d), (8real * e) * y, m * g0);
    let k = (m * y) * g0;
    lemma_times_few(18real, e, m * y, g0);
    lemma_times_few(8real, e, m * g0, y);
    // k is at most twice the vega
    exact::lemma_times(8real * e, 1real / 2real, y);
    exact::lemma_times(y, 2real * rr, m * g0);
    payoff::lemma_assoc(m, g0, y);
    lemma_double_factor(m * g0, rr);
    payoff::lemma_assoc(m, g0, rr);
    exact::lemma_times(k, 2real * v0, e);
    exact::lemma_times(12real * e, 1real / 2real, v0);
    exact::lemma_times(v0, 2real * vega, e);
    assert((12real * e) * v0 == 12real * (e * v0)) by (nonlinear_arith);
    assert(e * (2real * v0) == 2real * (e * v0)) by (nonlinear_arith);
    assert(e * (2real * vega) == 2real * (e * vega)) by (nonlinear_arith);
    assert((200real * e) * vega == 200real * (e * vega)) by (nonlinear_arith);
}

} // verus!
