//! What the exposures of a quote are worth in real numbers, and how they scale
//! with spot, multiplier and open interest.

use crate::black_scholes::BsGreeks;
use crate::bounds;
use crate::closeness::{self, close};
use crate::consts::{ONE, ZERO};
use crate::decimal::{self, decimal};
use crate::exact;
use crate::gex::{self, StrikeExposure, EM_PCT_FLOOR, EM_TAU_FLOOR, EXPOSURE_TANH_K};
use crate::integral;
use crate::market::{OptionQuote, OptionRight};
use crate::num::Num;
use crate::payoff;
use crate::portfolio::{GexContract, GEX_PCT_MOVE, MINUS_ONE};
use vstd::arithmetic::power2::*;
use vstd::prelude::*;

verus! {

/// Plus one for a call, minus one for a put.
pub open spec fn side(right: OptionRight) -> real {
    match right {
        OptionRight::Call => 1real,
        OptionRight::Put => -1real,
    }
}

/// Whether a value that is there is `x`, up to `k` roundings of `m`.
pub open spec fn is_about(v: Option<Num>, x: real, k: real, m: real) -> bool {
    v matches Some(e) && e.finite() && exact::rabs(e.exact() - x) <= (k * exact::eps()) * m
}

/// Whether a greek is a number of moderate size, at most 2^28.
pub open spec fn moderate(g: Num) -> bool {
    g.finite() && exact::rabs(g.exact()) <= 0x1000_0000int as real
}

/// The size of a real number, at least one.
pub open spec fn size(x: real) -> real {
    if exact::rabs(x) > 1real {
        exact::rabs(x)
    } else {
        1real
    }
}

/// A greek times open interest, factor and sign.
proof fn lemma_scaled(g: Num, oi: Num, n: real, f: Num, x: real, k: real, w: real, right: OptionRight)
    requires
        moderate(g),
        close(oi, n, 0real, size(n)),
        size(n) <= 0x20_0000_0000_0000int as real,
        close(f, x, k, w),
        k <= 100real,
        1real <= w,
        ((0x1000_0000int as real) * (0x20_0000_0000_0000int as real)) * w <= closeness::huge(),
    ensures
        ({
            let v = gex::scaled(Some(g), oi, f, gex::sign_of(right));
            is_about(
                v,
                side(right) * ((g.exact() * n) * x),
                k + 9real,
                (size(g.exact()) * size(n)) * w,
            )
        }),
{
    let (a, b) = (size(g.exact()), size(n));
    lemma_bounds(a, b, w);
    closeness::lemma_close_self(g, a);
    closeness::lemma_product(g, g.exact(), oi, n, 0real, 0real, a, b);
    closeness::lemma_product(g.fmul(oi), g.exact() * n, f, x, 3real, k, a * b, w);
    let (v, y) = (g.fmul(oi).fmul(f), (g.exact() * n) * x);
    let top = (a * b) * w;
    let s = gex::sign_of(right);
    lemma2_to64_rest();
    decimal::lemma_decimal(ONE, 1, 1, 52);
    exact::lemma_exact_neg(Num::of(ONE));
    assert(s.exact() == side(right));
    closeness::lemma_close_self(s, 1real);
    closeness::lemma_product(v, y, s, side(right), k + 6real, 0real, top, 1real);
    assert(top * 1real == top);
    assert(y * side(right) == side(right) * y) by (nonlinear_arith);
}

/// The bounds are not huge.
proof fn lemma_bounds(a: real, b: real, w: real)
    requires
        1real <= a <= 0x1000_0000int as real,
        1real <= b <= 0x20_0000_0000_0000int as real,
        1real <= w,
        ((0x1000_0000int as real) * (0x20_0000_0000_0000int as real)) * w <= closeness::huge(),
    ensures
        a <= closeness::huge(),
        b <= closeness::huge(),
        a * b <= closeness::huge(),
        w <= closeness::huge(),
        (a * b) * w <= closeness::huge(),
{
    let (p, q) = (0x1000_0000int as real, 0x20_0000_0000_0000int as real);
    let c = p * q;
    exact::lemma_times(1real, w, c);
    exact::lemma_times(1real, c, w);
    exact::lemma_times(a, p, b);
    exact::lemma_times(b, q, p);
    exact::lemma_times(a * b, c, w);
}

/// The bounds of spot and multiplier are not huge.
proof fn lemma_reach(a: real, b: real)
    requires
        1real <= a <= 0x100_0000_0000int as real,
        1real <= b <= 0x100_0000_0000int as real,
    ensures
        ({
            let c = (0x1000_0000int as real) * (0x20_0000_0000_0000int as real);
            &&& c * ((a * b) * b) <= closeness::huge()
            &&& c * (a * b) <= closeness::huge()
            &&& c * a <= closeness::huge()
            &&& 1real <= a <= a * b <= (a * b) * b <= closeness::huge()
        }),
{
    let t = 0x100_0000_0000int as real;
    let c = (0x1000_0000int as real) * (0x20_0000_0000_0000int as real);
    lemma2_to64_rest();
    lemma_pow2_adds(53, 60);
    lemma_pow2_adds(53, 28);
    lemma_pow2_adds(113, 113);
    lemma_pow2_strictly_increases(226, 400);
    exact::lemma_real_mul(pow2(113) as int, pow2(113) as int);
    assert(c * ((t * t) * t) <= closeness::huge());
    exact::lemma_times(a, t, b);
    exact::lemma_times(b, t, t);
    exact::lemma_times(a * b, t * t, b);
    exact::lemma_times(b, t, t * t);
    exact::lemma_times((a * b) * b, (t * t) * t, c);
    exact::lemma_times(1real, b, a);
    exact::lemma_times(1real, b, a * b);
    exact::lemma_times(a, (a * b) * b, c);
    exact::lemma_times(a * b, (a * b) * b, c);
    exact::lemma_times(1real, c, (a * b) * b);
}

/// The exposures of a quote with greeks at spot `s`, multiplier `m` and open
/// interest `n` are, up to rounding: gamma times `n m s s / 100`, delta times
/// `n m s`, vanna times `n m s / 100` and charm times `n m`; positive for a
/// call, and turned for a put.  The error is relative, but for factors below one.
///
/// Greeks are at most 2^28 in size, multiplier and spot at most 2^40, and the
/// open interest is below 2^53.
pub proof fn law_exposures_are_worth(q: OptionQuote, kernel: Option<BsGreeks>, spot: Num, mult: Num)
    requires
        spot.finite(),
        exact::rabs(spot.exact()) <= 0x100_0000_0000int as real,
        mult.finite(),
        exact::rabs(mult.exact()) <= 0x100_0000_0000int as real,
        q.open_interest < 0x20_0000_0000_0000,
    ensures
        ({
            let e = gex::exposure(q, kernel, spot, mult);
            let (s, m) = (spot.exact(), mult.exact());
            let n = q.open_interest as int as real;
            let (a, b, c) = (size(m), size(s), size(n));
            let z = side(q.right);
            let own = match q.greeks {
                Some(g) => Some((g.delta, g.gamma)),
                None => match gex::kernel_of(q, kernel) {
                    Some(b) => Some((b.delta, b.gamma)),
                    None => None,
                },
            };
            &&& own matches Some((d, g)) ==> (moderate(g) ==> is_about(
                e.gex,
                z * ((g.exact() * n) * (((m * s) * s) / 100real)),
                19real,
                (size(g.exact()) * c) * ((a * b) * b),
            ))
            &&& own matches Some((d, g)) ==> (moderate(d) ==> is_about(
                e.dex,
                z * ((d.exact() * n) * (m * s)),
                12real,
                (size(d.exact()) * c) * (a * b),
            ))
            &&& gex::kernel_of(q, kernel) matches Some(o) ==> (moderate(o.vanna) ==> is_about(
                e.vex,
                z * ((o.vanna.exact() * n) * ((m * s) / 100real)),
                16real,
                (size(o.vanna.exact()) * c) * (a * b),
            ))
            &&& gex::kernel_of(q, kernel) matches Some(o) ==> (moderate(o.charm) ==> is_about(
                e.charm,
                z * ((o.charm.exact() * n) * m),
                9real,
                (size(o.charm.exact()) * c) * a,
            ))
        }),
{
    let (s, m) = (spot.exact(), mult.exact());
    let n = q.open_interest as int as real;
    let (a, b) = (size(m), size(s));
    let oi = Num::whole(false, q.open_interest as nat);
    let pct = Num::of(gex::PCT_MOVE_SCALE);
    lemma2_to64_rest();
    lemma_pow2_strictly_increases(53, 400);
    lemma_reach(a, b);
    assert(b <= closeness::huge()) by {
        exact::lemma_times(1real, a, b);
    }
    integral::lemma_whole_exact(q.open_interest as nat);
    exact::lemma_exact_whole(q.open_interest as nat);
    closeness::lemma_close_self(oi, size(n));
    closeness::lemma_close_self(spot, b);
    closeness::lemma_close_self(mult, a);
    lemma_percent();
    let ms = mult.fmul(spot);
    let mss = ms.fmul(spot);
    closeness::lemma_product(mult, m, spot, s, 0real, 0real, a, b);
    closeness::lemma_product(ms, m * s, spot, s, 3real, 0real, a * b, b);
    closeness::lemma_product(mss, (m * s) * s, pct, 1real / 100real, 6real, 1real, (a * b) * b, 1real);
    closeness::lemma_product(ms, m * s, pct, 1real / 100real, 3real, 1real, a * b, 1real);
    assert(((m * s) * s) * (1real / 100real) == ((m * s) * s) / 100real) by (nonlinear_arith);
    assert((m * s) * (1real / 100real) == (m * s) / 100real) by (nonlinear_arith);
    assert(((a * b) * b) * 1real == (a * b) * b && (a * b) * 1real == a * b);
    let (gex_f, vex_f) = (mss.fmul(pct), ms.fmul(pct));
    if let Some(g) = gex::gamma_of(q, kernel) {
        if moderate(g) {
            lemma_scaled(g, oi, n, gex_f, ((m * s) * s) / 100real, 10real, (a * b) * b, q.right);
        }
    }
    let delta = match q.greeks {
        Some(g) => Some(g.delta),
        None => match gex::kernel_of(q, kernel) {
            Some(b) => Some(b.delta),
            None => None,
        },
    };
    if let Some(d) = delta {
        if moderate(d) {
            lemma_scaled(d, oi, n, ms, m * s, 3real, a * b, q.right);
        }
    }
    if let Some(o) = gex::kernel_of(q, kernel) {
        if moderate(o.vanna) {
            lemma_scaled(o.vanna, oi, n, vex_f, (m * s) / 100real, 7real, a * b, q.right);
        }
        if moderate(o.charm) {
            lemma_scaled(o.charm, oi, n, mult, m, 0real, a, q.right);
        }
    }
}

/// A hundredth.
proof fn lemma_percent()
    ensures
        close(Num::of(gex::PCT_MOVE_SCALE), 1real / 100real, 1real, 1real),
{
    lemma2_to64_rest();
    decimal::lemma_decimal(gex::PCT_MOVE_SCALE, 1, 100, 59);
}

/// The flip between two rows is where the line through their cumulative gammas is
/// zero, up to rounding.
pub proof fn law_flip_is_where_the_line_crosses(rows: Seq<StrikeExposure>, i: int, peak: Num)
    requires
        0 <= i < rows.len() - 1,
        rows[i].strike.finite() && rows[i + 1].strike.finite(),
        exact::rabs(rows[i].strike.exact()) <= 0x100_0000_0000int as real,
        exact::rabs(rows[i + 1].strike.exact()) <= 0x100_0000_0000int as real,
        gex::cumulative(rows, i).finite() && gex::cumulative(rows, i + 1).finite(),
        ({
            let (c0, c1) = (gex::cumulative(rows, i).exact(), gex::cumulative(rows, i + 1).exact());
            &&& (c0 < 0real && c1 > 0real) || (c0 > 0real && c1 < 0real)
            &&& 1real <= exact::rabs(c1 - c0) <= pow2(200) as int as real
        }),
    ensures
        ({
            let (c0, c1) = (gex::cumulative(rows, i).exact(), gex::cumulative(rows, i + 1).exact());
            let (x0, x1) = (rows[i].strike.exact(), rows[i + 1].strike.exact());
            let p = gex::flip_at(rows, i, peak).price;
            &&& p.finite()
            &&& exact::rabs(p.exact() - (x0 - (c0 * (x1 - x0)) / (c1 - c0))) <= (11real
                * exact::eps()) * (2real * (size(x0) + size(x1)))
        }),
{
    let (k0, k1) = (rows[i].strike, rows[i + 1].strike);
    let (n0, n1) = (gex::cumulative(rows, i), gex::cumulative(rows, i + 1));
    let (x0, x1, c0, c1) = (k0.exact(), k1.exact(), n0.exact(), n1.exact());
    let (y, b) = (c1 - c0, size(x0) + size(x1));
    let r = exact::rabs(y);
    lemma2_to64_rest();
    lemma_pow2_strictly_increases(200, 400);
    lemma_pow2_strictly_increases(53, 400);
    lemma_pow2_adds(200, 50);
    lemma_pow2_strictly_increases(250, 400);
    exact::lemma_real_mul(pow2(200) as int, pow2(50) as int);
    exact::lemma_exact_zero(Num::of(ZERO));
    exact::lemma_exact_order(n0, Num::of(ZERO));
    exact::lemma_exact_order(Num::of(ZERO), n0);
    closeness::lemma_close_self(k0, size(x0));
    closeness::lemma_close_self(k1, size(x1));
    closeness::lemma_sum(k1, x1, k0, x0, 0real, size(x1), size(x0));
    closeness::lemma_close_self(n0, r);
    closeness::lemma_close_self(n1, r);
    closeness::lemma_product(n0, c0, k1.fsub(k0), x1 - x0, 0real, 2real, r, b);
    closeness::lemma_sum(n1, c1, n0, c0, 0real, r, r);
    exact::lemma_exact_neg(n0);
    exact::lemma_exact_add(n1, n0.fneg());
    exact::lemma_times(b, pow2(50) as int as real, r);
    exact::lemma_times(r, pow2(200) as int as real, pow2(50) as int as real);
    assert(r * b == b * r) by (nonlinear_arith);
    let (v, d) = (n0.fmul(k1.fsub(k0)), n1.fsub(n0));
    closeness::lemma_signed_quotient(v, c0 * (x1 - x0), d, y, 5real, r * b, b);
    closeness::lemma_close_more(k0, x0, 0real, 9real, size(x0), b);
    closeness::lemma_sum(k0, x0, v.fdiv(d), (c0 * (x1 - x0)) / y, 9real, b, b);
}

/// The expected move is the implied vol times the root of the time to expiry, which
/// counts as at least 0.0001 years; at least 0.0005; up to rounding.
pub proof fn law_expected_move_is_vol_by_root_time(iv: Num, t_years: Num)
    requires
        iv.finite() && 0real < iv.exact() <= 0x100_0000int as real,
        t_years.finite() && t_years.exact() <= 0x100_0000int as real,
    ensures
        ({
            let (tau, least) = (decimal(1, 10_000).exact(), decimal(5, 10_000).exact());
            let t = if t_years.exact() < tau {
                tau
            } else {
                t_years.exact()
            };
            let x = (iv.exact() * iv.exact()) * t;
            let err = (20real * exact::eps()) * (x + 1real);
            gex::expected_move(Some(iv), t_years) matches Some(m) && {
                let p = m.exact();
                &&& m.finite()
                &&& p >= least
                &&& p * p >= x - err
                &&& p == least || p * p <= x + err
            }
        }),
{
    let e = exact::eps();
    let (floor, least) = (Num::of(EM_TAU_FLOOR), Num::of(EM_PCT_FLOOR));
    let tn = t_years.fmax(floor);
    let root = tn.fsqrt();
    let v = iv.fmul(root);
    let (a, t, s) = (iv.exact(), tn.exact(), root.exact());
    lemma2_to64_rest();
    lemma_pow2_strictly_increases(53, 400);
    lemma2_to64();
    lemma_pow2_adds(64, 2);
    exact::lemma_units_positive();
    decimal::lemma_decimal(EM_TAU_FLOOR, 1, 10_000, 66);
    decimal::lemma_decimal(EM_PCT_FLOOR, 5, 10_000, 63);
    exact::lemma_exact_order(t_years, floor);
    exact::lemma_exact_zero(Num::of(ZERO));
    exact::lemma_exact_order(Num::of(ZERO), tn);
    exact::lemma_times(e, 1real / 2real, 1real / 10_000real);
    assert(t > 0real);
    assert(!tn.negative() && tn.mag() > 0);
    bounds::lemma_sqrt_finite(tn);
    exact::lemma_exact_sqrt(tn);
    // The root is not large, so that the product is finite.
    payoff::lemma_dist(1real, 8real * e, t);
    exact::lemma_times(8real * e, 1real, t);
    assert(t * (1real + 8real * e) <= 2real * t) by {
        exact::lemma_times(1real + 8real * e, 2real, t);
    }
    assert(s <= 0x1000_0000int as real) by (nonlinear_arith)
        requires
            s * s <= 0x200_0000int as real,
            s >= 0real,
    ;
    closeness::lemma_close_self(iv, size(a));
    closeness::lemma_close_self(root, size(s));
    closeness::lemma_product(iv, a, root, s, 0real, 0real, size(a), size(s));
    exact::lemma_exact_mul(iv, root);
    exact::lemma_small();
    exact::lemma_small_is_small();
    exact::lemma_times(exact::small(), 1real, e);
    let r = a * s;
    exact::lemma_not_negative(a, s);
    let p = v.exact();
    payoff::lemma_dist(r, 1real, e);
    assert(exact::rabs(p - r) <= e * (r + 1real));
    lemma_square(p, r, e);
    // (a s)^2 = a^2 s^2
    let (aa, ss) = (a * a, s * s);
    exact::lemma_not_negative(a, a);
    assert(r * r == aa * ss) by (nonlinear_arith)
        requires
            r == a * s,
            aa == a * a,
            ss == s * s,
    ;
    let x = aa * t;
    lemma_near_square(aa, ss, t, e);
    lemma_gather(p * p, r, x, e);
    // Where it is less than the floor, so is its square.
    exact::lemma_exact_order(v, least);
    let q = least.exact();
    exact::lemma_times(e, 1real, r);
    exact::lemma_times(e, 1real / 2real, 1real / 2000real);
    if p < q {
        assert(p >= -q);
        assert(p * p <= q * q) by (nonlinear_arith)
            requires
                -q <= p <= q,
        ;
    }
}

/// Squares of near numbers are near.
proof fn lemma_square(p: real, r: real, e: real)
    requires
        exact::rabs(p - r) <= e * (r + 1real),
        r >= 0real,
        0real <= e <= 1real / 100real,
    ensures
        exact::rabs(p * p - r * r) <= 3real * (e * ((r + 1real) * (r + 1real))),
{
    let (d, s, z) = (p - r, p + r, r + 1real);
    payoff::lemma_dist(p, r, p);
    payoff::lemma_dist(p, r, r);
    assert(p * p - r * r == d * s) by (nonlinear_arith)
        requires
            d == p - r,
            s == p + r,
    ;
    payoff::lemma_abs_mul(d, s);
    exact::lemma_times(e, 1real, z);
    assert(exact::rabs(s) <= 3real * z);
    exact::lemma_times(exact::rabs(d), e * z, exact::rabs(s));
    exact::lemma_not_negative(e, z);
    exact::lemma_times(exact::rabs(s), 3real * z, e * z);
    assert((e * z) * (3real * z) == 3real * (e * (z * z))) by (nonlinear_arith);
}

/// A product with a near factor is near.
proof fn lemma_near_square(a: real, s: real, t: real, e: real)
    requires
        a >= 0real,
        t >= 0real,
        s >= t * (1real - 8real * e),
        s <= t * (1real + 8real * e),
    ensures
        exact::rabs(a * s - a * t) <= 8real * (e * (a * t)),
{
    exact::lemma_times(t * (1real - 8real * e), s, a);
    exact::lemma_times(s, t * (1real + 8real * e), a);
    assert(a * (t * (1real - 8real * e)) == a * t - 8real * (e * (a * t))) by (nonlinear_arith);
    assert(a * (t * (1real + 8real * e)) == a * t + 8real * (e * (a * t))) by (nonlinear_arith);
}

/// Both errors together.
proof fn lemma_gather(p: real, r: real, x: real, e: real)
    requires
        exact::rabs(p - r * r) <= 3real * (e * ((r + 1real) * (r + 1real))),
        exact::rabs(r * r - x) <= 8real * (e * x),
        x >= 0real,
        0real <= e <= 1real / 100real,
    ensures
        exact::rabs(p - x) <= (20real * e) * (x + 1real),
{
    let (y, z) = (r * r, (r + 1real) * (r + 1real));
    assert(z <= 2real * y + 2real) by (nonlinear_arith)
        requires
            y == r * r,
            z == (r + 1real) * (r + 1real),
    ;
    exact::lemma_times(e, 1real / 100real, x);
    exact::lemma_times(z, 4real * x + 2real, e);
    payoff::lemma_dist(4real * x, 2real, e);
    assert(e * (4real * x) == 4real * (e * x)) by (nonlinear_arith);
    assert((20real * e) * (x + 1real) == 20real * (e * x) + 20real * e) by (nonlinear_arith);
    assert(y <= 2real * x);
    assert(z <= 4real * x + 2real);
}

/// The point at which an exposure is scored is three times its net over its gross,
/// up to rounding.
pub proof fn law_score_point_is_three_times_the_ratio(net: Num, gross: Num)
    requires
        net.finite() && gross.finite(),
        1real <= gross.exact() <= pow2(300) as int as real,
        exact::rabs(net.exact()) <= gross.exact(),
    ensures
        is_about(
            gex::score_point(net, gross),
            (3real * net.exact()) / gross.exact(),
            7real,
            3real,
        ),
{
    let three = Num::of(EXPOSURE_TANH_K);
    let (a, y) = (net.exact(), gross.exact());
    lemma2_to64_rest();
    lemma2_to64();
    lemma_pow2_adds(300, 2);
    lemma_pow2_strictly_increases(302, 400);
    lemma_pow2_strictly_increases(300, 400);
    lemma_pow2_strictly_increases(53, 400);
    exact::lemma_real_mul(pow2(300) as int, 4);
    exact::lemma_units_positive();
    decimal::lemma_decimal(EXPOSURE_TANH_K, 3, 1, 51);
    exact::lemma_exact_zero(Num::of(ZERO));
    exact::lemma_exact_order(Num::of(ZERO), gross);
    closeness::lemma_close_self(three, 3real);
    closeness::lemma_close_self(net, y);
    closeness::lemma_product(three, 3real, net, a, 0real, 0real, 3real, y);
    exact::lemma_not_negative(exact::eps(), y);
    closeness::lemma_quotient(three.fmul(net), 3real * a, gross, y, 3real, 3real * y, 3real);
}

/// The exposure of a contract of one expiry is gamma times open interest,
/// multiplier, spot squared and a hundredth, positive for a call and turned for a
/// put; up to rounding.
pub proof fn law_expiry_exposure_is_worth(c: GexContract, spot: Num, mult: Num)
    requires
        moderate(c.gamma),
        c.open_interest.finite(),
        exact::rabs(c.open_interest.exact()) <= 0x20_0000_0000_0000int as real,
        spot.finite(),
        exact::rabs(spot.exact()) <= 0x100_0000_0000int as real,
        mult.finite(),
        exact::rabs(mult.exact()) <= 0x100_0000_0000int as real,
    ensures
        ({
            let (g, n) = (c.gamma.exact(), c.open_interest.exact());
            let (s, m) = (spot.exact(), mult.exact());
            is_about(
                Some(c.exposure(spot, mult)),
                side(c.right) * (((((g * n) * m) * s) * s) / 100real),
                19real,
                (((size(g) * size(n)) * size(m)) * size(s)) * size(s),
            )
        }),
{
    let (g, n, s, m) = (c.gamma.exact(), c.open_interest.exact(), spot.exact(), mult.exact());
    let (a, b, d, f) = (size(g), size(n), size(m), size(s));
    lemma2_to64_rest();
    lemma_pow2_strictly_increases(53, 400);
    lemma_reach(d, f);
    lemma_bounds(a, b, (d * f) * f);
    // The bounds of the partial products.
    let (p1, p2) = (a * b, (a * b) * d);
    let p3 = p2 * f;
    let p4 = p3 * f;
    exact::lemma_times(1real, a, b);
    assert(p4 == p1 * ((d * f) * f)) by {
        lemma_five(p1, d, f);
    }
    exact::lemma_times(1real, d, p1);
    exact::lemma_times(1real, f, p2);
    exact::lemma_times(1real, f, p3);
    exact::lemma_times(1real, d, f);
    closeness::lemma_close_self(c.gamma, a);
    closeness::lemma_close_self(c.open_interest, b);
    closeness::lemma_close_self(mult, d);
    closeness::lemma_close_self(spot, f);
    let v1 = c.gamma.fmul(c.open_interest);
    let v2 = v1.fmul(mult);
    let v3 = v2.fmul(spot);
    let v4 = v3.fmul(spot);
    let (x1, x2) = (g * n, (g * n) * m);
    let x3 = x2 * s;
    let x4 = x3 * s;
    closeness::lemma_product(c.gamma, g, c.open_interest, n, 0real, 0real, a, b);
    closeness::lemma_product(v1, x1, mult, m, 3real, 0real, p1, d);
    closeness::lemma_product(v2, x2, spot, s, 6real, 0real, p2, f);
    closeness::lemma_product(v3, x3, spot, s, 9real, 0real, p3, f);
    let pct = Num::of(GEX_PCT_MOVE);
    decimal::lemma_decimal(GEX_PCT_MOVE, 1, 100, 59);
    lemma_percent();
    closeness::lemma_product(v4, x4, pct, 1real / 100real, 12real, 1real, p4, 1real);
    assert(p4 * 1real == p4);
    let v5 = v4.fmul(pct);
    assert(x4 * (1real / 100real) == x4 / 100real);
    decimal::lemma_decimal(ONE, 1, 1, 52);
    exact::lemma_exact_neg(Num::of(ONE));
    let sign = match c.right {
        OptionRight::Call => Num::of(ONE),
        OptionRight::Put => Num::of(MINUS_ONE),
    };
    assert(Num::of(MINUS_ONE) == Num::of(ONE).fneg());
    assert(sign.exact() == side(c.right));
    closeness::lemma_close_self(sign, 1real);
    let y = x4 / 100real;
    closeness::lemma_product(v5, y, sign, side(c.right), 16real, 0real, p4, 1real);
    lemma_side(y, c.right);
}

/// A side before or after its factor.
proof fn lemma_side(y: real, right: OptionRight)
    ensures
        y * side(right) == side(right) * y,
{
}

/// Five factors in another order.
proof fn lemma_five(p: real, d: real, f: real)
    by (nonlinear_arith)
    ensures
        ((p * d) * f) * f == p * ((d * f) * f),
{
}

} // verus!
