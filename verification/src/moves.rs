//! What shocks, bands and distances are in real numbers.

use crate::black_scholes::BsGreeks;
use crate::closeness::{self, close};
use crate::consts::{HUNDRED, ONE, TWO, ZERO};
use crate::dealer_read::{self, EmBand, SESSION_HOURS, TRADING_DAYS, T_FLOOR};
use crate::decimal::{self, decimal};
use crate::exact;
use crate::exposure::size;
use crate::interpolation::sized;
use crate::multileg::{Leg, MarketInputs};
use crate::num::Num;
use crate::scenario::{self, ShockCell, SHOCKED_VOL_FLOOR};
use crate::worth::about;
use vstd::arithmetic::power2::*;
use vstd::prelude::*;

verus! {

/// The greater of two real numbers.
pub open spec fn greater(x: real, y: real) -> real {
    if x < y {
        y
    } else {
        x
    }
}

/// A floor does not widen an error.
proof fn lemma_floor(v: Num, x: real, err: real, f: Num)
    requires
        v.finite() && f.finite(),
        exact::rabs(v.exact() - x) <= err,
    ensures
        v.fmax(f).finite(),
        exact::rabs(v.fmax(f).exact() - greater(x, f.exact())) <= err,
{
    exact::lemma_exact_order(v, f);
}

/// Sizes are not huge.
proof fn lemma_sizes()
    ensures
        0x100_0000_0000int as real <= closeness::huge() / 4real,
{
    lemma2_to64();
    lemma2_to64_rest();
    lemma_pow2_adds(64, 2);
    lemma_pow2_strictly_increases(66, 400);
}

/// A shocked contract: spot moved by a fraction of itself, vol moved by the shock
/// and not below its floor, and time shortened by the decay and not below zero; up
/// to rounding.  Without a vol shock the vol is kept.
pub proof fn law_shocks_move_the_contract(
    leg: Leg,
    vol: Num,
    market: MarketInputs,
    spot_shock: Num,
    vol_shock: Num,
    decay_years: Num,
)
    requires
        sized(market.spot) && sized(vol) && sized(leg.expiry_t_years),
        sized(spot_shock) && sized(vol_shock) && sized(decay_years),
    ensures
        ({
            let c = scenario::shocked(leg, vol, market, spot_shock, vol_shock, decay_years);
            let e = exact::eps();
            let (s, v, t) = (market.spot.exact(), vol.exact(), leg.expiry_t_years.exact());
            let (h, w, d) = (spot_shock.exact(), vol_shock.exact(), decay_years.exact());
            let least = decimal(1, 100).exact();
            &&& c.spot.finite() && exact::rabs(c.spot.exact() - s * (1real + h)) <= (5real * e) * (
            size(s) * (1real + size(h)))
            &&& w == 0real ==> c.vol == vol
            &&& w != 0real ==> c.vol.finite() && exact::rabs(
                c.vol.exact() - greater(v + w, least),
            ) <= (2real * e) * (size(v) + size(w))
            &&& c.t_years.finite() && exact::rabs(c.t_years.exact() - greater(t - d, 0real)) <= (
            2real * e) * (size(t) + size(d))
            &&& c.strike == leg.strike && c.rate == market.rate && c.div_yield == market.div_yield
        }),
{
    let e = exact::eps();
    let (one, zero, floor) = (Num::of(ONE), Num::of(ZERO), Num::of(SHOCKED_VOL_FLOOR));
    let (s, v, t) = (market.spot.exact(), vol.exact(), leg.expiry_t_years.exact());
    let (h, w, d) = (spot_shock.exact(), vol_shock.exact(), decay_years.exact());
    lemma_sizes();
    lemma2_to64_rest();
    decimal::lemma_decimal(ONE, 1, 1, 52);
    decimal::lemma_decimal(SHOCKED_VOL_FLOOR, 1, 100, 59);
    exact::lemma_exact_zero(zero);
    exact::lemma_exact_order(vol_shock, zero);
    exact::lemma_exact_order(zero, vol_shock);
    // Spot.
    closeness::lemma_close_self(one, 1real);
    closeness::lemma_close_self(spot_shock, size(h));
    closeness::lemma_sum(one, 1real, spot_shock, h, 0real, 1real, size(h));
    closeness::lemma_close_self(market.spot, size(s));
    closeness::lemma_product(
        market.spot,
        s,
        one.fadd(spot_shock),
        1real + h,
        0real,
        2real,
        size(s),
        1real + size(h),
    );
    // Vol.
    closeness::lemma_close_self(vol, size(v));
    closeness::lemma_close_self(vol_shock, size(w));
    closeness::lemma_sum(vol, v, vol_shock, w, 0real, size(v), size(w));
    lemma_floor(vol.fadd(vol_shock), v + w, (2real * e) * (size(v) + size(w)), floor);
    // Time.
    closeness::lemma_close_self(leg.expiry_t_years, size(t));
    closeness::lemma_close_self(decay_years, size(d));
    closeness::lemma_sum(leg.expiry_t_years, t, decay_years, d, 0real, size(t), size(d));
    lemma_floor(
        leg.expiry_t_years.fsub(decay_years),
        t - d,
        (2real * e) * (size(t) + size(d)),
        zero,
    );
}

/// The band of a horizon stands one and two moves above and below spot, up to
/// rounding.
pub proof fn law_band_stands_round_spot(spot: Num, iv: Num, hours: Num)
    requires
        sized(spot),
        sized(EmBand::at(spot, iv, hours).move_pts),
    ensures
        ({
            let b = EmBand::at(spot, iv, hours);
            let (s, m) = (spot.exact(), b.move_pts.exact());
            let top = size(s) + 2real * size(m);
            &&& close(b.upper1, s + m, 2real, top)
            &&& close(b.lower1, s - m, 2real, top)
            &&& close(b.upper2, s + 2real * m, 5real, top)
            &&& close(b.lower2, s - 2real * m, 5real, top)
        }),
{
    let b = EmBand::at(spot, iv, hours);
    let (s, m, two) = (spot.exact(), b.move_pts.exact(), Num::of(TWO));
    let top = size(s) + 2real * size(m);
    lemma_sizes();
    lemma2_to64_rest();
    decimal::lemma_decimal(TWO, 2, 1, 51);
    closeness::lemma_close_self(spot, size(s));
    closeness::lemma_close_self(b.move_pts, size(m));
    closeness::lemma_close_self(two, 2real);
    closeness::lemma_sum(spot, s, b.move_pts, m, 0real, size(s), size(m));
    closeness::lemma_close_more(b.upper1, s + m, 2real, 2real, size(s) + size(m), top);
    closeness::lemma_close_more(b.lower1, s - m, 2real, 2real, size(s) + size(m), top);
    closeness::lemma_product(two, 2real, b.move_pts, m, 0real, 0real, 2real, size(m));
    closeness::lemma_close_more(spot, s, 0real, 3real, size(s), size(s));
    closeness::lemma_sum(spot, s, two.fmul(b.move_pts), 2real * m, 3real, size(s), 2real * size(m));
}

/// A session has six and a half hours and a year 252 sessions; up to rounding, and
/// not below a millionth of a year.
pub proof fn law_hours_are_sessions(hours: Num)
    requires
        sized(hours),
        hours.exact() >= 0real,
    ensures
        ({
            let r = dealer_read::year_fraction(hours);
            let x = greater(
                (hours.exact() / (13real / 2real)) / 252real,
                decimal(1, 1_000_000).exact(),
            );
            r.finite() && exact::rabs(r.exact() - x) <= (8real * exact::eps()) * size(hours.exact())
        }),
{
    let (x, session, year, zero) = (
        hours.exact(),
        Num::of(SESSION_HOURS),
        Num::of(TRADING_DAYS),
        Num::of(ZERO),
    );
    let n = size(x);
    lemma_sizes();
    lemma2_to64_rest();
    exact::lemma_units_positive();
    decimal::lemma_decimal(SESSION_HOURS, 13, 2, 50);
    decimal::lemma_decimal(TRADING_DAYS, 252, 1, 45);
    exact::lemma_exact_zero(zero);
    let h = hours.fmax(zero);
    exact::lemma_exact_order(hours, zero);
    assert(h == hours);
    closeness::lemma_close_self(hours, n);
    closeness::lemma_quotient(hours, x, session, 13real / 2real, 0real, n, n);
    let a = hours.fdiv(session);
    closeness::lemma_quotient(a, x / (13real / 2real), year, 252real, 4real, n, n);
    let b = a.fdiv(year);
    lemma2_to64();
    lemma_pow2_adds(64, 8);
    decimal::lemma_decimal(T_FLOOR, 1, 1_000_000, 72);
    lemma_floor(
        b,
        (x / (13real / 2real)) / 252real,
        (8real * exact::eps()) * n,
        Num::of(T_FLOOR),
    );
}

/// The distance to a level is a percentage of spot, positive above it, up to
/// rounding.
pub proof fn law_distance_is_a_percentage(level: Num, spot: Num)
    requires
        sized(level) && sized(spot),
        spot.exact() >= 1real / 1024real,
        exact::rabs(level.exact() - spot.exact()) <= 1000real * spot.exact(),
    ensures
        about(
            dealer_read::pct_distance(level, spot),
            100real * ((level.exact() - spot.exact()) / spot.exact()),
            800_000real,
        ),
{
    let e = exact::eps();
    let (x, y, hundred) = (level.exact(), spot.exact(), Num::of(HUNDRED));
    lemma_sizes();
    lemma2_to64_rest();
    exact::lemma_units_positive();
    decimal::lemma_decimal(HUNDRED, 100, 1, 46);
    let t = 0x100_0000_0000int as real;
    closeness::lemma_close_self(level, t);
    closeness::lemma_close_self(spot, t);
    closeness::lemma_sum(level, x, spot, y, 0real, t, t);
    exact::lemma_exact_neg(spot);
    exact::lemma_exact_add(level, spot.fneg());
    let d = level.fsub(spot);
    exact::lemma_times(exact::rabs(x - y), 1000real * y, e);
    assert((1real * e) * (1000real * y) == e * (1000real * y));
    assert(close(d, x - y, 1real, 1000real * y));
    exact::lemma_not_negative(e, y);
    assert(1000real * y <= closeness::huge()) by {
        lemma_pow2_adds(53, 53);
        lemma_pow2_strictly_increases(106, 400);
        exact::lemma_real_mul(pow2(53) as int, pow2(53) as int);
    }
    closeness::lemma_quotient(d, x - y, spot, y, 1real, 1000real * y, 1000real);
    closeness::lemma_close_self(hundred, 100real);
    let z = (x - y) / y;
    closeness::lemma_product(d.fdiv(spot), z, hundred, 100real, 5real, 0real, 1000real, 100real);
}

/// A leg adds to the profit of a cell what it gained over its base value, times
/// quantity and multiplier, up to rounding.
pub proof fn law_cell_profits_from_the_gain(
    cell: ShockCell,
    value: Num,
    base: Num,
    g: BsGreeks,
    qty: Num,
    multiplier: Num,
)
    requires
        sized(cell.pnl) && sized(value) && sized(base) && sized(qty) && sized(multiplier),
    ensures
        ({
            let r = cell.plus(value, base, g, qty, multiplier).pnl;
            let (x, v, b) = (cell.pnl.exact(), value.exact(), base.exact());
            let (q, m) = (qty.exact(), multiplier.exact());
            close(
                r,
                x + ((v - b) * q) * m,
                10real,
                size(x) + ((size(v) + size(b)) * size(q)) * size(m),
            )
        }),
{
    let (x, v, b) = (cell.pnl.exact(), value.exact(), base.exact());
    let (q, m) = (qty.exact(), multiplier.exact());
    let (c, d, f) = (size(v) + size(b), size(q), size(m));
    let t = 0x100_0000_0000int as real;
    lemma_sizes();
    lemma2_to64_rest();
    lemma_pow2_adds(53, 53);
    lemma_pow2_adds(106, 53);
    lemma_pow2_strictly_increases(159, 400);
    lemma_pow2_strictly_increases(106, 400);
    exact::lemma_real_mul(pow2(53) as int, pow2(53) as int);
    exact::lemma_real_mul(pow2(106) as int, pow2(53) as int);
    let p = c * d;
    exact::lemma_times(c, 2real * t, d);
    exact::lemma_times(d, t, 2real * t);
    exact::lemma_times(p, (2real * t) * t, f);
    exact::lemma_times(f, t, (2real * t) * t);
    assert(p <= (2real * t) * t && p * f <= ((2real * t) * t) * t);
    closeness::lemma_close_self(cell.pnl, size(x));
    closeness::lemma_close_self(value, size(v));
    closeness::lemma_close_self(base, size(b));
    closeness::lemma_close_self(qty, d);
    closeness::lemma_close_self(multiplier, f);
    closeness::lemma_sum(value, v, base, b, 0real, size(v), size(b));
    let gain = value.fsub(base);
    closeness::lemma_product(gain, v - b, qty, q, 2real, 0real, c, d);
    closeness::lemma_product(gain.fmul(qty), (v - b) * q, multiplier, m, 5real, 0real, p, f);
    let add = gain.fmul(qty).fmul(multiplier);
    closeness::lemma_close_more(cell.pnl, x, 0real, 8real, size(x), size(x));
    closeness::lemma_sum(cell.pnl, x, add, ((v - b) * q) * m, 8real, size(x), p * f);
}

} // verus!
