//! Straight lines between neighbours: percentiles of a distribution and vols at a
//! delta lie where the line through the two nearest points has them.

use crate::closeness;
use crate::consts::{HALF, ZERO};
use crate::decimal;
use crate::exact;
use crate::exposure::size;
use crate::num::Num;
use crate::rnd;
use crate::vol_metrics::{self, SkewAnalytics, SkewRow};
use crate::worth::{self, about, share};
use vstd::arithmetic::power2::*;
use vstd::prelude::*;

verus! {

/// The value at `p` of the line through `(w0, v0)` and `(w1, v1)`.
pub open spec fn line(w0: real, v0: real, w1: real, v1: real, p: real) -> real {
    v0 + ((p - w0) / (w1 - w0)) * (v1 - v0)
}

/// Whether a number is finite and at most 2^40 in size.
pub open spec fn sized(v: Num) -> bool {
    v.finite() && exact::rabs(v.exact()) <= 0x100_0000_0000int as real
}

/// Whether `p` lies between two bounds, in either order, that stand apart.
pub open spec fn spanned(w0: real, w1: real, p: real) -> bool {
    &&& w0 <= p <= w1 || w1 <= p <= w0
    &&& exact::rabs(w1 - w0) >= 1real / 0x100_0000_0000int as real
}

/// The line, computed.
proof fn lemma_line(w0: Num, v0: Num, w1: Num, v1: Num, p: Num)
    requires
        sized(w0) && sized(v0) && sized(w1) && sized(v1) && sized(p),
        spanned(w0.exact(), w1.exact(), p.exact()),
    ensures
        ({
            let r = v0.fadd(p.fsub(w0).fdiv(w1.fsub(w0)).fmul(v1.fsub(v0)));
            &&& r.finite()
            &&& exact::rabs(
                r.exact() - line(w0.exact(), v0.exact(), w1.exact(), v1.exact(), p.exact()),
            ) <= (12real * exact::eps()) * (2real * (size(v0.exact()) + size(v1.exact())))
        }),
{
    let e = exact::eps();
    let (a0, b0, a1, b1, x) = (w0.exact(), v0.exact(), w1.exact(), v1.exact(), p.exact());
    let (y, r, b) = (a1 - a0, exact::rabs(a1 - a0), size(b0) + size(b1));
    let t = 0x100_0000_0000int as real;
    lemma2_to64_rest();
    lemma_pow2_strictly_increases(53, 400);
    exact::lemma_units_positive();
    closeness::lemma_close_self(w0, t);
    closeness::lemma_close_self(w1, t);
    closeness::lemma_close_self(p, t);
    closeness::lemma_sum(p, x, w0, a0, 0real, t, t);
    closeness::lemma_sum(w1, a1, w0, a0, 0real, t, t);
    exact::lemma_exact_neg(w0);
    exact::lemma_exact_add(p, w0.fneg());
    exact::lemma_exact_add(w1, w0.fneg());
    let (n, d) = (p.fsub(w0), w1.fsub(w0));
    exact::lemma_times(exact::rabs(x - a0), r, e);
    assert((1real * e) * r == e * r);
    assert(closeness::close(n, x - a0, 1real, r));
    closeness::lemma_signed_quotient(n, x - a0, d, y, 1real, r, 1real);
    closeness::lemma_close_self(v0, size(b0));
    closeness::lemma_close_self(v1, size(b1));
    closeness::lemma_sum(v1, b1, v0, b0, 0real, size(b1), size(b0));
    let (f, z) = (n.fdiv(d), (x - a0) / y);
    closeness::lemma_product(f, z, v1.fsub(v0), b1 - b0, 5real, 2real, 1real, b);
    assert(1real * b == b);
    closeness::lemma_close_more(v0, b0, 0real, 10real, size(b0), b);
    closeness::lemma_sum(v0, b0, f.fmul(v1.fsub(v0)), z * (b1 - b0), 10real, b, b);
}

/// A percentile between two nodes lies where the line through their cumulative
/// probabilities reaches it, up to rounding.
pub proof fn law_percentile_lies_on_the_line(strikes: Seq<Num>, cdf: Seq<Num>, p: Num, i: nat)
    requires
        i + 1 < cdf.len() == strikes.len(),
        sized(cdf[i as int]) && sized(cdf[i as int + 1]) && sized(p),
        sized(strikes[i as int]) && sized(strikes[i as int + 1]),
        cdf[i as int].exact() <= p.exact() <= cdf[i as int + 1].exact(),
        cdf[i as int + 1].exact() - cdf[i as int].exact() >= 1real / 0x100_0000_0000int as real,
    ensures
        ({
            let r = rnd::crossing_from(strikes, cdf, p, i);
            let (k0, k1) = (strikes[i as int].exact(), strikes[i as int + 1].exact());
            &&& r.finite()
            &&& exact::rabs(
                r.exact() - line(
                    cdf[i as int].exact(),
                    k0,
                    cdf[i as int + 1].exact(),
                    k1,
                    p.exact(),
                ),
            ) <= (12real * exact::eps()) * (2real * (size(k0) + size(k1)))
        }),
{
    let (c0, c1, zero) = (cdf[i as int], cdf[i as int + 1], Num::of(ZERO));
    let t = 0x100_0000_0000int as real;
    lemma2_to64_rest();
    lemma_pow2_strictly_increases(53, 400);
    exact::lemma_units_positive();
    lemma_line(c0, strikes[i as int], c1, strikes[i as int + 1], p);
    exact::lemma_exact_order(c0, p);
    exact::lemma_exact_order(p, c1);
    closeness::lemma_close_self(c0, t);
    closeness::lemma_close_self(c1, t);
    closeness::lemma_sum(c1, c1.exact(), c0, c0.exact(), 0real, t, t);
    exact::lemma_exact_neg(c0);
    exact::lemma_exact_add(c1, c0.fneg());
    exact::lemma_times(exact::eps(), 1real / 2real, c1.exact() - c0.exact());
    exact::lemma_exact_zero(zero);
    exact::lemma_exact_order(c1.fsub(c0), zero);
}

/// Vol and strike at a delta lie on the lines through the first two rows that
/// straddle it, up to rounding.
pub proof fn law_wing_lies_on_the_line(rows: Seq<SkewRow>, target: Num, i: nat)
    requires
        i + 1 < rows.len(),
        vol_metrics::straddles(rows[i as int], rows[i as int + 1], target),
        ({
            let (a, b) = (rows[i as int], rows[i as int + 1]);
            &&& sized(a.abs_delta) && sized(b.abs_delta) && sized(target)
            &&& sized(a.iv) && sized(b.iv) && sized(a.strike) && sized(b.strike)
            &&& exact::rabs(b.abs_delta.exact() - a.abs_delta.exact()) >= 1real
                / 0x100_0000_0000int as real
        }),
    ensures
        ({
            let (a, b) = (rows[i as int], rows[i as int + 1]);
            let (d0, d1, x) = (a.abs_delta.exact(), b.abs_delta.exact(), target.exact());
            vol_metrics::wing_from(rows, target, i) matches Some((v, k)) && {
                &&& v.finite() && k.finite()
                &&& exact::rabs(v.exact() - line(d0, a.iv.exact(), d1, b.iv.exact(), x)) <= (12real
                    * exact::eps()) * (2real * (size(a.iv.exact()) + size(b.iv.exact())))
                &&& exact::rabs(k.exact() - line(d0, a.strike.exact(), d1, b.strike.exact(), x))
                    <= (12real * exact::eps()) * (2real * (size(a.strike.exact()) + size(
                    b.strike.exact(),
                )))
            }
        }),
{
    let (a, b) = (rows[i as int], rows[i as int + 1]);
    exact::lemma_exact_order(a.abs_delta, b.abs_delta);
    exact::lemma_exact_order(a.abs_delta, target);
    exact::lemma_exact_order(target, b.abs_delta);
    exact::lemma_exact_order(b.abs_delta, target);
    exact::lemma_exact_order(target, a.abs_delta);
    lemma_line(a.abs_delta, a.iv, b.abs_delta, b.iv, target);
    lemma_line(a.abs_delta, a.strike, b.abs_delta, b.strike, target);
}

/// The risk reversal is what the call wing has over the put wing, and the butterfly
/// what their mean has over the vol at the money, up to rounding.
pub proof fn law_skew_compares_the_wings(rows: Seq<SkewRow>, spot: Num, c: Num, p: Num)
    requires
        ({
            let s = SkewAnalytics::of_rows(rows, spot);
            &&& s.call_25d_iv == Some(c) && s.put_25d_iv == Some(p)
            &&& c.finite() && exact::rabs(c.exact()) <= 100real
            &&& p.finite() && exact::rabs(p.exact()) <= 100real
            &&& s.atm_iv.finite() && exact::rabs(s.atm_iv.exact()) <= 100real
        }),
    ensures
        ({
            let s = SkewAnalytics::of_rows(rows, spot);
            let (x, y, m) = (c.exact(), p.exact(), s.atm_iv.exact());
            &&& s.risk_reversal_25d matches Some(r) && about(r, x - y, 400real)
            &&& s.butterfly_25d matches Some(r) && about(r, (x + y) / 2real - m, 4000real)
        }),
{
    let s = SkewAnalytics::of_rows(rows, spot);
    let (x, y, m, half) = (c.exact(), p.exact(), s.atm_iv.exact(), Num::of(HALF));
    lemma2_to64_rest();
    lemma_pow2_strictly_increases(53, 400);
    decimal::lemma_decimal(HALF, 1, 2, 53);
    closeness::lemma_close_self(c, 100real);
    closeness::lemma_close_self(p, 100real);
    closeness::lemma_close_self(s.atm_iv, 100real);
    closeness::lemma_close_self(half, 1real);
    closeness::lemma_sum(c, x, p, y, 0real, 100real, 100real);
    closeness::lemma_product(half, 1real / 2real, c.fadd(p), x + y, 0real, 2real, 1real, 200real);
    let h = half.fmul(c.fadd(p));
    closeness::lemma_close_more(s.atm_iv, m, 0real, 5real, 100real, 100real);
    closeness::lemma_sum(h, (1real / 2real) * (x + y), s.atm_iv, m, 5real, 200real, 100real);
    assert((1real / 2real) * (x + y) == (x + y) / 2real);
}

/// The rank of a vol is its place between the least and the greatest of its
/// history, moved into `[0, 1]`, up to rounding.
pub proof fn law_rank_is_the_place_between(level: Num, lo: Num, hi: Num)
    requires
        level.finite() && exact::rabs(level.exact()) <= 100real,
        lo.finite() && exact::rabs(lo.exact()) <= 100real,
        hi.finite() && exact::rabs(hi.exact()) <= 100real,
        hi.exact() - lo.exact() >= 1real / 1000real,
    ensures
        about(
            vol_metrics::place_between(level, lo, hi),
            share((level.exact() - lo.exact()) / (hi.exact() - lo.exact())),
            1_200_000real,
        ),
{
    let (x, a, b) = (level.exact(), lo.exact(), hi.exact());
    lemma2_to64_rest();
    lemma_pow2_strictly_increases(53, 400);
    closeness::lemma_close_self(level, 100real);
    closeness::lemma_close_self(lo, 100real);
    closeness::lemma_close_self(hi, 100real);
    closeness::lemma_sum(level, x, lo, a, 0real, 100real, 100real);
    closeness::lemma_sum(hi, b, lo, a, 0real, 100real, 100real);
    exact::lemma_exact_neg(lo);
    exact::lemma_exact_add(hi, lo.fneg());
    let (n, d) = (level.fsub(lo), hi.fsub(lo));
    closeness::lemma_quotient(n, x - a, d, b - a, 2real, 200real, 200_000real);
    worth::lemma_share(n.fdiv(d), (x - a) / (b - a), 1_200_000real * exact::eps());
}

} // verus!
