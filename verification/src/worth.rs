//! What the blended scores are worth in real numbers: each part moved into
//! `[0, 1]`, times its weight, up to rounding.

use crate::algebra;
use crate::black_scholes::BsGreeks;
use crate::closeness::{self, close};
use crate::consts::{HUNDRED, ONE, TWO, ZERO};
use crate::decimal;
use crate::exact;
use crate::gex::{ExposureScores, GexParams, GexStructure, DSI_W_DEX, DSI_W_GEX, DSI_W_VEX};
use crate::market::{Candle, OptionChain};
use crate::num::Num;
use crate::risk::{
    self, LiquidityScore, ModelTrust, TailRisk, TrustComponents, LIQ_W_OI, LIQ_W_SPREAD,
    LIQ_W_STABILITY, LIQ_W_VOLUME, LOG_LIQ_SCALE, SAMPLE_LOG_SPAN, TRUST_W_CALIBRATION,
    TRUST_W_FORECAST, TRUST_W_RECENT, TRUST_W_SAMPLE, TRUST_W_STABILITY,
};
use crate::technicals::RVOL_NEUTRAL;
use crate::thesis::{
    self, Reading, MOMENTUM_DIVERGENCE_PENALTY, MOM_LOOKBACK, RSI_SLOPE_LOOKBACK, RVOL_FULL,
    VWAP_BLEND_KERNEL, VWAP_BLEND_RECLAIM, VWAP_BLEND_SLOPE,
};
use vstd::arithmetic::power2::*;
use vstd::prelude::*;

verus! {

/// A real number moved into `[0, 1]`.
pub open spec fn share(x: real) -> real {
    if x < 0real {
        0real
    } else if x > 1real {
        1real
    } else {
        x
    }
}

/// Whether `v` is `x` up to `k` roundings.
pub open spec fn about(v: Num, x: real, k: real) -> bool {
    v.finite() && exact::rabs(v.exact() - x) <= k * exact::eps()
}

/// Moving into the unit does not widen an error.
pub proof fn lemma_share(v: Num, x: real, err: real)
    requires
        v.finite(),
        exact::rabs(v.exact() - x) <= err,
    ensures
        ({
            let r = v.fclamp(Num::of(ZERO), Num::of(ONE));
            &&& r.finite()
            &&& risk::in_unit(r)
            &&& exact::rabs(r.exact() - share(x)) <= err
            &&& 0real <= r.exact() <= 1real
        }),
{
    let (zero, one) = (Num::of(ZERO), Num::of(ONE));
    lemma2_to64_rest();
    exact::lemma_exact_zero(zero);
    decimal::lemma_decimal(ONE, 1, 1, 52);
    exact::lemma_exact_order(v, zero);
    exact::lemma_exact_order(one, v);
    exact::lemma_exact_order(zero, v);
    exact::lemma_exact_order(v, one);
}

/// A number of the unit.
proof fn lemma_in_unit(v: Num)
    requires
        risk::in_unit(v),
    ensures
        v.finite(),
        0real <= v.exact() <= 1real,
{
    let (zero, one) = (Num::of(ZERO), Num::of(ONE));
    lemma2_to64_rest();
    exact::lemma_exact_zero(zero);
    decimal::lemma_decimal(ONE, 1, 1, 52);
    assert(v.finite());
    exact::lemma_exact_order(zero, v);
    exact::lemma_exact_order(v, one);
}

/// A weight of the unit times a part between -1 and 1.
pub proof fn lemma_part(w: Num, x: real, v: Num, y: real, k: real)
    requires
        w.finite(),
        exact::rabs(w.exact() - x) <= exact::eps() * x,
        0real <= x <= 1real,
        about(v, y, k),
        -1real <= y <= 1real,
        0real <= k <= 0x100_0000int as real,
    ensures
        close(w.fmul(v), x * y, k + 4real, 1real),
{
    let e = exact::eps();
    lemma2_to64_rest();
    lemma_pow2_strictly_increases(53, 400);
    exact::lemma_times(x, 1real, e);
    assert(e * 1real == (1real * e) * 1real);
    assert((k * e) * 1real == k * e);
    assert(close(w, x, 1real, 1real));
    closeness::lemma_product(w, x, v, y, 1real, k, 1real, 1real);
}

/// The sum of three parts.
pub proof fn lemma_three(a: Num, x: real, b: Num, y: real, c: Num, z: real, k: real)
    requires
        close(a, x, k, 1real),
        close(b, y, k, 1real),
        close(c, z, k, 1real),
        k <= 0x100_0008int as real,
    ensures
        close(a.fadd(b).fadd(c), x + y + z, k + 4real, 3real),
{
    lemma2_to64_rest();
    lemma_pow2_strictly_increases(53, 400);
    closeness::lemma_sum(a, x, b, y, k, 1real, 1real);
    closeness::lemma_close_more(c, z, k, k + 2real, 1real, 1real);
    closeness::lemma_sum(a.fadd(b), x + y, c, z, k + 2real, 2real, 1real);
}

/// One part more.
proof fn lemma_one_more(s: Num, x: real, a: Num, y: real, j: real, k: real, m: real)
    requires
        close(s, x, k, m),
        close(a, y, j, 1real),
        j <= k <= 0x100_0010int as real,
        m <= 8real,
    ensures
        close(s.fadd(a), x + y, k + 2real, m + 1real),
{
    lemma2_to64_rest();
    lemma_pow2_strictly_increases(53, 400);
    closeness::lemma_close_more(a, y, j, k, 1real, 1real);
    closeness::lemma_sum(s, x, a, y, k, m, 1real);
}

/// A number over a scale that it exceeds at most a thousand times.
proof fn lemma_ratio(v: Num, d: Num)
    requires
        v.finite(),
        d.finite(),
        1real / 0x100_0000_0000int as real <= d.exact() <= 0x100_0000_0000int as real,
        exact::rabs(v.exact()) <= 1000real * d.exact(),
    ensures
        close(v.fdiv(d), v.exact() / d.exact(), 4real, 1000real),
        about(v.fdiv(d), v.exact() / d.exact(), 4000real),
{
    let e = exact::eps();
    let y = d.exact();
    lemma2_to64_rest();
    lemma_pow2_strictly_increases(53, 400);
    exact::lemma_not_negative(e, y);
    closeness::lemma_close_self(v, 1000real * y);
    closeness::lemma_quotient(v, v.exact(), d, y, 0real, 1000real * y, 1000real);
}

/// What is left of one.
proof fn lemma_rest(v: Num, x: real, k: real, m: real)
    requires
        close(v, x, k, m),
        1real <= m <= 1000real,
        k <= 0x100_0000int as real,
    ensures
        close(Num::of(ONE).fsub(v), 1real - x, k + 2real, m + 1real),
{
    let one = Num::of(ONE);
    lemma2_to64_rest();
    lemma_pow2_strictly_increases(53, 400);
    decimal::lemma_decimal(ONE, 1, 1, 52);
    closeness::lemma_close_self(one, 1real);
    closeness::lemma_close_more(one, 1real, 0real, k, 1real, 1real);
    closeness::lemma_sum(one, 1real, v, x, k, 1real, m);
}

/// A liquidity score is a hundred times the sum of its parts by weight: 0.4 of the
/// spread, 0.25 of the volume, 0.25 of the open interest and 0.1 of the stability,
/// up to rounding.
pub proof fn law_liquidity_weighs_its_parts(spread: Num, volume: Num, oi: Num, stability: Num)
    requires
        risk::in_unit(spread),
        risk::in_unit(volume),
        risk::in_unit(oi),
        risk::in_unit(stability),
    ensures
        about(
            LiquidityScore::blend(spread, volume, oi, stability).total,
            40real * spread.exact() + 25real * volume.exact() + 25real * oi.exact() + 10real
                * stability.exact(),
            5200real,
        ),
{
    lemma2_to64_rest();
    lemma_pow2_strictly_increases(53, 400);
    decimal::lemma_decimal(LIQ_W_SPREAD, 2, 5, 54);
    decimal::lemma_decimal(LIQ_W_VOLUME, 1, 4, 54);
    decimal::lemma_decimal(LIQ_W_OI, 1, 4, 54);
    decimal::lemma_decimal(LIQ_W_STABILITY, 1, 10, 56);
    decimal::lemma_decimal(HUNDRED, 100, 1, 46);
    lemma_in_unit(spread);
    lemma_in_unit(volume);
    lemma_in_unit(oi);
    lemma_in_unit(stability);
    let (a, b, c, d) = (spread.exact(), volume.exact(), oi.exact(), stability.exact());
    lemma_part(Num::of(LIQ_W_SPREAD), 2real / 5real, spread, a, 0real);
    lemma_part(Num::of(LIQ_W_VOLUME), 1real / 4real, volume, b, 0real);
    lemma_part(Num::of(LIQ_W_OI), 1real / 4real, oi, c, 0real);
    lemma_part(Num::of(LIQ_W_STABILITY), 1real / 10real, stability, d, 0real);
    let (v1, v2) = (Num::of(LIQ_W_SPREAD).fmul(spread), Num::of(LIQ_W_VOLUME).fmul(volume));
    let (v3, v4) = (Num::of(LIQ_W_OI).fmul(oi), Num::of(LIQ_W_STABILITY).fmul(stability));
    let (x1, x2, x3, x4) = (
        (2real / 5real) * a,
        (1real / 4real) * b,
        (1real / 4real) * c,
        (1real / 10real) * d,
    );
    lemma_three(v1, x1, v2, x2, v3, x3, 4real);
    lemma_one_more(v1.fadd(v2).fadd(v3), x1 + x2 + x3, v4, x4, 4real, 8real, 3real);
    let (s, x) = (v1.fadd(v2).fadd(v3).fadd(v4), x1 + x2 + x3 + x4);
    closeness::lemma_close_self(Num::of(HUNDRED), 100real);
    closeness::lemma_product(Num::of(HUNDRED), 100real, s, x, 0real, 10real, 100real, 4real);
}

/// Volume and open interest score a quarter for each decade, from none at one
/// contract to all at ten thousand, up to rounding.
pub proof fn law_liquidity_scores_decades(
    bid: Num,
    ask: Num,
    log_volume: Num,
    log_oi: Num,
    prior_mids: Seq<Num>,
    stability_max: Num,
)
    requires
        log_volume.finite() && exact::rabs(log_volume.exact()) <= 4000real,
        log_oi.finite() && exact::rabs(log_oi.exact()) <= 4000real,
    ensures
        ({
            let r = LiquidityScore::of_quote(
                bid,
                ask,
                log_volume,
                log_oi,
                prior_mids,
                stability_max,
            );
            &&& about(r.volume, share(log_volume.exact() / 4real), 4000real)
            &&& about(r.oi, share(log_oi.exact() / 4real), 4000real)
        }),
{
    let four = Num::of(LOG_LIQ_SCALE);
    lemma2_to64_rest();
    decimal::lemma_decimal(LOG_LIQ_SCALE, 4, 1, 50);
    let e = exact::eps();
    lemma_ratio(log_volume, four);
    lemma_ratio(log_oi, four);
    lemma_share(log_volume.fdiv(four), log_volume.exact() / 4real, 4000real * e);
    lemma_share(log_oi.fdiv(four), log_oi.exact() / 4real, 4000real * e);
}

/// The tail score is the expected shortfall at 95% over its scale, moved into
/// `[0, 1]`, up to rounding.
pub proof fn law_tail_score_is_the_shortfall(losses: Seq<Num>, es_max: Num)
    requires
        ({
            let s = TailRisk::of_losses(losses, es_max).es95;
            s.finite() && exact::rabs(s.exact()) <= 1000real * es_max.exact()
        }),
        es_max.finite(),
        1real / 0x100_0000_0000int as real <= es_max.exact() <= 0x100_0000_0000int as real,
    ensures
        ({
            let r = TailRisk::of_losses(losses, es_max);
            about(r.score, share(r.es95.exact() / es_max.exact()), 4000real)
        }),
{
    let s = TailRisk::of_losses(losses, es_max).es95;
    lemma_ratio(s, es_max);
    lemma_share(s.fdiv(es_max), s.exact() / es_max.exact(), 4000real * exact::eps());
}

/// The parts of model trust: what the calibration error leaves of one, what the
/// forecast error over its scale leaves, what the prediction variance over its
/// scale leaves, half a point for each decade of samples beyond the first, and the
/// recent win rate; each in `[0, 1]` and up to rounding.
pub proof fn law_trust_parts_are_worth(
    ece: Num,
    deltas: Seq<Num>,
    predictions: Seq<Num>,
    log_n: Num,
    recent_win_rate: Num,
    forecast_scale: Num,
    pred_var_max: Num,
    mae: Num,
)
    requires
        ece.finite(),
        recent_win_rate.finite(),
        log_n.finite() && exact::rabs(log_n.exact()) <= 1000real,
        risk::mean_abs_of(deltas) == Some(mae),
        mae.finite() && forecast_scale.finite() && pred_var_max.finite(),
        1real / 0x100_0000_0000int as real <= forecast_scale.exact() <= 0x100_0000_0000int as real,
        1real / 0x100_0000_0000int as real <= pred_var_max.exact() <= 0x100_0000_0000int as real,
        exact::rabs(mae.exact()) <= 1000real * forecast_scale.exact(),
        risk::finite_variance(predictions).finite(),
        exact::rabs(risk::finite_variance(predictions).exact()) <= 1000real * pred_var_max.exact(),
    ensures
        ({
            let r = TrustComponents::of_history(
                ece,
                deltas,
                predictions,
                log_n,
                recent_win_rate,
                forecast_scale,
                pred_var_max,
            );
            let var = risk::finite_variance(predictions).exact();
            &&& about(r.calibration, 1real - share(ece.exact()), 17_000real)
            &&& about(
                r.forecast_accuracy,
                1real - share(mae.exact() / forecast_scale.exact()),
                17_000real,
            )
            &&& about(
                r.prediction_stability,
                share(1real - var / pred_var_max.exact()),
                17_000real,
            )
            &&& about(r.sample_strength, share((log_n.exact() - 1real) / 2real), 17_000real)
            &&& about(r.recent_performance, share(recent_win_rate.exact()), 0real)
        }),
{
    let e = exact::eps();
    let (one, two) = (Num::of(ONE), Num::of(SAMPLE_LOG_SPAN));
    lemma2_to64_rest();
    lemma_pow2_strictly_increases(53, 400);
    decimal::lemma_decimal(ONE, 1, 1, 52);
    decimal::lemma_decimal(SAMPLE_LOG_SPAN, 2, 1, 51);
    exact::lemma_units_positive();
    // Calibration.
    lemma_share(ece, ece.exact(), 0real);
    let u = risk::unit(ece);
    assert((0real * e) * 1real == 0real);
    lemma_rest(u, share(ece.exact()), 0real, 1real);
    // Forecast accuracy.
    let (q, x) = (mae.fdiv(forecast_scale), mae.exact() / forecast_scale.exact());
    lemma_ratio(mae, forecast_scale);
    lemma_share(q, x, 4000real * e);
    assert((4000real * e) * 1real == 4000real * e);
    lemma_rest(risk::unit(q), share(x), 4000real, 1real);
    // Prediction stability.
    let var = risk::finite_variance(predictions);
    let (p, z) = (var.fdiv(pred_var_max), var.exact() / pred_var_max.exact());
    lemma_ratio(var, pred_var_max);
    lemma_rest(p, z, 4real, 1000real);
    lemma_share(one.fsub(p), 1real - z, 17_000real * e);
    // Sample strength.
    let n = log_n.exact();
    closeness::lemma_close_self(log_n, 1000real);
    closeness::lemma_close_self(one, 1real);
    closeness::lemma_sum(log_n, n, one, 1real, 0real, 1000real, 1real);
    exact::lemma_not_negative(e, 2real);
    closeness::lemma_quotient(log_n.fsub(one), n - 1real, two, 2real, 2real, 1001real, 1000real);
    lemma_share(log_n.fsub(one).fdiv(two), (n - 1real) / 2real, 17_000real * e);
    lemma_share(recent_win_rate, recent_win_rate.exact(), 0real);
}

/// Model trust weighs its parts: 0.3 of calibration, 0.2 of forecast accuracy, 0.2
/// of prediction stability, 0.15 of sample strength and 0.15 of recent performance,
/// up to rounding.
pub proof fn law_trust_weighs_its_parts(c: TrustComponents)
    requires
        risk::in_unit(c.calibration),
        risk::in_unit(c.forecast_accuracy),
        risk::in_unit(c.prediction_stability),
        risk::in_unit(c.sample_strength),
        risk::in_unit(c.recent_performance),
    ensures
        about(
            ModelTrust::of_components(c).score,
            (30real * c.calibration.exact() + 20real * c.forecast_accuracy.exact() + 20real
                * c.prediction_stability.exact() + 15real * c.sample_strength.exact() + 15real
                * c.recent_performance.exact()) / 100real,
            60real,
        ),
{
    lemma2_to64_rest();
    lemma_pow2_strictly_increases(53, 400);
    decimal::lemma_decimal(TRUST_W_CALIBRATION, 3, 10, 54);
    decimal::lemma_decimal(TRUST_W_FORECAST, 1, 5, 55);
    decimal::lemma_decimal(TRUST_W_STABILITY, 1, 5, 55);
    decimal::lemma_decimal(TRUST_W_SAMPLE, 3, 20, 55);
    decimal::lemma_decimal(TRUST_W_RECENT, 3, 20, 55);
    lemma_in_unit(c.calibration);
    lemma_in_unit(c.forecast_accuracy);
    lemma_in_unit(c.prediction_stability);
    lemma_in_unit(c.sample_strength);
    lemma_in_unit(c.recent_performance);
    let (a, b, d) = (
        c.calibration.exact(),
        c.forecast_accuracy.exact(),
        c.prediction_stability.exact(),
    );
    let (f, g) = (c.sample_strength.exact(), c.recent_performance.exact());
    lemma_part(Num::of(TRUST_W_CALIBRATION), 3real / 10real, c.calibration, a, 0real);
    lemma_part(Num::of(TRUST_W_FORECAST), 1real / 5real, c.forecast_accuracy, b, 0real);
    lemma_part(Num::of(TRUST_W_STABILITY), 1real / 5real, c.prediction_stability, d, 0real);
    lemma_part(Num::of(TRUST_W_SAMPLE), 3real / 20real, c.sample_strength, f, 0real);
    lemma_part(Num::of(TRUST_W_RECENT), 3real / 20real, c.recent_performance, g, 0real);
    let v1 = Num::of(TRUST_W_CALIBRATION).fmul(c.calibration);
    let v2 = Num::of(TRUST_W_FORECAST).fmul(c.forecast_accuracy);
    let v3 = Num::of(TRUST_W_STABILITY).fmul(c.prediction_stability);
    let v4 = Num::of(TRUST_W_SAMPLE).fmul(c.sample_strength);
    let v5 = Num::of(TRUST_W_RECENT).fmul(c.recent_performance);
    let (x1, x2, x3) = ((3real / 10real) * a, (1real / 5real) * b, (1real / 5real) * d);
    let (x4, x5) = ((3real / 20real) * f, (3real / 20real) * g);
    lemma_three(v1, x1, v2, x2, v3, x3, 4real);
    let (s, x) = (v1.fadd(v2).fadd(v3), x1 + x2 + x3);
    lemma_one_more(s, x, v4, x4, 4real, 8real, 3real);
    lemma_one_more(s.fadd(v4), x + x4, v5, x5, 4real, 10real, 4real);
    lemma_share(s.fadd(v4).fadd(v5), x + x4 + x5, 60real * exact::eps());
}

/// The dealer state index is half the gamma score, three tenths of the delta score
/// and a fifth of the vanna score, and its place in `[0, 1]` is midway for zero;
/// both up to rounding.
pub proof fn law_dealer_index_weighs_its_parts(
    g: GexStructure,
    chain: OptionChain,
    params: GexParams,
    kernel: Seq<Option<BsGreeks>>,
    scores: ExposureScores,
)
    requires
        g.is_structure_of(chain, params, kernel, scores),
        g.e_gex.finite() && exact::rabs(g.e_gex.exact()) <= 1real,
        g.e_dex.finite() && exact::rabs(g.e_dex.exact()) <= 1real,
        g.e_vex.finite() && exact::rabs(g.e_vex.exact()) <= 1real,
    ensures
        ({
            let x = (5real * g.e_gex.exact() + 3real * g.e_dex.exact() + 2real * g.e_vex.exact())
                / 10real;
            &&& about(g.dsi, x, 24real)
            &&& about(g.dealer01, (x + 1real) / 2real, 70real)
        }),
{
    let (one, two) = (Num::of(ONE), Num::of(TWO));
    lemma2_to64_rest();
    lemma_pow2_strictly_increases(53, 400);
    decimal::lemma_decimal(DSI_W_GEX, 1, 2, 53);
    decimal::lemma_decimal(DSI_W_DEX, 3, 10, 54);
    decimal::lemma_decimal(DSI_W_VEX, 1, 5, 55);
    decimal::lemma_decimal(ONE, 1, 1, 52);
    decimal::lemma_decimal(TWO, 2, 1, 51);
    let (a, b, c) = (g.e_gex.exact(), g.e_dex.exact(), g.e_vex.exact());
    lemma_part(Num::of(DSI_W_GEX), 1real / 2real, g.e_gex, a, 0real);
    lemma_part(Num::of(DSI_W_DEX), 3real / 10real, g.e_dex, b, 0real);
    lemma_part(Num::of(DSI_W_VEX), 1real / 5real, g.e_vex, c, 0real);
    let (x1, x2, x3) = ((1real / 2real) * a, (3real / 10real) * b, (1real / 5real) * c);
    let x = x1 + x2 + x3;
    lemma_three(
        Num::of(DSI_W_GEX).fmul(g.e_gex),
        x1,
        Num::of(DSI_W_DEX).fmul(g.e_dex),
        x2,
        Num::of(DSI_W_VEX).fmul(g.e_vex),
        x3,
        4real,
    );
    closeness::lemma_close_self(one, 1real);
    closeness::lemma_close_more(one, 1real, 0real, 8real, 1real, 1real);
    closeness::lemma_sum(g.dsi, x, one, 1real, 8real, 3real, 1real);
    exact::lemma_not_negative(exact::eps(), 2real);
    closeness::lemma_quotient(g.dsi.fadd(one), x + 1real, two, 2real, 10real, 4real, 2real);
}

/// Three parts by weight, moved into `[0, 1]`.
proof fn lemma_blend(
    w: (Num, Num, Num),
    x: (real, real, real),
    v: (Num, Num, Num),
    y: (real, real, real),
    k: real,
)
    requires
        w.0.finite() && w.1.finite() && w.2.finite(),
        exact::rabs(w.0.exact() - x.0) <= exact::eps() * x.0,
        exact::rabs(w.1.exact() - x.1) <= exact::eps() * x.1,
        exact::rabs(w.2.exact() - x.2) <= exact::eps() * x.2,
        0real <= x.0 <= 1real && 0real <= x.1 <= 1real && 0real <= x.2 <= 1real,
        about(v.0, y.0, k) && about(v.1, y.1, k) && about(v.2, y.2, k),
        -1real <= y.0 <= 1real && -1real <= y.1 <= 1real && -1real <= y.2 <= 1real,
        0real <= k <= 0x100_0000int as real,
    ensures
        about(
            thesis::unit_clamp(w.0.fmul(v.0).fadd(w.1.fmul(v.1)).fadd(w.2.fmul(v.2))),
            share(x.0 * y.0 + x.1 * y.1 + x.2 * y.2),
            3real * k + 24real,
        ),
{
    let e = exact::eps();
    lemma_part(w.0, x.0, v.0, y.0, k);
    lemma_part(w.1, x.1, v.1, y.1, k);
    lemma_part(w.2, x.2, v.2, y.2, k);
    let (a, b, c) = (x.0 * y.0, x.1 * y.1, x.2 * y.2);
    let (p, q, r) = (w.0.fmul(v.0), w.1.fmul(v.1), w.2.fmul(v.2));
    lemma_three(p, a, q, b, r, c, k + 4real);
    assert(((k + 8real) * e) * 3real == (3real * k + 24real) * e) by (nonlinear_arith);
    lemma_share(p.fadd(q).fadd(r), a + b + c, (3real * k + 24real) * e);
}

/// A signed number mapped onto the unit.
proof fn lemma_signed(v: Num, x: real, k: real, n: real)
    requires
        close(v, x, k, n),
        1real <= n <= 0x10_0000int as real,
        k <= 1000real,
    ensures
        about(thesis::signed_to_unit(v), share((x + 1real) / 2real), (k + 6real) * n),
{
    let e = exact::eps();
    let (one, two) = (Num::of(ONE), Num::of(TWO));
    lemma2_to64_rest();
    lemma_pow2_strictly_increases(53, 400);
    decimal::lemma_decimal(ONE, 1, 1, 52);
    decimal::lemma_decimal(TWO, 2, 1, 51);
    closeness::lemma_close_self(one, 1real);
    closeness::lemma_close_more(one, 1real, 0real, k, 1real, 1real);
    closeness::lemma_sum(v, x, one, 1real, k, n, 1real);
    exact::lemma_not_negative(e, 2real);
    closeness::lemma_quotient(v.fadd(one), x + 1real, two, 2real, k + 2real, n + 1real, n);
    assert(((k + 6real) * e) * n == ((k + 6real) * n) * e) by (nonlinear_arith);
    lemma_share(v.fadd(one).fdiv(two), (x + 1real) / 2real, ((k + 6real) * n) * e);
}

/// The momentum score is the tangent, moved into `[0, 1]`; half of it where the RSI
/// moves and not the same way as the price; up to rounding.
pub proof fn law_divergence_halves_momentum(mom_vel: Num, rsi_slope: Num, tanh: Num)
    requires
        mom_vel.finite(),
        rsi_slope.finite(),
        tanh.finite() && exact::rabs(tanh.exact()) <= 1real,
    ensures
        ({
            let (m, r) = (mom_vel.exact(), rsi_slope.exact());
            let agree = r == 0real || (m > 0real && r > 0real) || (m < 0real && r < 0real);
            about(
                thesis::momentum_from(mom_vel, rsi_slope, tanh),
                share(
                    if agree {
                        tanh.exact()
                    } else {
                        tanh.exact() / 2real
                    },
                ),
                4real,
            )
        }),
{
    let (zero, one) = (Num::of(ZERO), Num::of(ONE));
    let half = Num::of(MOMENTUM_DIVERGENCE_PENALTY);
    let t = tanh.exact();
    lemma2_to64_rest();
    decimal::lemma_decimal(ONE, 1, 1, 52);
    decimal::lemma_decimal(MOMENTUM_DIVERGENCE_PENALTY, 1, 2, 53);
    exact::lemma_exact_zero(zero);
    exact::lemma_exact_order(zero, mom_vel);
    exact::lemma_exact_order(mom_vel, zero);
    exact::lemma_exact_order(zero, rsi_slope);
    exact::lemma_exact_order(rsi_slope, zero);
    exact::lemma_units_positive();
    lemma_part(one, 1real, tanh, t, 0real);
    lemma_part(half, 1real / 2real, tanh, t, 0real);
    algebra::law_mul_commutes(one, tanh);
    algebra::law_mul_commutes(half, tanh);
    assert((4real * exact::eps()) * 1real == 4real * exact::eps());
    lemma_share(tanh.fmul(one), t, 4real * exact::eps());
    lemma_share(tanh.fmul(half), t / 2real, 4real * exact::eps());
}

/// Relative volume scores from 0 at the usual volume to 1 at twice it, up to
/// rounding.
pub proof fn law_volume_scores_the_excess(rv: Num)
    requires
        rv.finite() && exact::rabs(rv.exact()) <= 1000real,
    ensures
        about(thesis::volume_score(rv), share(rv.exact() - 1real), 7000real),
{
    let e = exact::eps();
    let (usual, full) = (Num::of(RVOL_NEUTRAL), Num::of(RVOL_FULL));
    let x = rv.exact();
    lemma2_to64_rest();
    lemma_pow2_strictly_increases(53, 400);
    decimal::lemma_decimal(RVOL_NEUTRAL, 1, 1, 52);
    decimal::lemma_decimal(RVOL_FULL, 2, 1, 51);
    closeness::lemma_close_self(rv, 1000real);
    closeness::lemma_close_self(usual, 1real);
    closeness::lemma_close_self(full, 2real);
    closeness::lemma_sum(rv, x, usual, 1real, 0real, 1000real, 1real);
    closeness::lemma_sum(full, 2real, usual, 1real, 0real, 2real, 1real);
    exact::lemma_exact_neg(usual);
    exact::lemma_exact_add(full, usual.fneg());
    let (v, d) = (rv.fsub(usual), full.fsub(usual));
    closeness::lemma_quotient(v, x - 1real, d, 1real, 2real, 1001real, 1001real);
    lemma_share(v.fdiv(d), x - 1real, 7000real * e);
}

/// A distance in the trade direction over the ATR.
proof fn lemma_distance(p: Num, q: Num, dir: Num, atr: Num)
    requires
        p.finite() && q.finite() && dir.finite() && atr.finite(),
        dir.exact() == 1real || dir.exact() == -1real,
        1real / 1000real <= atr.exact() <= 0x1_0000_0000int as real,
        exact::rabs(p.exact()) + exact::rabs(q.exact()) <= 10_000real * atr.exact(),
    ensures
        close(
            dir.fmul(p.fsub(q)).fdiv(atr),
            dir.exact() * (p.exact() - q.exact()) / atr.exact(),
            9real,
            10_000real,
        ),
{
    let (a, b, d, y) = (p.exact(), q.exact(), dir.exact(), atr.exact());
    let (m, n) = (exact::rabs(a), exact::rabs(b));
    lemma2_to64_rest();
    lemma_pow2_strictly_increases(53, 400);
    closeness::lemma_close_self(p, m);
    closeness::lemma_close_self(q, n);
    closeness::lemma_sum(p, a, q, b, 0real, m, n);
    let w = 10_000real * y;
    closeness::lemma_close_more(p.fsub(q), a - b, 2real, 2real, m + n, w);
    closeness::lemma_close_self(dir, 1real);
    closeness::lemma_product(dir, d, p.fsub(q), a - b, 0real, 2real, 1real, w);
    exact::lemma_units_positive();
    exact::lemma_not_negative(exact::eps(), y);
    closeness::lemma_quotient(
        dir.fmul(p.fsub(q)),
        d * (a - b),
        atr,
        y,
        5real,
        w,
        10_000real,
    );
}

/// Momentum is the move of the close over the lookback, in the trade direction and
/// in ATRs, up to rounding.
pub proof fn law_momentum_is_the_move_in_atrs(c: Seq<Candle>, dir: Num, atr_fallback: Num)
    requires
        c.len() > MOM_LOOKBACK,
        ({
            let r = Reading::of_series(c, dir, atr_fallback);
            let (p, q) = (c[c.len() - 1].close, c[c.len() - 1 - MOM_LOOKBACK].close);
            &&& p.finite() && q.finite() && dir.finite() && r.atr_div.finite()
            &&& dir.exact() == 1real || dir.exact() == -1real
            &&& 1real / 1000real <= r.atr_div.exact() <= 0x1_0000_0000int as real
            &&& exact::rabs(p.exact()) + exact::rabs(q.exact()) <= 10_000real * r.atr_div.exact()
        }),
    ensures
        ({
            let r = Reading::of_series(c, dir, atr_fallback);
            let (p, q) = (c[c.len() - 1].close, c[c.len() - 1 - MOM_LOOKBACK].close);
            about(
                r.mom_vel,
                dir.exact() * (p.exact() - q.exact()) / r.atr_div.exact(),
                90_000real,
            )
        }),
{
    let r = Reading::of_series(c, dir, atr_fallback);
    let (p, q) = (c[c.len() - 1].close, c[c.len() - 1 - MOM_LOOKBACK].close);
    lemma_distance(p, q, dir, r.atr_div);
}

/// The VWAP score is 0.6 of the kernel, which counts only beyond VWAP in the trade
/// direction, 0.25 of the slope of VWAP in ATRs with 0 midway, and 0.15 where the
/// close crossed VWAP on the last bar; up to rounding, where the close is at least
/// a thousandth of an ATR away from VWAP.
pub proof fn law_vwap_score_weighs_its_parts(c: Seq<Candle>, dir: Num, r: Reading, e: Num)
    requires
        c.len() > RSI_SLOPE_LOOKBACK,
        risk::in_unit(e),
        r.atr == r.atr_div,
        ({
            let (p, q) = (c[c.len() - 1].close, thesis::vwap_or_close(c, c.len() - 6));
            let y = r.atr.exact();
            &&& p.finite() && q.finite() && dir.finite() && r.atr.finite() && r.vwap.finite()
            &&& dir.exact() == 1real || dir.exact() == -1real
            &&& 1real / 1000real <= y <= 0x1_0000_0000int as real
            &&& exact::rabs(p.exact()) + exact::rabs(r.vwap.exact()) <= 10_000real * y
            &&& exact::rabs(r.vwap.exact()) + exact::rabs(q.exact()) <= 10_000real * y
            &&& exact::rabs(p.exact() - r.vwap.exact()) >= y / 1000real
        }),
    ensures
        ({
            let (p, q) = (c[c.len() - 1].close.exact(), thesis::vwap_or_close(c, c.len() - 6).exact());
            let (w, d) = (r.vwap.exact(), dir.exact());
            let kernel = if d * (p - w) > 0real {
                e.exact()
            } else {
                0real
            };
            let slope = share((d * (w - q) / r.atr.exact() + 1real) / 2real);
            let reclaim = if thesis::reclaimed(c, r.vwap, dir) {
                1real
            } else {
                0real
            };
            about(
                thesis::vwap_full(c, dir, r, e),
                share((60real * kernel + 25real * slope + 15real * reclaim) / 100real),
                500_000real,
            )
        }),
{
    let eps = exact::eps();
    let (p, q) = (c[c.len() - 1].close, thesis::vwap_or_close(c, c.len() - 6));
    let (zero, one) = (Num::of(ZERO), Num::of(ONE));
    let (w, d, y) = (r.vwap.exact(), dir.exact(), r.atr.exact());
    lemma2_to64_rest();
    exact::lemma_units_positive();
    decimal::lemma_decimal(ONE, 1, 1, 52);
    decimal::lemma_decimal(VWAP_BLEND_KERNEL, 3, 5, 53);
    decimal::lemma_decimal(VWAP_BLEND_SLOPE, 1, 4, 54);
    decimal::lemma_decimal(VWAP_BLEND_RECLAIM, 3, 20, 55);
    exact::lemma_exact_zero(zero);
    lemma_in_unit(e);
    exact::lemma_exact_order(r.atr, zero);
    // The kernel counts.
    let far = dir.fmul(p.fsub(r.vwap)).fdiv(r.atr);
    let x = d * (p.exact() - w);
    lemma_distance(p, r.vwap, dir, r.atr);
    exact::lemma_exact_order(far, zero);
    exact::lemma_over(x, y);
    let (z, t) = (x / y, p.exact() - w);
    assert(x == t || x == -t) by (nonlinear_arith)
        requires
            x == d * t,
            d == 1real || d == -1real,
    ;
    assert(z >= 1real / 1000real || z <= -1real / 1000real) by (nonlinear_arith)
        requires
            z * y == x,
            y > 0real,
            x >= y / 1000real || x <= -y / 1000real,
    ;
    assert(x > 0real <==> z > 0real) by (nonlinear_arith)
        requires
            z * y == x,
            y > 0real,
    ;
    let kernel = thesis::vwap_from(p, r.vwap, r.atr, dir, e);
    // The slope.
    let slope = dir.fmul(r.vwap.fsub(q)).fdiv(r.atr);
    lemma_distance(r.vwap, q, dir, r.atr);
    lemma_signed(slope, d * (w - q.exact()) / y, 9real, 10_000real);
    let reclaim = if thesis::reclaimed(c, r.vwap, dir) {
        one
    } else {
        zero
    };
    lemma_blend(
        (Num::of(VWAP_BLEND_KERNEL), Num::of(VWAP_BLEND_SLOPE), Num::of(VWAP_BLEND_RECLAIM)),
        (3real / 5real, 1real / 4real, 3real / 20real),
        (kernel, thesis::signed_to_unit(slope), reclaim),
        (
            kernel.exact(),
            share((d * (w - q.exact()) / y + 1real) / 2real),
            reclaim.exact(),
        ),
        150_000real,
    );
}

} // verus!
