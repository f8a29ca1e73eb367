//! Technicals, thesis, dealer exposures, gravity zones, flow dynamics, dealer
//! reads and regimes, against known values.

use slayer::black_scholes::{BsGreeks, BsInputs, BsTerms, QuantError};
use slayer::dealer::{
    charm_bias, dealer_dynamics, gamma_dynamics, oi_flow, oi_migration, vanna_flow, BiasDirection,
    DealerDynamicsInput, DealerPrevStates, FlowDirection, GammaHedgeDirection, MigrationDirection,
    OiFlowDirection, TrendDirection, MIGRATION_STABLE_BAND,
};
use slayer::dealer_read::{
    Bias, DealerRegime, GexOutlook, OutlookBias, OutlookRegime, ProfileInputs, StrikeGex,
    TerminalRead, ZeroDte, BIAS_SCORE_THRESH, NEUTRAL_CONF_CAP, OUTLOOK_CONF_NODATA,
};
use slayer::gex::{
    ExposureScores, GexError, GexParams, GexStructure, DSI_W_DEX, DSI_W_GEX, EXPOSURE_TANH_K,
    PCT_MOVE_SCALE,
};
use slayer::market::{
    Candle, ExpiryDate, Greeks, OptionChain, OptionQuote, OptionRight, Symbol, TsMillis,
};
use slayer::num::Num;
use slayer::realized_vol::BarRatios;
use slayer::regime::{HurstPoint, RegimeClassification, RegimeLabel, RegimeState, RegimeTerms};
use slayer::state::BinaryState;
use slayer::technicals::{
    ema_last, ema_series, fractal_pivots, rvol, session_vwap, structure01, wilder_atr, wilder_rsi,
    Pivot, PivotKind, FRACTAL_HALF_WINDOW, RVOL_BASELINE_BARS, RVOL_NEUTRAL, STRUCT_COUNTER,
    STRUCT_FULL, STRUCT_NEUTRAL, STRUCT_RANGE, WILDER_PERIOD_DEFAULT,
};
use slayer::thesis::{
    engagement_band, ScoreTerms, ThesisReadout, DIR_LONG, DIR_SHORT, ENGAGEMENT_ACTIVATE,
    ENGAGEMENT_DEACTIVATE, MOMENTUM_DIVERGENCE_PENALTY, SCORE_NEUTRAL_SUB, SCORE_NEUTRAL_TOTAL,
    SUB_SCORE_MAX, THESIS_MAX, TOTAL_SCORE_MAX,
};
use slayer::zones::{
    wall_zone, zone_structure, GravityConfig, GravitySide, GravityStrikeInput, StrikeGravity,
    WallInput, WallKind, ZoneInput,
};

fn n(x: f64) -> Num {
    Num::of(x.to_bits())
}

fn f(x: Num) -> f64 {
    f64::from_bits(x.bits)
}

fn ns(v: &[f64]) -> Vec<Num> {
    v.iter().map(|&x| n(x)).collect()
}

fn exp(x: Num) -> Num {
    n(f(x).exp())
}

fn ln(x: Num) -> Num {
    n(f(x).ln())
}

fn tanh(x: Num) -> Num {
    n(f(x).tanh())
}

fn gauss(x: Num) -> Num {
    exp(slayer::dist::gauss_arg(x))
}

fn bs_terms(i: &BsInputs) -> BsTerms {
    let ln_moneyness = ln(i.moneyness());
    let (d1, d2) = i.d1_d2(ln_moneyness);
    BsTerms {
        ln_moneyness,
        exp_d1: gauss(d1),
        exp_d2: gauss(d2),
        disc_rate: exp(i.rate_exponent()),
        disc_yield: exp(i.yield_exponent()),
        growth: exp(i.carry_exponent()),
    }
}

fn bs_greeks(i: &BsInputs, right: OptionRight) -> Result<BsGreeks, QuantError> {
    slayer::black_scholes::greeks(i, right, &bs_terms(i))
}

fn bar_logs(candles: &Vec<Candle>) -> Vec<BarRatios> {
    slayer::realized_vol::candle_ratios(candles)
        .iter()
        .map(|r| BarRatios {
            high_low: ln(r.high_low),
            close_open: ln(r.close_open),
            high_close: ln(r.high_close),
            high_open: ln(r.high_open),
            low_close: ln(r.low_close),
            low_open: ln(r.low_open),
            close_prev: ln(r.close_prev),
            open_prev: ln(r.open_prev),
        })
        .collect()
}

fn score_terms(candles: &Vec<Candle>, dir: Num, atr_fallback: Num) -> ScoreTerms {
    match slayer::thesis::score_args(candles, dir, atr_fallback) {
        Some(a) => ScoreTerms {
            momentum_tanh: tanh(a.momentum_point),
            vwap_exp: match a.vwap_point {
                Some(z) => exp(slayer::thesis::vwap_exponent(ln(z))),
                None => n(0.0),
            },
        },
        None => ScoreTerms { momentum_tanh: n(0.0), vwap_exp: n(0.0) },
    }
}

fn kernel_greeks(chain: &OptionChain, params: &GexParams) -> Vec<Option<BsGreeks>> {
    let blank = BsInputs {
        spot: n(1.0),
        strike: n(1.0),
        t_years: n(1.0),
        vol: n(1.0),
        rate: n(0.0),
        div_yield: n(0.0),
    };
    let terms: Vec<BsTerms> = chain
        .quotes
        .iter()
        .map(|q| bs_terms(&slayer::gex::kernel_inputs(q, chain.spot, params).unwrap_or(blank)))
        .collect();
    slayer::gex::kernel_greeks(chain, params, &terms)
}

fn exposure_scores(
    chain: &OptionChain,
    params: &GexParams,
    kernel: &Vec<Option<BsGreeks>>,
) -> ExposureScores {
    let at = |p: Option<Num>| p.map_or(n(0.0), tanh);
    match slayer::gex::exposure_args(chain, params, kernel) {
        Ok((gex, dex, vex)) => ExposureScores { gex: at(gex), dex: at(dex), vex: at(vex) },
        Err(_) => ExposureScores { gex: n(0.0), dex: n(0.0), vex: n(0.0) },
    }
}

fn log_returns(prices: &Vec<Num>) -> Vec<Num> {
    slayer::regime::return_ratios(prices).into_iter().map(ln).collect()
}

fn hurst_logs(log_rets: &Vec<Num>) -> Vec<HurstPoint> {
    slayer::regime::hurst_points(log_rets)
        .iter()
        .map(|p| HurstPoint {
            window: ln(p.window),
            observed: ln(p.observed),
            expected: ln(p.expected),
        })
        .collect()
}

fn regime_exps(log_rets: &Vec<Num>, hurst: Num) -> (Num, Num, Num) {
    match slayer::regime::regime_exponents(log_rets, hurst) {
        Some((a, b, c)) => (exp(a), exp(b), exp(c)),
        None => (n(0.0), n(0.0), n(0.0)),
    }
}

fn ln_phi(series: &Vec<Num>) -> Num {
    slayer::regime::ou_phi(series).map_or(n(0.0), ln)
}

fn regime_terms(candles: &Vec<Candle>) -> RegimeTerms {
    let closes = slayer::regime::closes(candles);
    let log_rets = log_returns(&closes);
    let hurst = hurst_logs(&log_rets);
    let h = slayer::regime::hurst_exponent(&log_rets, &hurst);
    RegimeTerms {
        exps: regime_exps(&log_rets, h),
        ln_phi: ln_phi(&closes),
        bars: bar_logs(candles),
        log_rets,
        hurst,
    }
}

const EPS: f64 = 1e-9;

/// The value of a constant.
fn k(bits: u64) -> f64 {
    f64::from_bits(bits)
}

// Technicals.

fn ohlcv(o: f64, h: f64, l: f64, c: f64, v: f64) -> Candle {
    Candle { ts: TsMillis(0), open: n(o), high: n(h), low: n(l), close: n(c), volume: n(v) }
}

/// A bar at price `p` with the given half range and volume.
fn bar(p: f64, half: f64, v: f64) -> Candle {
    ohlcv(p, p + half, p - half, p, v)
}

fn rising(count: usize) -> Vec<Candle> {
    (0..count).map(|i| bar(100.0 + i as f64, 0.5, 1000.0 + i as f64)).collect()
}

#[test]
fn rsi_warmup_is_none_then_seeds_at_period() {
    let c = rising(20);
    let rsi = wilder_rsi(&c, WILDER_PERIOD_DEFAULT);
    assert_eq!(rsi.len(), 20);
    for r in rsi.iter().take(WILDER_PERIOD_DEFAULT) {
        assert!(r.is_none());
    }
    assert!(rsi[WILDER_PERIOD_DEFAULT].is_some());
}

#[test]
fn rsi_saturates_on_monotonic_series() {
    let rsi_up = wilder_rsi(&rising(20), WILDER_PERIOD_DEFAULT);
    assert!((f(rsi_up[19].unwrap()) - 100.0).abs() < EPS);

    let down: Vec<Candle> = (0..20).map(|i| bar(200.0 - i as f64, 0.5, 1000.0)).collect();
    let rsi_dn = wilder_rsi(&down, WILDER_PERIOD_DEFAULT);
    assert!(f(rsi_dn[19].unwrap()).abs() < EPS);
}

#[test]
fn rsi_is_extreme_on_every_bar_of_a_one_way_series() {
    let mut up = rising(30);
    up[7] = bar(106.0, 0.5, 1000.0);
    up[6] = bar(106.0, 0.5, 1000.0);
    for (i, v) in wilder_rsi(&up, 5).iter().enumerate() {
        assert_eq!(v.map(f), if i < 5 { None } else { Some(100.0) });
    }
    let down: Vec<Candle> = (0..30).map(|i| bar(200.0 - 0.1 * i as f64, 0.5, 1000.0)).collect();
    for (i, v) in wilder_rsi(&down, 5).iter().enumerate() {
        assert_eq!(v.map(f), if i < 5 { None } else { Some(0.0) });
    }
    let flat: Vec<Candle> = (0..10).map(|_| bar(100.0, 1.0, 1000.0)).collect();
    assert_eq!(wilder_rsi(&flat, 5)[9].map(f), Some(100.0));
}

#[test]
fn rsi_short_series_all_none() {
    let c = rising(WILDER_PERIOD_DEFAULT);
    assert!(wilder_rsi(&c, WILDER_PERIOD_DEFAULT).iter().all(Option::is_none));
    assert!(wilder_rsi(&rising(5), 0).iter().all(Option::is_none));
}

#[test]
fn atr_constant_range_converges_to_range() {
    let c: Vec<Candle> = (0..20).map(|_| bar(100.0, 1.0, 1000.0)).collect();
    let atr = wilder_atr(&c, WILDER_PERIOD_DEFAULT);
    assert!((f(atr[19].unwrap()) - 2.0).abs() < EPS);
}

#[test]
fn rsi_and_atr_seed_at_the_same_index_d18() {
    let c = rising(30);
    let rsi = wilder_rsi(&c, WILDER_PERIOD_DEFAULT);
    let atr = wilder_atr(&c, WILDER_PERIOD_DEFAULT);
    let first_rsi = rsi.iter().position(Option::is_some).unwrap();
    let first_atr = atr.iter().position(Option::is_some).unwrap();
    assert_eq!(first_rsi, WILDER_PERIOD_DEFAULT);
    assert_eq!(first_atr, WILDER_PERIOD_DEFAULT);
}

#[test]
fn ema_constant_series_is_constant() {
    let v = vec![n(7.0); 10];
    let e = ema_series(&v, 4);
    assert!(e[..3].iter().all(Option::is_none));
    assert!((f(e[3].unwrap()) - 7.0).abs() < EPS);
    assert!((f(ema_last(&v, 4).unwrap()) - 7.0).abs() < EPS);
    assert!(ema_last(&ns(&[1.0, 2.0]), 4).is_none());
}

#[test]
fn session_vwap_matches_typical_and_abstains_without_volume() {
    let c: Vec<Candle> = (0..5).map(|_| bar(50.0, 1.0, 100.0)).collect();
    let v = session_vwap(&c);
    assert!((f(v[4].unwrap()) - 50.0).abs() < EPS);

    let zero: Vec<Candle> = (0..3).map(|_| bar(50.0, 1.0, 0.0)).collect();
    assert!(session_vwap(&zero).iter().all(Option::is_none));
}

#[test]
fn rvol_neutral_when_baseline_unusable_d14() {
    let c: Vec<Candle> =
        (0..4).map(|i| bar(100.0, 0.5, [10.0, 10.0, 10.0, 30.0][i])).collect();
    assert!((f(rvol(&c, 0, RVOL_BASELINE_BARS)) - k(RVOL_NEUTRAL)).abs() < EPS);
    assert!((f(rvol(&c, 3, RVOL_BASELINE_BARS)) - 3.0).abs() < EPS);
    let z: Vec<Candle> = (0..4).map(|_| bar(100.0, 0.5, 0.0)).collect();
    assert!((f(rvol(&z, 3, RVOL_BASELINE_BARS)) - k(RVOL_NEUTRAL)).abs() < EPS);
}

#[test]
fn fractal_double_top_yields_one_pivot_d16() {
    let highs = [1.0, 2.0, 5.0, 5.0, 2.0, 1.0, 0.5];
    let c: Vec<Candle> = highs.iter().map(|&h| ohlcv(h, h, h - 3.0, h - 1.0, 100.0)).collect();
    let pivots = fractal_pivots(&c, FRACTAL_HALF_WINDOW);
    let tops: Vec<&Pivot> = pivots.iter().filter(|p| p.kind == PivotKind::High).collect();
    assert_eq!(tops.len(), 1, "double top must produce exactly one pivot");
    assert_eq!(tops[0].index, 2, "leftmost bar of the plateau");
    assert!((f(tops[0].price) - 5.0).abs() < EPS);
}

#[test]
fn fractal_strict_peak_detected_like_legacy() {
    let highs = [1.0, 2.0, 3.0, 9.0, 3.0, 2.0, 1.0];
    let c: Vec<Candle> = highs.iter().map(|&h| ohlcv(h, h, h - 3.0, h - 1.0, 100.0)).collect();
    let pivots = fractal_pivots(&c, FRACTAL_HALF_WINDOW);
    let tops: Vec<&Pivot> = pivots.iter().filter(|p| p.kind == PivotKind::High).collect();
    assert_eq!(tops.len(), 1);
    assert_eq!(tops[0].index, 3);
}

fn pivot(index: usize, price: f64, kind: PivotKind) -> Pivot {
    Pivot { index, price: n(price), kind }
}

fn structure(p: Vec<Pivot>) -> f64 {
    f(structure01(&p, n(1.0), n(1.0)))
}

#[test]
fn structure01_neutral_without_enough_pivots() {
    let p = vec![pivot(0, 10.0, PivotKind::High)];
    assert!((structure(p) - k(STRUCT_NEUTRAL)).abs() < EPS);
}

#[test]
fn structure01_bullish_higher_highs_and_lows() {
    let p = vec![
        pivot(0, 10.0, PivotKind::Low),
        pivot(1, 20.0, PivotKind::High),
        pivot(2, 14.0, PivotKind::Low),
        pivot(3, 25.0, PivotKind::High),
        pivot(4, 22.0, PivotKind::Low),
    ];
    assert!((structure(p) - k(STRUCT_FULL)).abs() < EPS);
}

#[test]
fn structure01_counter_trend_is_zero() {
    let p = vec![
        pivot(0, 30.0, PivotKind::High),
        pivot(1, 20.0, PivotKind::Low),
        pivot(2, 25.0, PivotKind::High),
        pivot(3, 15.0, PivotKind::Low),
    ];
    assert!((structure(p) - k(STRUCT_COUNTER)).abs() < EPS);
}

#[test]
fn structure01_range_bound_when_pivots_equal() {
    let p = vec![
        pivot(0, 20.0, PivotKind::High),
        pivot(1, 10.0, PivotKind::Low),
        pivot(2, 20.02, PivotKind::High),
        pivot(3, 10.02, PivotKind::Low),
    ];
    assert!((structure(p) - k(STRUCT_RANGE)).abs() < EPS);
}

// Thesis.

fn candle(h: f64, l: f64, c: f64, v: f64) -> Candle {
    ohlcv(c, h, l, c, v)
}

fn momentum01(mom_vel: f64, rsi_slope: f64) -> f64 {
    let t = tanh(slayer::thesis::momentum_arg(n(mom_vel)));
    f(slayer::thesis::momentum01(n(mom_vel), n(rsi_slope), t))
}

fn vwap01(close: f64, vwap: f64, atr: f64, dir: u64) -> f64 {
    let (close, vwap, atr, dir) = (n(close), n(vwap), n(atr), Num::of(dir));
    let e = match slayer::thesis::vwap_arg(close, vwap, atr, dir) {
        Some(z) => exp(slayer::thesis::vwap_exponent(ln(z))),
        None => n(0.0),
    };
    f(slayer::thesis::vwap01(close, vwap, atr, dir, e))
}

fn volume01(rv: f64) -> f64 {
    f(slayer::thesis::volume01(n(rv)))
}

fn thesis(candles: &Vec<Candle>, atr_fallback: f64) -> ThesisReadout {
    let a = n(atr_fallback);
    let long = score_terms(candles, Num::of(DIR_LONG), a);
    let short = score_terms(candles, Num::of(DIR_SHORT), a);
    slayer::thesis::thesis(candles, a, &long, &short)
}

#[test]
fn momentum01_penalizes_divergence_and_clamps_negative() {
    let aligned = momentum01(1.0, 1.0);
    assert!((aligned - (0.5_f64).tanh()).abs() < EPS);
    let divergent = momentum01(1.0, -1.0);
    assert!((divergent - (0.5_f64).tanh() * k(MOMENTUM_DIVERGENCE_PENALTY)).abs() < EPS);
    let zero_slope = momentum01(1.0, 0.0);
    assert!((zero_slope - (0.5_f64).tanh()).abs() < EPS);
    assert!(momentum01(-3.0, -3.0).abs() < EPS);
}

#[test]
fn vwap01_peaks_at_the_kernel_distance() {
    let v = vwap01(100.5, 100.0, 1.0, DIR_LONG);
    assert!((v - 1.0).abs() < EPS);
    assert!(vwap01(99.5, 100.0, 1.0, DIR_LONG).abs() < EPS);
    assert!(vwap01(100.5, 100.0, 0.0, DIR_LONG).abs() < EPS);
    assert!(vwap01(100.5, 100.0, f64::NAN, DIR_LONG).abs() < EPS);
}

#[test]
fn volume01_maps_rvol_range() {
    assert!(volume01(1.0).abs() < EPS);
    assert!((volume01(1.5) - 0.5).abs() < EPS);
    assert!((volume01(2.0) - 1.0).abs() < EPS);
    assert!((volume01(5.0) - 1.0).abs() < EPS);
}

#[test]
fn empty_candles_return_neutral_and_disengaged() {
    let t = thesis(&vec![], 1.0);
    assert_eq!(t.long_score, SCORE_NEUTRAL_TOTAL);
    assert_eq!(t.short_score, SCORE_NEUTRAL_TOTAL);
    assert_eq!(t.direction, 0);
    assert_eq!(t.dominant.momentum_acceleration, SCORE_NEUTRAL_SUB);
    assert_eq!(t.engagement.state, BinaryState::Inactive);
    assert!((f(t.engagement.score) - 0.5).abs() < EPS);
}

#[test]
fn clean_uptrend_leans_long() {
    let candles: Vec<Candle> = (0..40)
        .map(|i| {
            let c = 100.0 + i as f64;
            candle(c + 0.5, c - 0.5, c, 1000.0 + i as f64 * 10.0)
        })
        .collect();
    let t = thesis(&candles, 1.0);
    assert!(t.long_score > t.short_score, "long {} short {}", t.long_score, t.short_score);
    assert_eq!(t.direction, 1);
    assert_eq!(t.dominant.total, t.long_score);
}

#[test]
fn clean_downtrend_leans_short() {
    let candles: Vec<Candle> = (0..40)
        .map(|i| {
            let c = 200.0 - i as f64;
            candle(c + 0.5, c - 0.5, c, 1000.0 + i as f64 * 10.0)
        })
        .collect();
    let t = thesis(&candles, 1.0);
    assert!(t.short_score > t.long_score);
    assert_eq!(t.direction, -1);
    assert_eq!(t.dominant.total, t.short_score);
}

#[test]
fn engagement_score_ties_to_the_hysteresis_band() {
    let candles: Vec<Candle> = (0..40)
        .map(|i| {
            let c = 100.0 + i as f64;
            candle(c + 0.5, c - 0.5, c, 1000.0)
        })
        .collect();
    let t = thesis(&candles, 1.0);
    let expected = f64::from(t.long_score.max(t.short_score)) / k(THESIS_MAX);
    assert!((f(t.engagement.score) - expected).abs() < EPS);
    assert_eq!(
        t.engagement.state,
        engagement_band().resolve(n(expected), BinaryState::Inactive)
    );
}

#[test]
fn previous_state_is_carried_through_the_band() {
    let mid = n(0.5 * (k(ENGAGEMENT_ACTIVATE) + k(ENGAGEMENT_DEACTIVATE)));
    assert_eq!(engagement_band().resolve(mid, BinaryState::Active), BinaryState::Active);
    assert_eq!(engagement_band().resolve(mid, BinaryState::Inactive), BinaryState::Inactive);
}

#[test]
fn sub_scores_stay_in_range() {
    let candles: Vec<Candle> = (0..50)
        .map(|i| {
            let c = 100.0 + (i as f64 * 0.3).sin() * 5.0;
            candle(c + 1.0, c - 1.0, c, 1000.0 + i as f64)
        })
        .collect();
    let t = thesis(&candles, 1.0);
    for s in [
        t.dominant.structure_quality,
        t.dominant.displacement_quality,
        t.dominant.volume_expansion,
        t.dominant.rsi_cascade,
        t.dominant.vwap_alignment,
        t.dominant.liquidity_sweep,
        t.dominant.htf_agreement,
        t.dominant.volatility_regime,
        t.dominant.premium_discount,
        t.dominant.momentum_acceleration,
    ] {
        assert!(s <= SUB_SCORE_MAX);
    }
    assert!(t.dominant.total >= 1 && t.dominant.total <= TOTAL_SCORE_MAX);
}

// Dealer exposures.

const RATE: f64 = 0.05;

fn sym() -> Symbol {
    Symbol::new("SPX").unwrap()
}

fn greek(delta: f64, gamma: f64) -> Greeks {
    Greeks { delta: n(delta), gamma: n(gamma), theta: n(0.0), vega: n(0.0) }
}

fn quote(
    strike: f64,
    right: OptionRight,
    oi: u64,
    iv: Option<f64>,
    g: Option<Greeks>,
) -> OptionQuote {
    OptionQuote {
        strike: n(strike),
        right,
        expiry: ExpiryDate { year: 2026, month: 7, day: 17 },
        bid: None,
        ask: None,
        volume: 0,
        open_interest: oi,
        iv: iv.map(n),
        greeks: g,
    }
}

fn chain(spot: f64, mult: f64, quotes: Vec<OptionQuote>) -> OptionChain {
    OptionChain {
        underlying: sym(),
        spot: n(spot),
        ts: TsMillis(0),
        multiplier: n(mult),
        quotes,
    }
}

fn gex_params(t_years: f64, rate: f64) -> GexParams {
    GexParams::new(n(t_years), n(rate), n(0.0))
}

fn params() -> GexParams {
    gex_params(0.5, RATE)
}

fn analyze(chain: &OptionChain, params: &GexParams) -> Result<GexStructure, GexError> {
    let kernel = kernel_greeks(chain, params);
    let scores = exposure_scores(chain, params, &kernel);
    slayer::gex::analyze(chain, params, &kernel, &scores)
}

#[test]
fn symmetric_chain_flips_at_center_via_interpolation() {
    let qs = vec![
        quote(90.0, OptionRight::Put, 100, None, Some(greek(-0.5, 0.001))),
        quote(95.0, OptionRight::Put, 100, None, Some(greek(-0.5, 0.001))),
        quote(105.0, OptionRight::Call, 400, None, Some(greek(0.5, 0.001))),
        quote(110.0, OptionRight::Call, 200, None, Some(greek(0.5, 0.001))),
    ];
    let r = analyze(&chain(100.0, 100.0, qs), &params()).unwrap();
    assert!((f(r.gamma_flip.unwrap()) - 100.0).abs() < 1e-9);
    assert!(r.flip_readout.state.is_active());
    assert!((f(r.flip_readout.score) - 1.0).abs() < 1e-12);
    assert!((f(r.net_gex) - 4000.0).abs() < 1e-6);
    assert!((f(r.gross_gex) - 8000.0).abs() < 1e-6);
}

#[test]
fn no_crossing_yields_no_flip_and_inactive_readout() {
    let qs = vec![
        quote(105.0, OptionRight::Call, 100, None, Some(greek(0.5, 0.01))),
        quote(110.0, OptionRight::Call, 100, None, Some(greek(0.5, 0.01))),
    ];
    let r = analyze(&chain(100.0, 100.0, qs), &params()).unwrap();
    assert!(r.gamma_flip.is_none());
    assert!(!r.flip_readout.state.is_active());
    assert!((f(r.flip_readout.score) - 0.0).abs() < 1e-12);
}

#[test]
fn a_zero_without_a_change_of_sign_is_no_flip() {
    let at = |rows: &[(f64, OptionRight, u64)]| {
        let qs = rows
            .iter()
            .map(|&(k, right, oi)| quote(k, right, oi, None, Some(greek(0.5, 0.01))))
            .collect();
        analyze(&chain(100.0, 100.0, qs), &params()).unwrap()
    };
    let (call, put) = (OptionRight::Call, OptionRight::Put);
    for rows in [
        [(90.0, call, 0), (105.0, call, 100), (110.0, call, 100)],
        [(90.0, call, 100), (95.0, put, 100), (110.0, call, 100)],
        [(90.0, put, 100), (95.0, call, 100), (110.0, put, 0)],
    ] {
        let r = at(&rows);
        assert_eq!(r.gamma_flip, None);
        assert!(!r.flip_readout.state.is_active());
        assert_eq!(f(r.flip_readout.score), 0.0);
    }
    let r = at(&[(90.0, put, 100), (95.0, call, 100), (110.0, call, 100)]);
    assert_eq!(r.gamma_flip, Some(n(95.0)));
    assert_eq!(f(r.flip_readout.score), 1.0);
    let r = at(&[(90.0, put, 100), (95.0, call, 100), (98.0, call, 0), (110.0, call, 100)]);
    assert_eq!(r.gamma_flip, Some(n(95.0)));
}

#[test]
fn single_dominant_call_is_the_call_wall_with_full_dominance() {
    let qs = vec![quote(110.0, OptionRight::Call, 500, None, Some(greek(0.5, 0.002)))];
    let r = analyze(&chain(100.0, 100.0, qs), &GexParams::default()).unwrap();
    let cw = r.call_wall.unwrap();
    assert!((f(cw.strike) - 110.0).abs() < 1e-12);
    assert!((f(cw.dominance.score) - 1.0).abs() < 1e-12);
    assert!(cw.dominance.state.is_active());
    assert!(r.put_wall.is_none());
}

#[test]
fn puts_only_below_spot_give_a_put_wall_and_no_call_wall() {
    let qs = vec![
        quote(90.0, OptionRight::Put, 100, None, Some(greek(-0.5, 0.01))),
        quote(95.0, OptionRight::Put, 100, None, Some(greek(-0.5, 0.01))),
    ];
    let r = analyze(&chain(100.0, 100.0, qs), &params()).unwrap();
    assert!(r.call_wall.is_none());
    let pw = r.put_wall.unwrap();
    assert!((f(pw.strike) - 95.0).abs() < 1e-12);
    assert!((f(pw.dominance.score) - 0.5).abs() < 1e-12);
    assert!(pw.dominance.state.is_active());
}

#[test]
fn all_put_chain_has_negative_net_gex_all_call_positive() {
    let puts = vec![
        quote(90.0, OptionRight::Put, 100, None, Some(greek(-0.5, 0.01))),
        quote(100.0, OptionRight::Put, 100, None, Some(greek(-0.5, 0.01))),
    ];
    let calls = vec![
        quote(100.0, OptionRight::Call, 100, None, Some(greek(0.5, 0.01))),
        quote(110.0, OptionRight::Call, 100, None, Some(greek(0.5, 0.01))),
    ];
    let rp = analyze(&chain(100.0, 100.0, puts), &params()).unwrap();
    let rc = analyze(&chain(100.0, 100.0, calls), &params()).unwrap();
    assert!(f(rp.net_gex) < 0.0);
    assert!(f(rc.net_gex) > 0.0);
}

#[test]
fn one_sided_chains_net_to_their_gross() {
    for right in [OptionRight::Call, OptionRight::Put] {
        let qs: Vec<OptionQuote> = (0..7)
            .map(|i| {
                let strike = 97.3 + 1.1 * f64::from(i);
                quote(strike, right, 37 * i as u64, Some(0.17 + 0.01 * f64::from(i)), None)
            })
            .collect();
        let r = analyze(&chain(100.7, 100.0, qs), &params()).unwrap();
        let sign = if right == OptionRight::Call { 1.0 } else { -1.0 };
        assert!(f(r.gross_gex) > 0.0);
        assert_eq!(f(r.net_gex), sign * f(r.gross_gex));
    }
}

#[test]
fn coverage_counts_excluded_and_vanna_quotes() {
    let qs = vec![
        quote(95.0, OptionRight::Call, 100, None, Some(greek(0.5, 0.01))),
        quote(100.0, OptionRight::Put, 100, None, Some(greek(-0.5, 0.01))),
        quote(105.0, OptionRight::Call, 100, Some(0.2), None),
        quote(110.0, OptionRight::Call, 100, None, None),
    ];
    let r = analyze(&chain(100.0, 100.0, qs), &params()).unwrap();
    assert_eq!(r.coverage.total, 4);
    assert_eq!(r.coverage.resolved, 3);
    assert_eq!(r.coverage.excluded, 1);
    assert_eq!(r.coverage.vanna_resolved, 1);
    assert_eq!(r.coverage.resolved + r.coverage.excluded, r.coverage.total);
}

#[test]
fn non_finite_strike_is_excluded_not_panicked() {
    let qs = vec![
        quote(f64::NAN, OptionRight::Call, 100, Some(0.2), None),
        quote(100.0, OptionRight::Call, 100, Some(0.2), None),
    ];
    let r = analyze(&chain(100.0, 100.0, qs), &params()).unwrap();
    assert_eq!(r.coverage.excluded, 1);
    assert_eq!(r.coverage.resolved, 1);
}

fn atm_contract(iv: f64) -> BsGreeks {
    bs_greeks(
        &BsInputs {
            spot: n(100.0),
            strike: n(100.0),
            t_years: n(0.5),
            vol: n(iv),
            rate: n(RATE),
            div_yield: n(0.0),
        },
        OptionRight::Call,
    )
    .unwrap()
}

#[test]
fn vex_is_vanna_based_not_vega_based() {
    let iv = 0.25;
    let bs = atm_contract(iv);
    let qs = vec![quote(100.0, OptionRight::Call, 100, Some(iv), None)];
    let r = analyze(&chain(100.0, 100.0, qs), &params()).unwrap();
    let f_vex = 100.0 * 100.0 * k(PCT_MOVE_SCALE);
    let vanna_based = f(bs.vanna) * 100.0 * f_vex;
    let vega_based = f(bs.vega) * 100.0 * f_vex;
    assert!((f(r.net_vex) - vanna_based).abs() < 1e-9);
    assert!((f(r.net_vex) - vega_based).abs() > 1e-6);
}

#[test]
fn provider_and_bs_paths_agree_on_first_order_exposures() {
    let iv = 0.2;
    let bs = atm_contract(iv);
    let given = Greeks { delta: bs.delta, gamma: bs.gamma, theta: n(0.0), vega: n(0.0) };
    let provider = vec![quote(100.0, OptionRight::Call, 100, None, Some(given))];
    let via_provider = analyze(&chain(100.0, 100.0, provider), &params()).unwrap();
    let own = vec![quote(100.0, OptionRight::Call, 100, Some(iv), None)];
    let via_iv = analyze(&chain(100.0, 100.0, own), &params()).unwrap();
    assert!((f(via_provider.net_gex) - f(via_iv.net_gex)).abs() < 1e-9);
    assert!((f(via_provider.net_dex) - f(via_iv.net_dex)).abs() < 1e-9);
    assert!(f(via_provider.net_vex).abs() < 1e-12);
    assert!(f(via_iv.net_vex).abs() > 1e-6);
}

#[test]
fn dsi_is_directionless_and_maps_to_dealer01() {
    let qs = vec![
        quote(100.0, OptionRight::Call, 100, None, Some(greek(0.5, 0.01))),
        quote(105.0, OptionRight::Call, 200, None, Some(greek(0.6, 0.008))),
    ];
    let r = analyze(&chain(100.0, 100.0, qs), &params()).unwrap();
    let e = k(EXPOSURE_TANH_K).tanh();
    assert!((f(r.e_gex) - e).abs() < 1e-12);
    assert!((f(r.e_dex) - e).abs() < 1e-12);
    assert!((f(r.e_vex) - 0.0).abs() < 1e-12);
    let dsi = (k(DSI_W_GEX) + k(DSI_W_DEX)) * e;
    let (got, dealer01) = (f(r.dsi), f(r.dealer01));
    assert!((got - dsi).abs() < 1e-12);
    assert!((dealer01 - (dsi + 1.0) / 2.0).abs() < 1e-12);
    assert!(got >= -1.0 && got <= 1.0);
    assert!(dealer01 >= 0.0 && dealer01 <= 1.0);
}

#[test]
fn expected_move_uses_atm_iv_with_floor() {
    let qs = vec![quote(100.0, OptionRight::Call, 100, Some(0.2), None)];
    let r = analyze(&chain(100.0, 100.0, qs), &gex_params(0.25, RATE)).unwrap();
    assert!((f(r.expected_move_pct.unwrap()) - 0.1).abs() < 1e-12);
    assert!((f(r.expected_move_points.unwrap()) - 10.0).abs() < 1e-12);
}

#[test]
fn expected_move_absent_without_any_iv() {
    let qs = vec![quote(100.0, OptionRight::Call, 100, None, Some(greek(0.5, 0.01)))];
    let r = analyze(&chain(100.0, 100.0, qs), &GexParams::default()).unwrap();
    assert!(r.expected_move_pct.is_none());
    assert!(r.expected_move_points.is_none());
}

#[test]
fn atm_iv_picks_the_strike_nearest_spot() {
    let qs = vec![
        quote(90.0, OptionRight::Put, 100, Some(0.30), None),
        quote(101.0, OptionRight::Call, 100, Some(0.20), None),
        quote(120.0, OptionRight::Call, 100, Some(0.40), None),
    ];
    let r = analyze(&chain(100.0, 100.0, qs), &gex_params(0.25, RATE)).unwrap();
    assert!((f(r.expected_move_pct.unwrap()) - 0.10).abs() < 1e-12);
}

#[test]
fn profile_is_sorted_and_merges_call_put_at_a_strike() {
    let qs = vec![
        quote(100.0, OptionRight::Call, 100, None, Some(greek(0.5, 0.01))),
        quote(100.0, OptionRight::Put, 100, None, Some(greek(-0.5, 0.01))),
        quote(95.0, OptionRight::Put, 50, None, Some(greek(-0.5, 0.02))),
    ];
    let r = analyze(&chain(100.0, 100.0, qs), &params()).unwrap();
    assert_eq!(r.profile.len(), 2);
    assert!(f(r.profile[0].strike) < f(r.profile[1].strike));
    let at100 = r.profile[1];
    assert!((f(at100.call_gex) - 10000.0).abs() < 1e-9);
    assert!((f(at100.put_gex) + 10000.0).abs() < 1e-9);
    assert!((f(at100.gex) - 0.0).abs() < 1e-9);
}

#[test]
fn gross_dominates_absolute_net_for_every_exposure() {
    let qs = vec![
        quote(95.0, OptionRight::Put, 120, Some(0.22), None),
        quote(100.0, OptionRight::Call, 300, Some(0.20), None),
        quote(100.0, OptionRight::Put, 150, Some(0.21), None),
        quote(110.0, OptionRight::Call, 80, Some(0.25), None),
    ];
    let r = analyze(&chain(100.0, 100.0, qs), &params()).unwrap();
    assert!(f(r.gross_gex) >= f(r.net_gex).abs() - 1e-9);
    assert!(f(r.gross_dex) >= f(r.net_dex).abs() - 1e-9);
    assert!(f(r.gross_vex) >= f(r.net_vex).abs() - 1e-9);
    assert!(f(r.gross_charm) >= f(r.net_charm).abs() - 1e-9);
}

fn small_chain() -> OptionChain {
    let qs = vec![
        quote(95.0, OptionRight::Put, 120, Some(0.22), None),
        quote(100.0, OptionRight::Call, 300, Some(0.20), None),
        quote(105.0, OptionRight::Call, 80, Some(0.25), None),
    ];
    chain(100.0, 100.0, qs)
}

#[test]
fn zzz_diag_bits() {
    let c = small_chain();
    let runs: Vec<GexStructure> = (0..3).map(|_| analyze(&c, &params()).unwrap()).collect();
    for (i, r) in runs.iter().enumerate() {
        println!(
            "run{i}: net_gex={:x} gross_gex={:x} e_gex={:x} dex100={:x} net_dex={:x}",
            r.net_gex.bits, r.gross_gex.bits, r.e_gex.bits, r.profile[1].dex.bits, r.net_dex.bits,
        );
        assert_eq!(r.net_gex.bits, runs[0].net_gex.bits);
        assert_eq!(r.profile[1].dex.bits, runs[0].profile[1].dex.bits);
    }
}

#[test]
fn analysis_is_deterministic() {
    let c = small_chain();
    let runs: Vec<GexStructure> = (0..3).map(|_| analyze(&c, &params()).unwrap()).collect();
    assert_eq!(runs[0], runs[1]);
    assert_eq!(runs[1], runs[2]);
}

#[test]
fn malformed_inputs_are_errors_not_panics() {
    let q = || vec![quote(100.0, OptionRight::Call, 100, Some(0.2), None)];
    assert_eq!(
        analyze(&chain(0.0, 100.0, q()), &params()).unwrap_err(),
        GexError::InvalidSpot(n(0.0))
    );
    assert_eq!(
        analyze(&chain(100.0, 0.0, q()), &params()).unwrap_err(),
        GexError::InvalidMultiplier(n(0.0))
    );
    assert_eq!(
        analyze(&chain(100.0, 100.0, q()), &gex_params(-1.0, RATE)).unwrap_err(),
        GexError::InvalidTime(n(-1.0))
    );
    assert_eq!(
        analyze(&chain(100.0, 100.0, q()), &gex_params(0.5, f64::NAN)).unwrap_err(),
        GexError::NonFiniteParams
    );
    assert_eq!(
        analyze(&chain(100.0, 100.0, vec![]), &params()).unwrap_err(),
        GexError::EmptyChain
    );
}

// Gravity and wall zones.

fn strike(strike: f64, net_gex: f64, oi: f64, vol: f64) -> GravityStrikeInput {
    GravityStrikeInput {
        strike: n(strike),
        net_gex: n(net_gex),
        call_oi: n(oi),
        put_oi: n(0.0),
        call_volume: n(vol),
        put_volume: n(0.0),
    }
}

fn proximities(strikes: &[GravityStrikeInput], spot: f64) -> Vec<Num> {
    let config = GravityConfig::default();
    strikes
        .iter()
        .map(|s| exp(slayer::zones::proximity_arg(s.strike, n(spot), &config)))
        .collect()
}

fn strike_gravity(strikes: &Vec<GravityStrikeInput>, spot: f64) -> StrikeGravity {
    let proximity = proximities(strikes, spot);
    slayer::zones::strike_gravity(strikes, n(spot), &GravityConfig::default(), &proximity)
}

fn wall(kind: WallKind, strike: f64, strength: f64, prev: BinaryState) -> (f64, f64, f64, BinaryState) {
    let w = wall_zone(kind, n(100.0), n(strike), n(strength), prev);
    (f(w.margin), f(w.readout.score), f(w.strength_0_100), w.readout.state)
}

#[test]
fn call_wall_above_spot_is_active_and_holding() {
    let (margin, score, _, state) = wall(WallKind::Call, 105.0, 60.0, BinaryState::Inactive);
    assert!((margin - 0.05).abs() < 1e-12);
    assert!((score - 10.0).abs() < 1e-9);
    assert_eq!(state, BinaryState::Active);
}

#[test]
fn call_wall_at_spot_is_active_score_zero() {
    let (margin, score, _, state) = wall(WallKind::Call, 100.0, 50.0, BinaryState::Inactive);
    assert!(margin.abs() < 1e-12);
    assert!(score.abs() < 1e-12);
    assert_eq!(state, BinaryState::Active);
}

#[test]
fn call_wall_below_spot_is_inactive() {
    let (margin, score, _, state) = wall(WallKind::Call, 95.0, 40.0, BinaryState::Inactive);
    assert!((margin - (-0.05)).abs() < 1e-12);
    assert!(score < 0.0);
    assert_eq!(state, BinaryState::Inactive);
}

#[test]
fn testing_band_is_recoverable_as_score_between_zero_and_one() {
    let (_, score, _, state) = wall(WallKind::Call, 100.3, 55.0, BinaryState::Inactive);
    assert!(score >= 0.0 && score < 1.0);
    assert_eq!(state, BinaryState::Active);
}

#[test]
fn put_wall_defended_from_below() {
    let (margin, _, _, state) = wall(WallKind::Put, 95.0, 70.0, BinaryState::Inactive);
    assert!((margin - 0.05).abs() < 1e-12);
    assert_eq!(state, BinaryState::Active);
    let (margin, _, _, state) = wall(WallKind::Put, 105.0, 70.0, BinaryState::Inactive);
    assert!(margin < 0.0);
    assert_eq!(state, BinaryState::Inactive);
}

#[test]
fn wall_hysteresis_holds_active_through_a_graze() {
    let (_, score, _, state) = wall(WallKind::Call, 99.96, 50.0, BinaryState::Active);
    assert!(score < 0.0 && score > -0.1);
    assert_eq!(state, BinaryState::Active);
    let (_, score, _, state) = wall(WallKind::Call, 99.9, 50.0, BinaryState::Active);
    assert!(score <= -0.1);
    assert_eq!(state, BinaryState::Inactive);
}

#[test]
fn strength_is_clamped_and_finite() {
    let (_, _, strength, _) = wall(WallKind::Call, 105.0, 250.0, BinaryState::Inactive);
    assert!((strength - 100.0).abs() < 1e-12);
    let (_, _, strength, _) = wall(WallKind::Call, 105.0, f64::NAN, BinaryState::Inactive);
    assert!(strength.abs() < 1e-12);
}

#[test]
fn gravity_of_a_strike_lies_between_zero_and_one() {
    let chain = vec![
        strike(95.0, -3.0e6, 700.0, 40.0),
        strike(100.0, 9.0e6, 12_000.0, 5_000.0),
        strike(105.0, 1.0e6, 0.0, 310.0),
        strike(130.0, 0.0, 1.0, 0.0),
    ];
    let g = strike_gravity(&chain, 100.0);
    assert_eq!(g.strikes.len(), 4);
    for s in &g.strikes {
        assert!(f(s.gravity_score) >= 0.0 && f(s.gravity_score) <= 1.0 + 2f64.powi(-47));
    }
    // The strike at spot leads on every axis.
    assert_eq!(g.primary_magnet, Some(n(100.0)));
    assert!((f(g.strikes[0].gravity_score) - 1.0).abs() < 1e-12);
}

#[test]
fn ranked_strikes_fall_in_gravity() {
    let chain = vec![
        strike(110.0, 2.0e6, 500.0, 30.0),
        strike(90.0, 2.0e6, 500.0, 30.0),
        strike(95.0, -3.0e6, 700.0, 40.0),
        strike(105.0, 8.0e6, 9_000.0, 310.0),
        strike(101.0, 0.0, 10.0, 0.0),
    ];
    let g = strike_gravity(&chain, 100.0);
    for w in g.strikes.windows(2) {
        assert!(f(w[0].gravity_score) >= f(w[1].gravity_score));
        if w[0].gravity_score == w[1].gravity_score {
            assert!(f(w[0].strike) <= f(w[1].strike));
        }
    }
    assert_eq!(g.primary_magnet, Some(g.strikes[0].strike));
    let above = g.strikes.iter().find(|s| f(s.strike) > 100.0).map(|s| s.strike);
    let below = g.strikes.iter().find(|s| f(s.strike) < 100.0).map(|s| s.strike);
    assert_eq!(g.upper_magnet, above);
    assert_eq!(g.lower_magnet, below);
    assert_eq!(g.upper_magnet, Some(n(105.0)));
    assert_eq!(g.lower_magnet, Some(n(95.0)));
}

#[test]
fn magnet_id_on_synthetic_oi_hump() {
    let chain = vec![
        strike(90.0, 0.0, 100.0, 0.0),
        strike(95.0, 0.0, 100.0, 0.0),
        strike(100.0, 0.0, 100.0, 0.0),
        strike(105.0, 0.0, 10_000.0, 0.0),
        strike(110.0, 0.0, 100.0, 0.0),
    ];
    let g = strike_gravity(&chain, 100.0);
    assert_eq!(g.primary_magnet, Some(n(105.0)));
    assert!((f(g.weights.oi) - 0.5).abs() < 1e-12);
    assert!((f(g.weights.proximity) - 0.5).abs() < 1e-12);
    assert!(f(g.weights.gex).abs() < 1e-12);
    assert!(f(g.weights.volume).abs() < 1e-12);
    assert_eq!(g.upper_magnet, Some(n(105.0)));
    assert_eq!(g.lower_magnet, Some(n(95.0)));
    assert!(f(g.cluster_score) > 0.0 && f(g.cluster_score) <= 1.0);
}

#[test]
fn side_classification_by_sign_of_distance() {
    let chain = vec![
        strike(95.0, 0.0, 100.0, 0.0),
        strike(100.0, 0.0, 100.0, 0.0),
        strike(105.0, 0.0, 100.0, 0.0),
    ];
    let g = strike_gravity(&chain, 100.0);
    let side_of = |at: f64| {
        g.strikes.iter().find(|s| (f(s.strike) - at).abs() < 1e-9).unwrap().side
    };
    assert_eq!(side_of(95.0), GravitySide::Support);
    assert_eq!(side_of(100.0), GravitySide::Atm);
    assert_eq!(side_of(105.0), GravitySide::Resistance);
}

#[test]
fn empty_or_degenerate_input_degrades_to_empty() {
    let g = strike_gravity(&vec![], 100.0);
    assert!(g.strikes.is_empty() && g.primary_magnet.is_none());
    let bad = strike_gravity(&vec![strike(100.0, 1.0, 1.0, 1.0)], 0.0);
    assert!(bad.strikes.is_empty());
}

#[test]
fn zone_structure_resolves_both_walls() {
    let strikes = vec![
        strike(95.0, -1.0e9, 500.0, 200.0),
        strike(100.0, 2.0e9, 800.0, 400.0),
        strike(105.0, 1.5e9, 600.0, 300.0),
    ];
    let proximity = proximities(&strikes, 100.0);
    let side = |strike: f64, strength: f64| WallInput {
        strike: n(strike),
        strength_0_100: n(strength),
        previous_state: BinaryState::Inactive,
    };
    let input = ZoneInput {
        spot: n(100.0),
        strikes,
        config: GravityConfig::default(),
        call_wall: side(105.0, 72.0),
        put_wall: side(95.0, 64.0),
    };
    let zs = zone_structure(&input, &proximity);
    assert_eq!(zs.call_wall.readout.state, BinaryState::Active);
    assert_eq!(zs.put_wall.readout.state, BinaryState::Active);
    assert_eq!(zs.call_wall.kind, WallKind::Call);
    assert_eq!(zs.gravity.primary_magnet, Some(n(100.0)));
}

// Flow dynamics.

#[test]
fn vanna_rising_supportive_and_engaged() {
    let v = vanna_flow(n(1_000.0), Some(n(900.0)), BinaryState::Inactive);
    assert!((f(v.velocity) - 100.0).abs() < 1e-9);
    assert!((f(v.trend_score) - 5.0).abs() < 1e-9);
    assert_eq!(v.trend, TrendDirection::Rising);
    assert_eq!(v.direction, FlowDirection::Supportive);
    assert_eq!(v.engaged.state, BinaryState::Active);
}

#[test]
fn vanna_negative_is_pressuring() {
    let v = vanna_flow(n(-1_000.0), Some(n(-1_010.0)), BinaryState::Inactive);
    assert_eq!(v.direction, FlowDirection::Pressuring);
    assert_eq!(v.trend, TrendDirection::Flat);
    assert_eq!(v.engaged.state, BinaryState::Active);
}

#[test]
fn vanna_zero_is_neutral_and_disengaged() {
    let v = vanna_flow(n(0.0), None, BinaryState::Inactive);
    assert_eq!(v.direction, FlowDirection::Neutral);
    assert_eq!(v.trend, TrendDirection::Flat);
    assert_eq!(v.engaged.state, BinaryState::Inactive);
}

#[test]
fn charm_intensity_and_bias() {
    let c = charm_bias(n(50.0), n(100.0), BinaryState::Inactive);
    assert!((f(c.intensity) - 0.5).abs() < 1e-9);
    assert_eq!(c.bias, BiasDirection::Bullish);
    assert_eq!(c.engaged.state, BinaryState::Active);
    let bear = charm_bias(n(-50.0), n(100.0), BinaryState::Inactive);
    assert_eq!(bear.bias, BiasDirection::Bearish);
    let cold = charm_bias(n(50.0), n(0.0), BinaryState::Inactive);
    assert!(f(cold.intensity).abs() < 1e-12);
    assert_eq!(cold.engaged.state, BinaryState::Active);
}

#[test]
fn migration_score_sign_and_stable_band() {
    let up = oi_migration(n(101.0), Some(n(100.0)), n(100.0), BinaryState::Inactive);
    assert!((f(up.score) - 1.0).abs() < 1e-9);
    assert_eq!(up.direction, MigrationDirection::Bullish);
    assert_eq!(up.migrating.state, BinaryState::Active);
    let flat = oi_migration(n(100.02), Some(n(100.0)), n(100.0), BinaryState::Inactive);
    assert!(f(flat.score).abs() < k(MIGRATION_STABLE_BAND));
    assert_eq!(flat.direction, MigrationDirection::Stable);
    assert_eq!(flat.migrating.state, BinaryState::Inactive);
    let down = oi_migration(n(99.0), Some(n(100.0)), n(100.0), BinaryState::Inactive);
    assert_eq!(down.direction, MigrationDirection::Bearish);
}

#[test]
fn migration_first_tick_is_stable() {
    let m = oi_migration(n(105.0), None, n(100.0), BinaryState::Inactive);
    assert!(f(m.shift).abs() < 1e-12);
    assert_eq!(m.direction, MigrationDirection::Stable);
}

#[test]
fn gamma_velocity_sign_and_acceleration() {
    let g = gamma_dynamics(n(1.0e10), Some(n(9.0e9)), Some(n(8.0e9)), BinaryState::Inactive);
    assert!((f(g.velocity) - 1.0e9).abs() < 1.0);
    assert!(f(g.acceleration).abs() < 1.0);
    assert_eq!(g.direction, GammaHedgeDirection::AddingHedges);
    assert_eq!(g.hedging_active.state, BinaryState::Active);
}

#[test]
fn gamma_d1_fix_responds_on_a_small_book() {
    let g = gamma_dynamics(n(1.0e5), Some(n(9.0e4)), None, BinaryState::Inactive);
    assert!(f(g.velocity_score).abs() > 1.0);
    assert_eq!(g.direction, GammaHedgeDirection::AddingHedges);
    assert_eq!(g.hedging_active.state, BinaryState::Active);
}

#[test]
fn gamma_hysteresis_holds_through_the_band() {
    let held = gamma_dynamics(n(1_000.0), Some(n(973.0)), None, BinaryState::Active);
    assert!((f(held.velocity_score).abs() - 0.9).abs() < 1e-9);
    assert_eq!(held.direction, GammaHedgeDirection::Stable);
    assert_eq!(held.hedging_active.state, BinaryState::Active);
    let cold = gamma_dynamics(n(1_000.0), Some(n(973.0)), None, BinaryState::Inactive);
    assert_eq!(cold.hedging_active.state, BinaryState::Inactive);
}

#[test]
fn oi_flow_building_and_unwinding() {
    let build = oi_flow(n(10_000.0), Some(n(9_000.0)), n(1.0), BinaryState::Inactive);
    assert!((f(build.velocity) - 1_000.0).abs() < 1e-9);
    assert_eq!(build.direction, OiFlowDirection::Building);
    assert_eq!(build.flowing.state, BinaryState::Active);
    let unwind = oi_flow(n(9_000.0), Some(n(10_000.0)), n(1.0), BinaryState::Inactive);
    assert_eq!(unwind.direction, OiFlowDirection::Unwinding);
    let stable = oi_flow(n(10_010.0), Some(n(10_000.0)), n(1.0), BinaryState::Inactive);
    assert_eq!(stable.direction, OiFlowDirection::Stable);
    assert_eq!(stable.flowing.state, BinaryState::Inactive);
}

#[test]
fn oi_flow_first_tick_is_stable() {
    let flow = oi_flow(n(10_000.0), None, n(0.0), BinaryState::Inactive);
    assert!(f(flow.velocity).abs() < 1e-12);
    assert_eq!(flow.direction, OiFlowDirection::Stable);
}

#[test]
fn dealer_dynamics_resolves_every_flow() {
    let input = DealerDynamicsInput {
        spot: n(100.0),
        net_gex: n(1.0e10),
        net_vanna: n(5.0e8),
        net_charm: n(-2.0e7),
        gex_com: n(101.0),
        total_oi: n(10_000.0),
        prev_net_gex: Some(n(9.0e9)),
        prev2_net_gex: Some(n(8.0e9)),
        prev_net_vanna: Some(n(4.0e8)),
        prev_gex_com: Some(n(100.0)),
        prev_total_oi: Some(n(9_000.0)),
        prior_max_abs_charm: n(5.0e7),
        dt_min: n(1.0),
        prev_states: DealerPrevStates::default(),
    };
    let d = dealer_dynamics(&input);
    assert_eq!(d.gamma.direction, GammaHedgeDirection::AddingHedges);
    assert_eq!(d.migration.direction, MigrationDirection::Bullish);
    assert_eq!(d.charm.bias, BiasDirection::Bearish);
    assert_eq!(d.oi_flow.direction, OiFlowDirection::Building);
}

// Dealer reads.

fn level(strike: f64, net_gex: f64) -> StrikeGex {
    StrikeGex { strike: n(strike), net_gex: n(net_gex) }
}

fn profile(net_gex: f64) -> ProfileInputs {
    ProfileInputs {
        spot: n(100.0),
        net_gex: n(net_gex),
        gamma_flip: Some(n(99.0)),
        magnet: Some(n(100.5)),
        call_wall: Some(n(102.0)),
        put_wall: Some(n(97.0)),
        expected_move_pct: Some(n(0.012)),
        total_call_oi: n(60_000.0),
        total_put_oi: n(40_000.0),
        strikes: vec![
            level(97.0, -2.0e8),
            level(99.0, 1.0e8),
            level(100.5, 9.0e8),
            level(102.0, 5.0e8),
        ],
    }
}

fn compute_zero_dte(
    spot: f64,
    atm_iv: f64,
    hours: f64,
    net_gex: f64,
    magnet: f64,
    strikes: &Vec<StrikeGex>,
) -> ZeroDte {
    let (spot, iv, hours) = (n(spot), n(atm_iv), n(hours));
    let (net, magnet) = (n(net_gex), n(magnet));
    let (pin, settle) =
        slayer::dealer_read::zero_dte_args(spot, iv, hours, net, magnet, strikes);
    let pin_exp = pin.map_or(n(0.0), exp);
    slayer::dealer_read::compute_zero_dte(
        spot, iv, hours, net, magnet, strikes, pin_exp, exp(settle),
    )
}

fn compute_terminal_read(p: &ProfileInputs, closes: &[f64], prev: BinaryState) -> TerminalRead {
    let prox = slayer::dealer_read::terminal_pin_arg(p).map_or(n(0.0), exp);
    slayer::dealer_read::compute_terminal_read(p, &ns(closes), prev, prox)
}

fn compute_gex_outlook(p: &ProfileInputs, closes: &[f64]) -> GexOutlook {
    let prox = slayer::dealer_read::outlook_pin_arg(p).map_or(n(0.0), exp);
    slayer::dealer_read::compute_gex_outlook(p, &ns(closes), prox)
}

#[test]
fn zero_dte_pin_behavior() {
    let p = profile(1.0e9);
    let z = compute_zero_dte(100.0, 0.2, 3.0, 1.0e9, 100.5, &p.strikes);
    assert!((0.0..=1.0).contains(&f(z.pin.probability)));
    assert!((0.0..=1.0).contains(&f(z.pin.gamma_share)));
    assert!((0.0..=1.0).contains(&f(z.settlement_risk)));
    assert!(f(z.bands[0].hours) <= 1.0);
    assert!(f(z.bands[1].move_pts) >= f(z.bands[0].move_pts));
    let z_short = compute_zero_dte(100.0, 0.2, 3.0, -1.0e9, 100.5, &p.strikes);
    assert!(f(z.pin.probability) > f(z_short.pin.probability));
    assert!(f(z_short.settlement_risk) > f(z.settlement_risk));
    let at_early = compute_zero_dte(100.5, 0.2, 3.0, 1.0e9, 100.5, &p.strikes);
    let at_late = compute_zero_dte(100.5, 0.2, 0.5, 1.0e9, 100.5, &p.strikes);
    assert!(f(at_late.pin.probability) > f(at_early.pin.probability));
}

#[test]
fn eod_magnet_is_positive_gamma_com() {
    let strikes = vec![level(100.0, 1.0e8), level(110.0, 3.0e8), level(90.0, -5.0e8)];
    let com = f(slayer::dealer_read::eod_magnet_target(&strikes, n(105.0)));
    assert!((com - 107.5).abs() < 1e-9);
    assert_eq!(f(slayer::dealer_read::eod_magnet_target(&vec![], n(105.0))), 105.0);
}

#[test]
fn terminal_read_long_confluence() {
    let p = profile(2.0e9);
    let r = compute_terminal_read(&p, &[99.0, 99.5, 99.8, 100.0], BinaryState::Inactive);
    assert_eq!(r.bias, Bias::Long);
    assert_eq!(r.regime, DealerRegime::Pin);
    assert!(f(r.score) > k(BIAS_SCORE_THRESH));
    assert_eq!(r.engaged.state, BinaryState::Active);
    assert!(f(r.confidence) > 50.0);
    assert_eq!(r.bracket.target, Some(n(100.5)));
    assert_eq!(r.bracket.stop, Some(n(97.0)));
    assert!(!r.bracket.no_trade);
}

#[test]
fn terminal_read_neutral_is_inactive() {
    let p = ProfileInputs {
        gamma_flip: Some(n(101.0)),
        magnet: Some(n(100.5)),
        call_wall: Some(n(102.0)),
        put_wall: Some(n(97.0)),
        total_call_oi: n(50_000.0),
        total_put_oi: n(50_000.0),
        ..profile(1.0e9)
    };
    let r = compute_terminal_read(&p, &[], BinaryState::Inactive);
    assert_eq!(r.bias, Bias::Neutral);
    assert_eq!(r.engaged.state, BinaryState::Inactive);
    assert!(f(r.confidence) <= k(NEUTRAL_CONF_CAP));
}

#[test]
fn incoherent_bracket_reads_no_trade() {
    let p = ProfileInputs {
        spot: n(103.0),
        gamma_flip: Some(n(99.0)),
        magnet: Some(n(102.9)),
        call_wall: Some(n(102.0)),
        put_wall: Some(n(104.0)),
        total_call_oi: n(80_000.0),
        total_put_oi: n(20_000.0),
        ..profile(2.0e9)
    };
    let r = compute_terminal_read(&p, &[100.0, 101.0, 102.0, 103.5], BinaryState::Inactive);
    if r.bias != Bias::Neutral {
        assert!(r.bracket.no_trade);
        assert!(r.bracket.target.is_none() && r.bracket.stop.is_none());
    }
}

#[test]
fn outlook_priority_and_fallbacks() {
    let p = ProfileInputs {
        magnet: Some(n(100.05)),
        strikes: vec![level(100.05, 9.5e9), level(105.0, 1.0e8)],
        ..profile(5.0e9)
    };
    let o = compute_gex_outlook(&p, &[]);
    assert_eq!(o.regime, OutlookRegime::Pinning);
    assert_eq!(o.bias, OutlookBias::Sideways);
    assert!(f(o.confidence) >= 45.0);

    let p2 = ProfileInputs {
        total_call_oi: n(20_000.0),
        total_put_oi: n(80_000.0),
        ..profile(-3.0e9)
    };
    let o2 = compute_gex_outlook(&p2, &[100.0, 98.0, 98.5, 99.2]);
    assert_eq!(o2.regime, OutlookRegime::ShortSqueeze);
    assert_eq!(o2.bias, OutlookBias::Up);
    assert_eq!(o2.target, Some(n(99.0)));

    let p3 = ProfileInputs { gamma_flip: Some(n(105.0)), ..profile(-3.0e9) };
    let o3 = compute_gex_outlook(&p3, &[102.0, 101.0, 100.5, 100.0]);
    assert_eq!(o3.regime, OutlookRegime::TrendDown);
    assert_eq!(o3.bias, OutlookBias::Down);

    let empty = ProfileInputs { net_gex: n(0.0), strikes: vec![], ..profile(0.0) };
    let o4 = compute_gex_outlook(&empty, &[]);
    assert_eq!(o4.regime, OutlookRegime::Neutral);
    assert_eq!(o4.confidence, Num::of(OUTLOOK_CONF_NODATA));
}

#[test]
fn read_scores_are_bounded() {
    for net in [-4.0e9, -1.0, 0.0, 1.0, 2.0e9] {
        for closes in [vec![], vec![99.0, 99.5, 99.8, 100.0], vec![103.0, 101.0, 100.0, 98.0]] {
            let odd = ProfileInputs { magnet: None, gamma_flip: None, ..profile(net) };
            for p in [profile(net), odd] {
                let r = compute_terminal_read(&p, &closes, BinaryState::Inactive);
                assert!((-100.0..=100.0).contains(&f(r.score)));
                assert!((0.0..=100.0).contains(&f(r.confidence)));
                assert!((0.0..=100.0).contains(&f(r.pin_strength)));
                assert!((0.0..=100.0).contains(&f(r.position_strength)));
            }
        }
    }
}

#[test]
fn reads_name_their_signals() {
    let r = compute_terminal_read(&profile(1.0e9), &[99.0, 99.5, 99.8, 100.0], BinaryState::Inactive);
    assert!(!r.signals.is_empty());
    assert!(r.signals.iter().all(|s| !s.name.is_empty() && s.dir.abs() <= 1));
}

#[test]
fn expiry_chance_at_the_standard_rate() {
    let (spot, strike, t, iv) = (n(100.0), n(90.0), n(0.0), n(0.2));
    assert_eq!(
        slayer::dealer_read::prob_expire_itm(spot, strike, t, iv, true, n(0.0), n(0.0)),
        n(1.0)
    );
    let t = n(0.25);
    let x = ln(slayer::first_passage::expire_ratio(spot, strike, t, iv).unwrap());
    let d = slayer::first_passage::expire_point(x, t, iv, true, n(0.05), n(0.0));
    let e = exp(slayer::dist::gauss_arg(d));
    assert_eq!(
        slayer::dealer_read::prob_expire_itm(spot, strike, t, iv, true, x, e),
        slayer::first_passage::prob_expire_itm(spot, strike, t, iv, true, n(0.05), n(0.0), x, e)
    );
}

// Regimes.

/// A small deterministic generator.
struct Rng(u64);

impl Rng {
    fn next_u64(&mut self) -> u64 {
        self.0 = self.0.wrapping_add(0x9E37_79B9_7F4A_7C15);
        let mut z = self.0;
        z = (z ^ (z >> 30)).wrapping_mul(0xBF58_476D_1CE4_E5B9);
        z = (z ^ (z >> 27)).wrapping_mul(0x94D0_49BB_1331_11EB);
        z ^ (z >> 31)
    }

    fn uniform(&mut self) -> f64 {
        (self.next_u64() >> 11) as f64 / (1u64 << 53) as f64
    }

    fn normal(&mut self) -> f64 {
        let u1 = self.uniform().max(1e-12);
        let u2 = self.uniform();
        (-2.0 * u1.ln()).sqrt() * (std::f64::consts::TAU * u2).cos()
    }
}

fn persistent_closes(count: usize, seed: u64) -> Vec<f64> {
    let mut rng = Rng(seed);
    let mut r = 0.0_f64;
    let mut price = 100.0_f64;
    let mut out = Vec::with_capacity(count);
    out.push(price);
    for _ in 1..count {
        r = 0.85 * r + 0.15 * rng.normal() * 0.01;
        price *= r.exp();
        out.push(price);
    }
    out
}

fn ou_closes(count: usize, seed: u64) -> Vec<f64> {
    let mut rng = Rng(seed);
    let kappa = 0.3_f64;
    let mu = 100.0_f64.ln();
    let sigma = 0.02_f64;
    let mut x = mu;
    let mut out = Vec::with_capacity(count);
    for _ in 0..count {
        x += kappa * (mu - x) + sigma * rng.normal();
        out.push(x.exp());
    }
    out
}

fn random_walk_closes(count: usize, seed: u64) -> Vec<f64> {
    let mut rng = Rng(seed);
    let mut price = 100.0_f64;
    let mut out = Vec::with_capacity(count);
    out.push(price);
    for _ in 1..count {
        price *= (0.01 * rng.normal()).exp();
        out.push(price);
    }
    out
}

fn candles_from_closes(closes: &[f64]) -> Vec<Candle> {
    let mut out = Vec::with_capacity(closes.len());
    let mut prev = closes[0];
    for (i, &c) in closes.iter().enumerate() {
        let open = if i == 0 { c } else { prev };
        out.push(Candle {
            ts: TsMillis(i as u64 * 60_000),
            open: n(open),
            high: n(open.max(c) * 1.001),
            low: n(open.min(c) * 0.999),
            close: n(c),
            volume: n(1_000.0),
        });
        prev = c;
    }
    out
}

fn hurst_exponent(closes: &[f64]) -> f64 {
    let log_rets = log_returns(&ns(closes));
    let logs = hurst_logs(&log_rets);
    f(slayer::regime::hurst_exponent(&log_rets, &logs))
}

fn ou_half_life(closes: &[f64]) -> Option<f64> {
    let series = ns(closes);
    slayer::regime::ou_half_life(&series, ln_phi(&series)).map(f)
}

fn classify_regime(candles: &Vec<Candle>) -> RegimeClassification {
    let t = regime_terms(candles);
    slayer::regime::classify_regime(&t.log_rets, t.exps)
}

fn analyze_regime(candles: &Vec<Candle>) -> RegimeState {
    slayer::regime::analyze_regime(candles, &regime_terms(candles))
}

#[test]
fn trending_series_is_persistent_and_trend() {
    let closes = persistent_closes(600, 7);
    let h = hurst_exponent(&closes);
    assert!(h > 0.5, "expected persistent H > 0.5, got {h}");

    let candles = candles_from_closes(&closes);
    let cls = classify_regime(&candles);
    assert_eq!(cls.label, RegimeLabel::TrendExpansion, "posteriors {:?}", cls.probabilities);

    let state = analyze_regime(&candles);
    assert_eq!(state.persistence.state, BinaryState::Active);
}

#[test]
fn ou_series_is_mean_reverting() {
    let closes = ou_closes(600, 11);
    let h = hurst_exponent(&closes);
    assert!(h < 0.5, "expected mean-reverting H < 0.5, got {h}");

    let hl = ou_half_life(&closes).expect("an OU series must have a finite half-life");
    assert!(hl.is_finite() && hl > 0.0, "half-life {hl}");

    let candles = candles_from_closes(&closes);
    let cls = classify_regime(&candles);
    assert_eq!(cls.label, RegimeLabel::MeanReversion, "posteriors {:?}", cls.probabilities);
}

#[test]
fn random_walk_has_no_half_life() {
    let closes = random_walk_closes(600, 3);
    assert!(ou_half_life(&closes).is_none());
    let h = hurst_exponent(&closes);
    assert!((h - 0.5).abs() < 0.15, "random walk H should be near 0.5, got {h}");
}

#[test]
fn probabilities_sum_to_one() {
    let cls = classify_regime(&candles_from_closes(&persistent_closes(400, 1)));
    let p = cls.probabilities;
    let sum = f(p.trend_expansion) + f(p.mean_reversion) + f(p.tail_risk);
    assert!((sum - 1.0).abs() < 1e-9);

    let flat = classify_regime(&candles_from_closes(&persistent_closes(6, 2)));
    let q = flat.probabilities;
    let sum = f(q.trend_expansion) + f(q.mean_reversion) + f(q.tail_risk);
    assert!((sum - 1.0).abs() < 1e-9);
    assert_eq!(flat.label, RegimeLabel::MeanReversion);
    assert_eq!(flat.confident.state, BinaryState::Inactive);
}

#[test]
fn analyze_regime_is_deterministic() {
    let candles = candles_from_closes(&persistent_closes(500, 42));
    let a = analyze_regime(&candles);
    let b = analyze_regime(&candles);
    assert_eq!(a, b);
}

#[test]
fn insufficient_data_yields_inactive_defaults() {
    let state = analyze_regime(&candles_from_closes(&[100.0, 101.0, 100.5, 101.2]));
    assert!((f(state.hurst) - 0.5).abs() < 1e-12);
    assert_eq!(state.persistence.state, BinaryState::Inactive);
    assert!(state.half_life_bars.is_none());
    assert_eq!(state.classification.label, RegimeLabel::MeanReversion);
    assert_eq!(state.compression.state, BinaryState::Inactive);
    assert_eq!(state.expansion.state, BinaryState::Inactive);
}

#[test]
fn compression_activates_when_bandwidth_collapses() {
    let mut closes = Vec::new();
    let mut rng = Rng(9);
    let mut price = 100.0;
    for _ in 0..120 {
        price *= (0.03 * rng.normal()).exp();
        closes.push(price);
    }
    for _ in 0..40 {
        closes.push(price);
    }
    let state = analyze_regime(&candles_from_closes(&closes));
    assert_eq!(state.compression.state, BinaryState::Active);
    assert_eq!(state.expansion.state, BinaryState::Inactive);
    assert!(f(state.compression.score) > f(state.expansion.score));
}

#[test]
fn expansion_activates_when_bandwidth_blows_out() {
    let mut closes = Vec::new();
    let mut rng = Rng(15);
    let mut price = 100.0;
    for _ in 0..120 {
        price *= (0.002 * rng.normal()).exp();
        closes.push(price);
    }
    for _ in 0..40 {
        price *= (0.06 * rng.normal()).exp();
        closes.push(price);
    }
    let state = analyze_regime(&candles_from_closes(&closes));
    assert_eq!(state.expansion.state, BinaryState::Active);
    assert_eq!(state.compression.state, BinaryState::Inactive);
}

#[test]
fn hurst_short_series_falls_back() {
    assert!((hurst_exponent(&[100.0, 101.0, 99.0]) - 0.5).abs() < 1e-12);
}

#[test]
fn a_series_without_numbers_scores_the_least_total() {
    let mut candles = rising(40);
    candles[39] = ohlcv(f64::NAN, f64::NAN, f64::NAN, f64::NAN, 1000.0);
    let t = thesis(&candles, 1.0);
    assert_eq!((t.long_score, t.short_score), (1, 1));
}

#[test]
fn cold_flows_are_in_force_where_they_have_a_direction() {
    for com in [100.0, 100.049, 100.05, 100.051, 99.95, 99.0] {
        let m = oi_migration(n(com), Some(n(100.0)), n(100.0), BinaryState::Inactive);
        assert_eq!(m.migrating.state.is_active(), m.direction != MigrationDirection::Stable);
    }
    for net in [0.0, 1e-9, 0.9e-9, -1e-9, 5.0] {
        let v = vanna_flow(n(net), None, BinaryState::Inactive);
        assert_eq!(v.engaged.state.is_active(), v.direction != FlowDirection::Neutral);
    }
    for oi in [1000.0, 1004.9, 1005.1, 995.0, 990.0] {
        let o = oi_flow(n(oi), Some(n(1000.0)), n(1.0), BinaryState::Inactive);
        assert_eq!(o.flowing.state.is_active(), o.direction != OiFlowDirection::Stable);
    }
}
