//! Calibration, decisions and risk, against known values.

use slayer::black_scholes::{BsInputs, BsTerms, QuantError};
use slayer::calibration::{
    calibrate_isotonic, calibration_report, CALIBRATION_BINS, CALIBRATION_MIN_SAMPLES,
    DEFAULT_BRIER, DEFAULT_ECE,
};
use slayer::decision::{
    decision_gate, opportunity_quality, touch_drift, DecisionAction, GateInputs, QualityInputs,
};
use slayer::first_passage::TouchTerms;
use slayer::market::OptionRight;
use slayer::num::Num;
use slayer::risk::{
    grade_for, LiquidityScore, ModelTrust, RiskError, TailRisk, TrustComponents, TrustGrade,
    DEFAULT_FORECAST_MAE, DEFAULT_WORST_LOSS, ES_MAX_DEFAULT, FORECAST_ERROR_SCALE_DEFAULT,
    PRED_VAR_MAX_DEFAULT, SPREAD_FALLBACK, SPREAD_MAX_PCT, STABILITY_MAX_DEFAULT,
    TRUST_W_CALIBRATION, TRUST_W_FORECAST, TRUST_W_RECENT, TRUST_W_SAMPLE, TRUST_W_STABILITY,
};
use slayer::state::BinaryState;

fn n(x: f64) -> Num {
    Num::of(x.to_bits())
}

fn f(x: Num) -> f64 {
    f64::from_bits(x.bits)
}

fn ns(v: &[f64]) -> Vec<Num> {
    v.iter().map(|&x| n(x)).collect()
}

fn exp(x: Num) -> Num {
    n(f(x).exp())
}

fn ln(x: Num) -> Num {
    n(f(x).ln())
}

fn gauss(x: Num) -> Num {
    exp(slayer::dist::gauss_arg(x))
}

fn norm_cdf(x: f64) -> f64 {
    f(slayer::dist::norm_cdf(n(x), gauss(n(x))))
}

fn bs_terms(i: &BsInputs) -> BsTerms {
    let ln_moneyness = ln(i.moneyness());
    let (d1, d2) = i.d1_d2(ln_moneyness);
    BsTerms {
        ln_moneyness,
        exp_d1: gauss(d1),
        exp_d2: gauss(d2),
        disc_rate: exp(i.rate_exponent()),
        disc_yield: exp(i.yield_exponent()),
        growth: exp(i.carry_exponent()),
    }
}

fn bs_price(i: &BsInputs, right: OptionRight) -> Result<Num, QuantError> {
    slayer::black_scholes::price(i, right, &bs_terms(i))
}

fn touch_terms(spot: Num, barrier: Num, sigma: Num, tau: Num, nu: Num) -> TouchTerms {
    let x = match slayer::first_passage::touch_ratio(spot, barrier, sigma, tau) {
        Some(r) => ln(r),
        None => n(0.0),
    };
    let p = slayer::first_passage::touch_points(x, sigma, tau, nu);
    TouchTerms {
        ln_ratio: x,
        reflection: exp(p.exponent),
        exp_near: gauss(p.near),
        exp_far: gauss(p.far),
    }
}

/// The value of a constant.
fn k(bits: u64) -> f64 {
    f64::from_bits(bits)
}

// Calibration.

fn labeled(history: &[(f64, f64)]) -> Vec<(Num, Num)> {
    history.iter().map(|&(p, y)| (n(p), n(y))).collect()
}

fn calibrate(p: f64, history: &[(f64, f64)]) -> f64 {
    f(calibrate_isotonic(n(p), &labeled(history)))
}

fn ece(history: &[(f64, f64)]) -> f64 {
    f(slayer::calibration::ece(&labeled(history)))
}

fn brier_score(history: &[(f64, f64)]) -> f64 {
    f(slayer::calibration::brier_score(&labeled(history)))
}

fn wilson_interval(p: f64, count: u64) -> (f64, f64) {
    let w = slayer::calibration::wilson_interval(n(p), count);
    (f(w.lo), f(w.hi))
}

fn perfect_history() -> Vec<(f64, f64)> {
    let per_bin = 100u32;
    let mut h = Vec::new();
    for i in 0..CALIBRATION_BINS {
        let center = (i as f64 + 0.5) / CALIBRATION_BINS as f64;
        let wins = (center * f64::from(per_bin)).round() as u32;
        for j in 0..per_bin {
            h.push((center, if j < wins { 1.0 } else { 0.0 }));
        }
    }
    h
}

fn noisy_history() -> Vec<(f64, f64)> {
    let rates = [0.02, 0.30, 0.10, 0.40, 0.35, 0.55, 0.50, 0.70, 0.85, 0.92];
    let per_bin = 50u32;
    let mut h = Vec::new();
    for (i, &rate) in rates.iter().enumerate() {
        let center = (i as f64 + 0.5) / CALIBRATION_BINS as f64;
        let wins = (rate * f64::from(per_bin)).round() as u32;
        for j in 0..per_bin {
            h.push((center, if j < wins { 1.0 } else { 0.0 }));
        }
    }
    h
}

#[test]
fn wilson_zero_n_is_degenerate() {
    let (lo, hi) = wilson_interval(0.5, 0);
    assert!(lo.abs() < 1e-15 && hi.abs() < 1e-15);
}

#[test]
fn wilson_brackets_the_observed_proportion() {
    for &(p, count) in &[(0.6_f64, 50u64), (0.2, 10), (0.9, 200), (0.5, 5), (0.05, 40)] {
        let (lo, hi) = wilson_interval(p, count);
        assert!(
            lo <= p + 1e-12 && p <= hi + 1e-12,
            "p={p} n={count} interval=[{lo},{hi}]"
        );
        assert!(lo >= 0.0 && hi <= 1.0 && lo <= hi);
    }
}

#[test]
fn wilson_widens_as_n_shrinks() {
    let wide = wilson_interval(0.5, 10);
    let narrow = wilson_interval(0.5, 1000);
    assert!((wide.1 - wide.0) > (narrow.1 - narrow.0));
}

#[test]
fn wilson_is_symmetric_about_a_half() {
    let (lo, hi) = wilson_interval(0.5, 100);
    assert!((lo + hi - 1.0).abs() < 1e-12);
}

#[test]
fn wilson_clamps_out_of_range_p() {
    let (lo, hi) = wilson_interval(1.5, 100);
    assert!(lo >= 0.0 && hi <= 1.0 && lo <= hi);
}

#[test]
fn cold_start_returns_p_hat_unchanged() {
    let h = vec![(0.6, 1.0); CALIBRATION_MIN_SAMPLES - 1];
    assert!((calibrate(0.42, &h) - 0.42).abs() < 1e-15);
}

#[test]
fn perfect_calibration_is_the_identity_map() {
    let h = perfect_history();
    for &p in &[0.1_f64, 0.25, 0.5, 0.73, 0.9] {
        let c = calibrate(p, &h);
        assert!((c - p).abs() < 1e-9, "p={p} calibrated={c}");
    }
}

#[test]
fn perfect_calibration_has_zero_ece() {
    assert!(ece(&perfect_history()).abs() < 1e-9);
}

#[test]
fn pav_output_is_monotone_non_decreasing_in_p_hat() {
    let h = noisy_history();
    let mut prev = f64::NEG_INFINITY;
    let mut p = 0.0_f64;
    while p <= 1.0 {
        let c = calibrate(p, &h);
        assert!(c >= prev - 1e-12, "not monotone at p={p}: {c} < {prev}");
        prev = c;
        p += 0.01;
    }
}

#[test]
fn ece_flags_a_confidently_wrong_model() {
    assert!((ece(&vec![(0.9, 0.0); 300]) - 0.9).abs() < 1e-9);
}

#[test]
fn ece_empty_history_returns_the_declared_prior() {
    assert!((ece(&[]) - k(DEFAULT_ECE)).abs() < 1e-15);
}

#[test]
fn brier_empty_history_returns_the_declared_prior() {
    assert!((brier_score(&[]) - k(DEFAULT_BRIER)).abs() < 1e-15);
}

#[test]
fn brier_is_zero_for_deterministic_correct_calls() {
    assert!(brier_score(&[(0.0, 0.0), (1.0, 1.0)]).abs() < 1e-15);
}

#[test]
fn brier_squares_the_residual() {
    assert!((brier_score(&[(0.3, 1.0)]) - 0.49).abs() < 1e-12);
}

#[test]
fn non_finite_history_entries_are_dropped_not_propagated() {
    let mut h = perfect_history();
    h.push((f64::NAN, 1.0));
    h.push((0.5, f64::INFINITY));
    assert!(calibrate(0.5, &h).is_finite());
    assert!(ece(&h).is_finite());
    assert!(brier_score(&h).is_finite());
}

#[test]
fn report_bundles_diagnostics_and_calibrated_probability() {
    let r = calibration_report(n(0.4), &labeled(&perfect_history()));
    assert!(f(r.ece).abs() < 1e-9);
    assert!((f(r.calibrated_p) - 0.4).abs() < 1e-9);
    assert!(f(r.brier) > 0.0);
}

#[test]
fn probabilities_that_cannot_be_calibrated_are_unchanged() {
    assert!(calibrate(f64::NAN, &[]).is_nan());
    assert_eq!(calibrate(1.5, &[]), 1.5);
    let h = perfect_history();
    assert!(calibrate(f64::NAN, &h).is_nan());
    assert_eq!(calibrate(f64::INFINITY, &h), f64::INFINITY);
    let blank = vec![(f64::NAN, 1.0); h.len()];
    assert_eq!(calibrate(0.3, &blank), 0.3);
}

#[test]
fn non_finite_proportions_count_as_zero() {
    let zero = wilson_interval(0.0, 10);
    assert_eq!(wilson_interval(f64::NAN, 10), zero);
    assert_eq!(wilson_interval(f64::INFINITY, 10), zero);
}

// Decisions.

fn passing_gate() -> GateInputs {
    GateInputs {
        position_open: false,
        ev: n(0.12),
        p_cal: n(0.70),
        reward_risk: n(2.0),
        tail_risk: n(0.3),
        liquidity: n(75.0),
        n_samples: 100,
        trust: n(0.6),
        dealer01: n(0.7),
        thesis_stability: n(80.0),
    }
}

fn liq(total: f64) -> LiquidityScore {
    LiquidityScore {
        total: n(total),
        spread: n(0.8),
        volume: n(0.7),
        oi: n(0.7),
        stability: n(0.9),
    }
}

fn trust(score: f64) -> ModelTrust {
    ModelTrust {
        score: n(score),
        grade: TrustGrade::B,
        components: TrustComponents {
            calibration: n(0.8),
            forecast_accuracy: n(0.7),
            prediction_stability: n(0.8),
            sample_strength: n(0.6),
            recent_performance: n(0.6),
        },
    }
}

fn tail(score: f64) -> TailRisk {
    TailRisk {
        var95: n(0.1),
        var99: n(0.2),
        es95: n(score),
        es99: n(0.3),
        worst: n(0.4),
        score: n(score),
    }
}

fn quality(sample_strength: f64, regime_stability: f64) -> QualityInputs {
    QualityInputs {
        sample_strength: n(sample_strength),
        regime_stability: n(regime_stability),
    }
}

#[test]
fn all_pass_resolves_active_enter() {
    let g = passing_gate();
    let q = opportunity_quality(&g, &quality(0.7, 0.6), &liq(75.0), &trust(0.6), &tail(0.3));
    let d = decision_gate(&g, q);
    assert_eq!(d.opportunity.state, BinaryState::Active);
    assert_eq!(d.action, DecisionAction::Enter);
    assert!(d.conditions.iter().all(|c| c.pass));
    assert!(f(d.quality) > 50.0 && f(d.quality) <= 100.0);
}

#[test]
fn each_single_failure_resolves_inactive() {
    let base = passing_gate();
    let failures: [(&str, GateInputs); 8] = [
        ("ev", GateInputs { ev: n(-0.01), ..base }),
        ("p_cal", GateInputs { p_cal: n(0.60), ..base }),
        ("rr", GateInputs { reward_risk: n(1.2), ..base }),
        ("tail", GateInputs { tail_risk: n(0.9), ..base }),
        ("liq", GateInputs { liquidity: n(40.0), ..base }),
        ("n", GateInputs { n_samples: 10, ..base }),
        ("trust", GateInputs { trust: n(0.3), ..base }),
        ("dealer", GateInputs { dealer01: n(0.5), ..base }),
    ];
    for (name, g) in failures {
        let d = decision_gate(&g, n(50.0));
        assert_eq!(d.opportunity.state, BinaryState::Inactive, "{name}");
        assert_eq!(d.action, DecisionAction::Wait, "{name}");
        assert!(d.conditions.iter().any(|c| !c.pass), "{name}");
    }
}

#[test]
fn nan_reward_risk_fails_closed() {
    let g = GateInputs { reward_risk: n(f64::NAN), ..passing_gate() };
    let d = decision_gate(&g, n(50.0));
    assert_eq!(d.opportunity.state, BinaryState::Inactive);
}

#[test]
fn open_position_branches() {
    let open = GateInputs { position_open: true, ..passing_gate() };
    assert_eq!(decision_gate(&open, n(50.0)).action, DecisionAction::Hold);
    let reduce = GateInputs { thesis_stability: n(60.0), ..open };
    assert_eq!(decision_gate(&reduce, n(50.0)).action, DecisionAction::Reduce);
    let exit = GateInputs { p_cal: n(0.40), ..open };
    assert_eq!(decision_gate(&exit, n(50.0)).action, DecisionAction::Exit);
}

#[test]
fn quality_weights_saturate_at_100() {
    let g = GateInputs { ev: n(0.5), p_cal: n(1.0), ..passing_gate() };
    let q = opportunity_quality(&g, &quality(1.0, 1.0), &liq(100.0), &trust(1.0), &tail(0.0));
    assert!((f(q) - 100.0).abs() < 1e-9);
}

fn barrier_touch_prob(spot: f64, at: f64, sigma: f64, tau: f64, drift: Option<f64>) -> f64 {
    let (spot, at, sigma, tau) = (n(spot), n(at), n(sigma), n(tau));
    let drift = drift.map(n);
    let terms = touch_terms(spot, at, sigma, tau, touch_drift(sigma, drift));
    f(slayer::decision::barrier_touch_prob(spot, at, sigma, tau, drift, &terms))
}

fn prob_option_hits_target(
    entry: f64,
    mult: f64,
    inputs: &BsInputs,
    right: OptionRight,
) -> (f64, Option<f64>) {
    let target = slayer::decision::target_premium(n(entry), n(mult));
    let mut search = slayer::decision::spot_for_target_premium(target);
    while let Some(at) = search.probe(inputs) {
        search = search.advance(target, inputs, right, &bs_terms(&at));
    }
    let star = search.found();
    let drift = touch_drift(inputs.vol, None);
    let barrier = star.unwrap_or(inputs.spot);
    let terms = touch_terms(inputs.spot, barrier, inputs.vol, inputs.t_years, drift);
    let (p, s) = slayer::decision::prob_option_hits_target(inputs, None, star, &terms);
    (f(p), s.map(f))
}

#[test]
fn barrier_touch_prob_properties() {
    assert_eq!(barrier_touch_prob(100.0, 100.0, 0.2, 0.5, None), 1.0);
    assert_eq!(barrier_touch_prob(100.0, 110.0, 0.0, 0.5, None), 0.0);
    assert_eq!(barrier_touch_prob(100.0, 110.0, 0.2, 0.0, None), 0.0);
    let near = barrier_touch_prob(100.0, 102.0, 0.2, 0.25, None);
    let far = barrier_touch_prob(100.0, 115.0, 0.2, 0.25, None);
    assert!(near > far && (0.0..=1.0).contains(&near) && (0.0..=1.0).contains(&far));
    let x: f64 = (110.0_f64 / 100.0_f64).ln();
    let closed = 2.0 * norm_cdf(-x.abs() / (0.2 * 0.25_f64.sqrt()));
    let p = barrier_touch_prob(100.0, 110.0, 0.2, 0.25, None);
    assert!((p - closed).abs() < 1e-12);
    let below = barrier_touch_prob(100.0, 100.0 / 1.1, 0.2, 0.25, None);
    let above = barrier_touch_prob(100.0, 110.0, 0.2, 0.25, None);
    assert!((below - above).abs() < 1e-12);
}

#[test]
fn spot_inversion_roundtrips() {
    let inputs = BsInputs {
        spot: n(100.0),
        strike: n(105.0),
        t_years: n(0.25),
        vol: n(0.25),
        rate: n(0.045),
        div_yield: n(0.0),
    };
    let entry = f(bs_price(&inputs, OptionRight::Call).unwrap());
    let (prob, s_star) = prob_option_hits_target(entry, 2.0, &inputs, OptionRight::Call);
    let s_star = s_star.expect("target reachable");
    let repriced = bs_price(&BsInputs { spot: n(s_star), ..inputs }, OptionRight::Call).unwrap();
    assert!((f(repriced) - 2.0 * entry).abs() < 1e-5);
    assert!(prob > 0.0 && prob < 1.0);
    assert!(s_star > 100.0, "call doubling requires a rally");
    let (p0, none) = prob_option_hits_target(entry, 1e9, &inputs, OptionRight::Call);
    assert_eq!(p0, 0.0);
    assert!(none.is_none());
}

// Risk.

const EPS: f64 = 1e-9;

fn close(a: f64, b: f64) -> bool {
    (a - b).abs() <= EPS
}

fn percentile(xs: &[f64], pct: f64) -> f64 {
    f(slayer::risk::percentile(&ns(xs), n(pct)))
}

fn tail_risk(returns: &[f64], es_max: f64) -> Result<TailRisk, RiskError> {
    slayer::risk::tail_risk(&ns(returns), n(es_max))
}

fn liquidity_score(
    bid: f64,
    ask: f64,
    volume: u64,
    oi: u64,
    mids: &[f64],
    stability_max: f64,
) -> Result<LiquidityScore, RiskError> {
    let log = |count: u64| n(f(slayer::risk::liquidity_count(count)).log10());
    slayer::risk::liquidity_score(n(bid), n(ask), log(volume), log(oi), &ns(mids), n(stability_max))
}

fn model_trust(
    ece: f64,
    deltas: &[f64],
    predictions: &[f64],
    n_similar: u64,
    recent_win_rate: f64,
    forecast_scale: f64,
    pred_var_max: f64,
) -> Result<ModelTrust, RiskError> {
    let log_n = n(f(slayer::risk::sample_count(n_similar)).log10());
    slayer::risk::model_trust(
        n(ece),
        &ns(deltas),
        &ns(predictions),
        log_n,
        n(recent_win_rate),
        n(forecast_scale),
        n(pred_var_max),
    )
}

#[test]
fn percentile_of_empty_is_zero() {
    assert!(close(percentile(&[], 95.0), 0.0));
}

#[test]
fn percentile_interpolates_linearly_between_order_statistics() {
    let xs: Vec<f64> = (1..=10).map(|i| f64::from(i) / 100.0).collect();
    assert!(close(percentile(&xs, 95.0), 0.0955));
    assert!(close(percentile(&xs, 99.0), 0.0991));
    assert!(close(percentile(&xs, 0.0), 0.01));
    assert!(close(percentile(&xs, 100.0), 0.10));
    assert!(close(percentile(&xs, 50.0), 0.055));
}

#[test]
fn percentile_sorts_unordered_input() {
    let xs = [0.10, 0.01, 0.05, 0.02];
    assert!(close(percentile(&xs, 0.0), 0.01));
    assert!(close(percentile(&xs, 100.0), 0.10));
}

#[test]
fn percentile_clamps_out_of_range_pct() {
    let xs = [0.01, 0.02, 0.03];
    assert!(close(percentile(&xs, -50.0), 0.01));
    assert!(close(percentile(&xs, 250.0), 0.03));
}

#[test]
fn tail_risk_matches_known_distribution() {
    let returns: Vec<f64> = (1..=100).map(|i| -f64::from(i) / 100.0).collect();
    let tr = tail_risk(&returns, k(ES_MAX_DEFAULT)).unwrap();
    assert!(close(f(tr.var95), 0.9505));
    assert!(close(f(tr.es95), 0.98));
    assert!(close(f(tr.var99), 0.9901));
    assert!(close(f(tr.es99), 1.0));
    assert!(close(f(tr.worst), 1.0));
    assert!(close(f(tr.score), 0.98));
}

#[test]
fn expected_shortfall_never_below_var() {
    let returns: Vec<f64> = (1..=50).map(|i| -f64::from(i) / 100.0).collect();
    let tr = tail_risk(&returns, k(ES_MAX_DEFAULT)).unwrap();
    assert!(f(tr.es95) >= f(tr.var95) - EPS);
    assert!(f(tr.es99) >= f(tr.var99) - EPS);
    assert!(f(tr.worst) >= f(tr.es99) - EPS);
}

#[test]
fn tail_risk_empty_history_is_documented_cold_start() {
    let tr = tail_risk(&[], k(ES_MAX_DEFAULT)).unwrap();
    assert!(close(f(tr.var95), 0.0));
    assert!(close(f(tr.var99), 0.0));
    assert!(close(f(tr.es95), 0.0));
    assert!(close(f(tr.es99), 0.0));
    assert!(close(f(tr.worst), k(DEFAULT_WORST_LOSS)));
    assert!(close(f(tr.score), 0.0));
}

#[test]
fn tail_risk_drops_non_finite_returns() {
    let clean = tail_risk(&[-0.02, -0.05, -0.09], k(ES_MAX_DEFAULT)).unwrap();
    let dirty = tail_risk(&[-0.02, f64::NAN, -0.05, f64::INFINITY, -0.09], k(ES_MAX_DEFAULT))
        .unwrap();
    assert!(close(f(clean.var95), f(dirty.var95)));
    assert!(close(f(clean.es95), f(dirty.es95)));
    assert!(close(f(clean.worst), f(dirty.worst)));
}

#[test]
fn tail_risk_score_scales_with_es_max() {
    let tr = tail_risk(&[-0.10; 8], 0.20).unwrap();
    assert!(close(f(tr.es95), 0.10));
    assert!(close(f(tr.score), 0.5));
}

#[test]
fn tail_risk_rejects_bad_es_max() {
    assert_eq!(tail_risk(&[-0.1], 0.0).unwrap_err(), RiskError::InvalidEsMax(n(0.0)));
    assert_eq!(tail_risk(&[-0.1], -1.0).unwrap_err(), RiskError::InvalidEsMax(n(-1.0)));
    assert!(matches!(
        tail_risk(&[-0.1], f64::NAN).unwrap_err(),
        RiskError::InvalidEsMax(_)
    ));
}

#[test]
fn liquidity_total_is_monotone_decreasing_in_spread() {
    let sm = k(STABILITY_MAX_DEFAULT);
    let tight = liquidity_score(0.99, 1.01, 5_000, 5_000, &[], sm).unwrap();
    let wide = liquidity_score(0.90, 1.10, 5_000, 5_000, &[], sm).unwrap();
    assert!(close(f(tight.spread), 0.8));
    assert!(close(f(wide.spread), 0.0));
    assert!(f(tight.total) > f(wide.total));
}

#[test]
fn liquidity_sub_scores_match_spec_formulas() {
    let ls = liquidity_score(1.00, 1.02, 10_000, 100, &[], k(STABILITY_MAX_DEFAULT)).unwrap();
    assert!(close(f(ls.volume), 1.0));
    assert!(close(f(ls.oi), 0.5));
    let mid = 1.01_f64;
    let expected_spread = (1.0 - (0.02 / mid) / k(SPREAD_MAX_PCT)).clamp(0.0, 1.0);
    assert!(close(f(ls.spread), expected_spread));
}

#[test]
fn liquidity_non_positive_mid_uses_spread_fallback() {
    let ls = liquidity_score(0.0, 0.0, 1, 1, &[], k(STABILITY_MAX_DEFAULT)).unwrap();
    assert!(close(f(ls.spread), 1.0 - k(SPREAD_FALLBACK) / k(SPREAD_MAX_PCT)));
}

#[test]
fn quote_stability_is_scale_independent() {
    let big = [500.0, 502.0, 498.0, 501.0, 499.0];
    let scale = 0.30 / 500.0;
    let small: Vec<f64> = big.iter().map(|m| m * scale).collect();
    let sm = k(STABILITY_MAX_DEFAULT);
    let a = liquidity_score(499.0, 501.0, 1_000, 1_000, &big, sm).unwrap();
    let b = liquidity_score(499.0 * scale, 501.0 * scale, 1_000, 1_000, &small, sm).unwrap();
    assert!(close(f(a.stability), f(b.stability)));
    assert!(f(a.stability) > 0.99);
}

#[test]
fn quote_stability_cold_start_and_degenerate() {
    let sm = k(STABILITY_MAX_DEFAULT);
    let one = liquidity_score(1.0, 1.02, 10, 10, &[3.0], sm).unwrap();
    assert!(close(f(one.stability), 1.0));
    let none = liquidity_score(1.0, 1.02, 10, 10, &[], sm).unwrap();
    assert!(close(f(none.stability), 1.0));
    let degen = liquidity_score(1.0, 1.02, 10, 10, &[0.0, 0.0], sm).unwrap();
    assert!(close(f(degen.stability), 0.0));
}

#[test]
fn liquidity_total_is_within_zero_hundred() {
    let ls = liquidity_score(0.99, 1.01, 12_000, 20_000, &[1.0, 1.001, 0.999], 0.05).unwrap();
    assert!(f(ls.total) >= 0.0 && f(ls.total) <= 100.0);
    for s in [ls.spread, ls.volume, ls.oi, ls.stability] {
        assert!((0.0..=1.0).contains(&f(s)));
    }
}

#[test]
fn liquidity_rejects_bad_inputs() {
    assert_eq!(
        liquidity_score(f64::NAN, 1.0, 1, 1, &[], 0.05).unwrap_err(),
        RiskError::NonFiniteInput("bid")
    );
    assert_eq!(
        liquidity_score(1.0, f64::INFINITY, 1, 1, &[], 0.05).unwrap_err(),
        RiskError::NonFiniteInput("ask")
    );
    assert_eq!(
        liquidity_score(1.0, 1.0, 1, 1, &[], 0.0).unwrap_err(),
        RiskError::InvalidStabilityMax(n(0.0))
    );
}

fn standard_trust(
    ece: f64,
    deltas: &[f64],
    predictions: &[f64],
    count: u64,
    win_rate: f64,
) -> ModelTrust {
    model_trust(
        ece,
        deltas,
        predictions,
        count,
        win_rate,
        k(FORECAST_ERROR_SCALE_DEFAULT),
        k(PRED_VAR_MAX_DEFAULT),
    )
    .unwrap()
}

#[test]
fn model_trust_perfect_inputs_grade_a() {
    let mt = standard_trust(0.0, &[0.0, 0.0], &[0.5, 0.5], 1_000, 1.0);
    assert!(close(f(mt.score), 1.0));
    assert_eq!(mt.grade, TrustGrade::A);
    assert!(close(f(mt.components.calibration), 1.0));
    assert!(close(f(mt.components.forecast_accuracy), 1.0));
    assert!(close(f(mt.components.prediction_stability), 1.0));
    assert!(close(f(mt.components.sample_strength), 1.0));
    assert!(close(f(mt.components.recent_performance), 1.0));
}

#[test]
fn model_trust_worst_inputs_grade_f() {
    let mt = standard_trust(1.0, &[1.0, 1.0], &[0.0, 1.0], 1, 0.0);
    assert!(close(f(mt.score), 0.0));
    assert_eq!(mt.grade, TrustGrade::F);
}

#[test]
fn model_trust_is_always_in_unit_interval() {
    for &ece in &[0.0, 0.1, 0.3, 0.7, 1.0] {
        for &wr in &[0.0, 0.5, 0.9, 1.0] {
            for &count in &[1_u64, 50, 250, 5_000] {
                let mt = standard_trust(
                    ece,
                    &[0.05, -0.03, 0.04],
                    &[0.55, 0.6, 0.58, 0.62],
                    count,
                    wr,
                );
                assert!((0.0..=1.0).contains(&f(mt.score)));
            }
        }
    }
}

#[test]
fn model_trust_blend_matches_components() {
    let mt = standard_trust(0.1, &[0.03, -0.06], &[0.5, 0.6, 0.55], 100, 0.7);
    let c = mt.components;
    let expected = k(TRUST_W_CALIBRATION) * f(c.calibration)
        + k(TRUST_W_FORECAST) * f(c.forecast_accuracy)
        + k(TRUST_W_STABILITY) * f(c.prediction_stability)
        + k(TRUST_W_SAMPLE) * f(c.sample_strength)
        + k(TRUST_W_RECENT) * f(c.recent_performance);
    assert!(close(f(mt.score), expected));
    assert!(close(f(c.sample_strength), 0.5));
    assert!(close(f(c.calibration), 0.9));
}

#[test]
fn model_trust_empty_deltas_uses_documented_prior() {
    let mt = standard_trust(0.0, &[], &[0.5, 0.5], 1_000, 1.0);
    let expected_fa = 1.0 - (k(DEFAULT_FORECAST_MAE) / k(FORECAST_ERROR_SCALE_DEFAULT));
    assert!(close(f(mt.components.forecast_accuracy), expected_fa));
}

#[test]
fn model_trust_forecast_error_is_like_unit_mae() {
    let mt = standard_trust(0.0, &[0.05, -0.10], &[0.5, 0.5], 1_000, 1.0);
    assert!(close(f(mt.components.forecast_accuracy), 0.5));
}

#[test]
fn model_trust_rejects_bad_config() {
    assert_eq!(
        model_trust(f64::NAN, &[], &[], 1, 0.5, 0.15, 0.04).unwrap_err(),
        RiskError::NonFiniteInput("ece")
    );
    assert_eq!(
        model_trust(0.1, &[], &[], 1, f64::NAN, 0.15, 0.04).unwrap_err(),
        RiskError::NonFiniteInput("recent_win_rate")
    );
    assert_eq!(
        model_trust(0.1, &[], &[], 1, 0.5, 0.0, 0.04).unwrap_err(),
        RiskError::InvalidForecastScale(n(0.0))
    );
    assert_eq!(
        model_trust(0.1, &[], &[], 1, 0.5, 0.15, -1.0).unwrap_err(),
        RiskError::InvalidPredVarMax(n(-1.0))
    );
}

#[test]
fn grade_boundaries_are_inclusive_lower() {
    assert_eq!(grade_for(n(0.80)), TrustGrade::A);
    assert_eq!(grade_for(n(0.799_999)), TrustGrade::B);
    assert_eq!(grade_for(n(0.60)), TrustGrade::B);
    assert_eq!(grade_for(n(0.40)), TrustGrade::C);
    assert_eq!(grade_for(n(0.20)), TrustGrade::D);
    assert_eq!(grade_for(n(0.199_999)), TrustGrade::F);
    assert_eq!(grade_for(n(0.0)), TrustGrade::F);
}

#[test]
fn wilson_intervals_bracket_up_to_rounding() {
    for i in 0..=20 {
        let p = f64::from(i) / 20.0;
        let mut before = f64::INFINITY;
        for count in [1, 2, 6, 11, 100, 5_000, 1_000_000_000, u64::MAX] {
            let (lo, hi) = wilson_interval(p, count);
            assert!(lo <= p + 1e-12 && p <= hi + 1e-12);
            assert!(hi - lo <= before + 1e-12);
            before = hi - lo;
        }
    }
}

#[test]
fn calibration_never_falls_on_any_history_of_rates() {
    let history: Vec<(f64, f64)> = (0..400)
        .map(|i| {
            let x = f64::from(i * 37 % 400) / 399.0;
            (x, f64::from(u8::from(i % 7 < 3)) * (1.0 - 0.3 * x))
        })
        .collect();
    let mut before = 0.0;
    for i in -20..=220 {
        let v = calibrate(f64::from(i) / 200.0, &history);
        assert!(v >= before - 1e-12 && v <= 1.0 + 1e-12);
        before = v;
    }
}

#[test]
fn wilson_intervals_of_a_half_are_even() {
    for count in [1, 2, 7, 50, 12_345, 1_000_000_007, u64::MAX] {
        let (lo, hi) = wilson_interval(0.5, count);
        assert!((lo + hi - 1.0).abs() <= 1e-12);
    }
}

#[test]
fn sure_hits_score_exactly_zero() {
    assert_eq!(brier_score(&[(0.0, -0.0), (0.3, 0.3), (f64::NAN, 1.0), (1.0, 1.0)]), 0.0);
}

#[test]
fn tail_levels_are_ordered_and_reached() {
    let returns = [0.02, -0.11, -0.3, 0.4, -0.05, -0.07, 0.0, -0.22, 0.01, -0.3];
    let t = tail_risk(&returns, 1.0).unwrap();
    assert!(f(t.var95) <= f(t.var99) && f(t.var99) <= f(t.worst));
    assert!(f(t.es95) >= f(t.var95) - 1e-15 && f(t.es99) >= f(t.var99) - 1e-15);
    let flat = tail_risk(&[-0.1; 10], 1.0).unwrap();
    assert!(f(flat.es95) < 0.1 && f(flat.es95) >= 0.1 - 11.0 * f64::EPSILON * 0.1);
}

#[test]
fn scores_of_extreme_inputs_stay_in_range() {
    let huge = f64::MAX;
    for (bid, ask) in [(-huge, huge), (huge, huge), (huge, -huge), (0.0, 0.0), (1.0, 1.0)] {
        let s = liquidity_score(bid, ask, u64::MAX, 0, &[huge, -huge, huge], 0.05).unwrap();
        assert!((0.0..=100.0).contains(&f(s.total)));
        for part in [s.spread, s.volume, s.oi, s.stability] {
            assert!((0.0..=1.0).contains(&f(part)));
        }
    }
    let t = model_trust(0.3, &[huge, -huge], &[huge, 0.0], 0, 2.0, 0.15, 0.04).unwrap();
    assert!((0.0..=1.0).contains(&f(t.score)));
    let tail = tail_risk(&[-huge, -huge, huge], 1.0).unwrap();
    assert!((0.0..=1.0).contains(&f(tail.score)));
}
