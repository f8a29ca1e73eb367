//! What holds of the library as a whole, on concrete values.

use rand::{Rng, SeedableRng};
use rand_chacha::ChaCha8Rng;
use slayer::calibration::{calibrate_isotonic, wilson_interval};
use slayer::market::{Candle, TsMillis};
use slayer::num::Num;
use slayer::realized_vol::BarRatios;
use slayer::regime::{analyze_regime, HurstPoint, RegimeTerms};
use slayer::risk::{grade_for, TrustGrade};
use slayer::state::{BinaryState, HysteresisBand};
use slayer::stats::quantile_sorted;
use slayer::technicals::{fractal_pivots, wilder_rsi, PivotKind};
use slayer::zones::{
    proximity_arg, strike_gravity, wall_zone, GravityConfig, GravityStrikeInput, WallKind,
};

fn n(x: f64) -> Num {
    Num::of(x.to_bits())
}

fn f(x: Num) -> f64 {
    f64::from_bits(x.bits)
}

fn ns(v: &[f64]) -> Vec<Num> {
    v.iter().map(|&x| n(x)).collect()
}

fn exp(x: Num) -> Num {
    n(f(x).exp())
}

fn ln(x: Num) -> Num {
    n(f(x).ln())
}

fn bar_logs(candles: &Vec<Candle>) -> Vec<BarRatios> {
    slayer::realized_vol::candle_ratios(candles)
        .iter()
        .map(|r| BarRatios {
            high_low: ln(r.high_low),
            close_open: ln(r.close_open),
            high_close: ln(r.high_close),
            high_open: ln(r.high_open),
            low_close: ln(r.low_close),
            low_open: ln(r.low_open),
            close_prev: ln(r.close_prev),
            open_prev: ln(r.open_prev),
        })
        .collect()
}

fn log_returns(prices: &Vec<Num>) -> Vec<Num> {
    slayer::regime::return_ratios(prices).into_iter().map(ln).collect()
}

fn hurst_logs(log_rets: &Vec<Num>) -> Vec<HurstPoint> {
    slayer::regime::hurst_points(log_rets)
        .iter()
        .map(|p| HurstPoint {
            window: ln(p.window),
            observed: ln(p.observed),
            expected: ln(p.expected),
        })
        .collect()
}

fn regime_exps(log_rets: &Vec<Num>, hurst: Num) -> (Num, Num, Num) {
    match slayer::regime::regime_exponents(log_rets, hurst) {
        Some((a, b, c)) => (exp(a), exp(b), exp(c)),
        None => (n(0.0), n(0.0), n(0.0)),
    }
}

fn ln_phi(series: &Vec<Num>) -> Num {
    slayer::regime::ou_phi(series).map_or(n(0.0), ln)
}

fn regime_terms(candles: &Vec<Candle>) -> RegimeTerms {
    let closes = slayer::regime::closes(candles);
    let log_rets = log_returns(&closes);
    let hurst = hurst_logs(&log_rets);
    let h = slayer::regime::hurst_exponent(&log_rets, &hurst);
    RegimeTerms {
        exps: regime_exps(&log_rets, h),
        ln_phi: ln_phi(&closes),
        bars: bar_logs(candles),
        log_rets,
        hurst,
    }
}

fn le(a: Num, b: Num) -> bool {
    f(a) <= f(b)
}

fn unit(v: Num) -> bool {
    (0.0..=1.0).contains(&f(v))
}

// Arithmetic.

#[test]
fn rounded_arithmetic_keeps_order_and_identities() {
    let xs = [-3.0, -0.1, -0.0, 0.0, 5e-324, 0.1, 0.3, 1.0, 1.0 + f64::EPSILON, 7.0, 1e15, 1e300];
    for &a in &xs {
        assert_eq!(n(a) + n(0.0), n(if a == 0.0 { 0.0 } else { a }));
        assert_eq!(n(a) * n(1.0), n(a));
        assert_eq!(n(a) - n(a), n(0.0));
        if a != 0.0 {
            assert_eq!(n(a) / n(a), n(1.0));
        }
        for &b in &xs {
            assert_eq!(n(a) + n(b), n(b) + n(a));
            assert_eq!(n(a) * n(b), n(b) * n(a));
            for &c in &xs {
                if a <= b {
                    assert!(le(n(a) + n(c), n(b) + n(c)));
                }
                if a <= b && c > 0.0 {
                    assert!(le(n(a) * n(c), n(b) * n(c)));
                    assert!(le(n(a) / n(c), n(b) / n(c)));
                }
                if a >= 0.0 && 0.0 < b && b <= c {
                    assert!(le(n(a) / n(c), n(a) / n(b)));
                }
            }
            if 0.0 <= a && a <= b {
                assert!(le(n(a).sqrt(), n(b).sqrt()));
            }
        }
    }
}

#[test]
fn one_rounding_of_a_sum_with_a_multiple() {
    for k in -31i64..=31 {
        for (base, step) in [(620.0, 5.0), (0.7, 0.1), (1e16, 1.0), (0.1, 1e-17)] {
            let want = (k as f64).mul_add(step, base);
            assert_eq!(f(n(base).add_multiple(k, n(step))), want);
        }
    }
}

// Order statistics.

#[test]
fn quantiles_ascend_between_the_ends() {
    let s = ns(&[-2.0, -0.5, 0.25, 0.25, 3.0, 10.0]);
    let ps: Vec<f64> = (0..=100).map(|i| f64::from(i) / 100.0).collect();
    for w in ps.windows(2) {
        let (a, b) = (quantile_sorted(&s, n(w[0])), quantile_sorted(&s, n(w[1])));
        assert!(le(a, b));
        assert!(le(s[0], a) && le(b, s[5]));
    }
    assert_eq!(f(quantile_sorted(&s, n(0.0))), -2.0);
    assert_eq!(f(quantile_sorted(&s, n(1.0))), 10.0);
    assert_eq!(f(quantile_sorted(&s, n(0.5))), 0.25);
    assert!(f(quantile_sorted(&vec![], n(0.5))).is_nan());
}

// Calibration.

#[test]
fn wilson_intervals_are_ordered_and_narrow_with_trials() {
    for p in [0.0, 0.1, 0.5, 0.9, 1.0] {
        let mut last = f64::INFINITY;
        for trials in [1, 2, 3, 10, 100, 10_000, u64::MAX] {
            let w = wilson_interval(n(p), trials);
            assert!(le(w.lo, w.hi));
            assert!(unit(w.lo) && unit(w.hi));
            let width = f(w.hi) - f(w.lo);
            assert!(width <= last);
            last = width;
        }
    }
}

fn outcomes(pred: f64, wins: usize, of: usize) -> Vec<(Num, Num)> {
    (0..of).map(|i| (n(pred), n(if i < wins { 1.0 } else { 0.0 }))).collect()
}

#[test]
fn calibration_keeps_the_order_of_probabilities() {
    let mut h = outcomes(0.15, 15, 100);
    h.extend(outcomes(0.45, 10, 100));
    h.extend(outcomes(0.85, 75, 100));
    let ps: Vec<f64> = (0..=200).map(|i| f64::from(i) / 200.0).collect();
    for w in ps.windows(2) {
        assert!(le(calibrate_isotonic(n(w[0]), &h), calibrate_isotonic(n(w[1]), &h)));
    }
}

#[test]
fn a_segment_can_round_above_its_end() {
    let mut h = outcomes(0.25, 1, 9);
    h.extend(outcomes(0.5, 9, 10));
    h.extend(outcomes(0.75, 200, 200));
    let at = |p: f64| f(calibrate_isotonic(n(p), &h));
    assert_eq!(at(0.5), 0.9000000000000001);
    assert_eq!(at(f64::from_bits(0.5f64.to_bits() + 1)), 0.9);
}

// Technicals.

fn walk(count: usize, seed: u64) -> Vec<Candle> {
    let mut rng = ChaCha8Rng::seed_from_u64(seed);
    let mut close = 100.0f64;
    (0..count)
        .map(|i| {
            let open = close;
            close += rng.random_range(-1.0..1.0);
            // Prices on a coarse grid, so that equal highs and lows occur.
            let grid = |v: f64| (v * 2.0).round() / 2.0;
            Candle {
                ts: TsMillis(i as u64 * 60_000),
                open: n(open),
                high: n(grid(open.max(close) + 0.5)),
                low: n(grid(open.min(close) - 0.5)),
                close: n(close),
                volume: n(1000.0),
            }
        })
        .collect()
}

#[test]
fn pivots_of_a_kind_stand_more_than_a_window_apart() {
    let candles = walk(400, 3);
    for half in [1usize, 2, 5] {
        for kind in [PivotKind::High, PivotKind::Low] {
            let at: Vec<usize> = fractal_pivots(&candles, half)
                .iter()
                .filter(|p| p.kind == kind)
                .map(|p| p.index)
                .collect();
            assert!(at.len() > 5);
            assert!(at.windows(2).all(|w| w[1] - w[0] > half));
        }
    }
}

#[test]
fn rsi_stays_between_zero_and_a_hundred() {
    let rsi = wilder_rsi(&walk(300, 9), 14);
    assert_eq!(rsi.iter().filter(|r| r.is_some()).count(), 300 - 14);
    assert!(rsi.iter().flatten().all(|r| (0.0..=100.0).contains(&f(*r))));
}

#[test]
fn compression_and_expansion_exclude_each_other() {
    for seed in 0..8 {
        let candles = walk(300, seed);
        let s = analyze_regime(&candles, &regime_terms(&candles));
        assert!(!(s.compression.state.is_active() && s.expansion.state.is_active()));
        let p = s.classification.probabilities;
        assert!(unit(p.trend_expansion) && unit(p.mean_reversion) && unit(p.tail_risk));
        assert!(unit(s.hurst));
    }
}

// Zones and states.

#[test]
fn axis_weights_stay_in_the_unit_interval() {
    let rows: Vec<GravityStrikeInput> = (0..9)
        .map(|i| GravityStrikeInput {
            strike: n(80.0 + 5.0 * f64::from(i)),
            net_gex: n(f64::from(i - 4) * 1e6),
            call_oi: n(f64::from(i) * 10.0),
            put_oi: n(f64::from(8 - i) * 30.0),
            call_volume: n(f64::from(i * i)),
            put_volume: n(1.0),
        })
        .collect();
    let config = GravityConfig::default();
    let proximity: Vec<Num> =
        rows.iter().map(|r| exp(proximity_arg(r.strike, n(100.0), &config))).collect();
    let g = strike_gravity(&rows, n(100.0), &config, &proximity);
    assert_eq!(g.strikes.len(), 9);
    for s in &g.strikes {
        assert!(unit(s.gex_weight) && unit(s.oi_weight) && unit(s.volume_weight));
    }
    assert!(g.strikes.iter().any(|s| f(s.gex_weight) == 1.0));
}

#[test]
fn without_spot_no_wall_is_in_force() {
    for spot in [0.0, -1.0, f64::NAN] {
        for previous in [BinaryState::Active, BinaryState::Inactive] {
            let w = wall_zone(WallKind::Call, n(spot), n(100.0), n(50.0), previous);
            assert!(!w.readout.state.is_active());
        }
    }
}

#[test]
fn scores_inside_a_band_never_flap() {
    let band = HysteresisBand::new(n(0.6), n(0.4));
    for start in [BinaryState::Active, BinaryState::Inactive] {
        let mut state = start;
        for score in [0.41, 0.59, 0.5, 0.45, 0.55] {
            state = band.resolve(n(score), state);
        }
        assert_eq!(state, start);
    }
    let strict = HysteresisBand::strict(n(0.5));
    for score in [0.2, 0.5, 0.8, f64::NAN] {
        assert_eq!(
            strict.resolve(n(score), BinaryState::Active),
            strict.resolve(n(score), BinaryState::Inactive)
        );
    }
    assert!(strict.resolve(n(0.5), BinaryState::Inactive).is_active());
}

// Risk.

#[test]
fn better_trust_never_has_a_worse_grade() {
    let grades: Vec<TrustGrade> = (0..=100).map(|i| grade_for(n(f64::from(i) / 100.0))).collect();
    assert_eq!(grades[0], TrustGrade::F);
    assert_eq!(grades[100], TrustGrade::A);
    let mut changes = 0;
    for w in grades.windows(2) {
        if w[0] != w[1] {
            changes += 1;
        }
    }
    assert_eq!(changes, 4);
}
