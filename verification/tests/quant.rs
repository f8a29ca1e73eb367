//! Distributions, option pricing, first passage, realized volatility,
//! simulation and risk-neutral densities, against known values.

use rand::SeedableRng;
use rand_chacha::ChaCha8Rng;
use rand_distr::{Distribution, StandardNormal};
use slayer::black_scholes::{BsGreeks, BsInputs, BsTerms, IvSearch, QuantError};
use slayer::market::{Candle, ExpiryDate, OptionQuote, OptionRight, TsMillis};
use slayer::monte_carlo::{GbmConfig, GbmSimulation};
use slayer::num::Num;
use slayer::realized_vol::{
    close_to_close, garman_klass, parkinson, rogers_satchell, yang_zhang, BarRatios,
};
use slayer::rnd::{
    NodeTerms, RndCurve, RndSetup, RndTerms, StrikeTerms, FAT_TAIL_KURTOSIS_THRESHOLD,
    RND_MIN_CHAIN_SIZE, RND_NODES, RND_SMOOTH_HALF_WINDOW,
};
use slayer::first_passage::TouchTerms;
use slayer::vol_metrics::{
    iv_metrics, vol_risk_premium, RvEstimator, SkewAnalytics, VolCone, VOL_CONE_MIN_SAMPLES,
    VOL_CONE_WINDOWS,
};

fn n(x: f64) -> Num {
    Num::of(x.to_bits())
}

fn f(x: Num) -> f64 {
    f64::from_bits(x.bits)
}

fn ns(v: &[f64]) -> Vec<Num> {
    v.iter().map(|&x| n(x)).collect()
}

fn exp(x: Num) -> Num {
    n(f(x).exp())
}

fn ln(x: Num) -> Num {
    n(f(x).ln())
}

fn gauss(x: Num) -> Num {
    exp(slayer::dist::gauss_arg(x))
}

fn norm_cdf(x: f64) -> f64 {
    f(slayer::dist::norm_cdf(n(x), gauss(n(x))))
}

fn norm_pdf(x: f64) -> f64 {
    f(slayer::dist::norm_pdf(gauss(n(x))))
}

fn norm_cdf_inv(p: f64) -> f64 {
    let logarithm = match slayer::dist::quantile_arg(n(p)) {
        Some(t) => ln(t),
        None => n(0.0),
    };
    f(slayer::dist::norm_cdf_inv(n(p), logarithm))
}

fn bs_terms(i: &BsInputs) -> BsTerms {
    let ln_moneyness = ln(i.moneyness());
    let (d1, d2) = i.d1_d2(ln_moneyness);
    BsTerms {
        ln_moneyness,
        exp_d1: gauss(d1),
        exp_d2: gauss(d2),
        disc_rate: exp(i.rate_exponent()),
        disc_yield: exp(i.yield_exponent()),
        growth: exp(i.carry_exponent()),
    }
}

fn bs_price(i: &BsInputs, right: OptionRight) -> Result<Num, QuantError> {
    slayer::black_scholes::price(i, right, &bs_terms(i))
}

fn bs_greeks(i: &BsInputs, right: OptionRight) -> Result<BsGreeks, QuantError> {
    slayer::black_scholes::greeks(i, right, &bs_terms(i))
}

fn implied_vol(price: Num, base: &BsInputs, right: OptionRight) -> Result<Num, QuantError> {
    let mut search = slayer::black_scholes::implied_vol(price, base)?;
    while let Some(vol) = search.probe() {
        let terms = bs_terms(&BsInputs { vol, ..*base });
        search = search.advance(price, base, right, &terms);
    }
    match search {
        IvSearch::Found(vol) => Ok(vol),
        IvSearch::Failed(e) => Err(e),
        _ => unreachable!(),
    }
}

fn touch(spot: f64, barrier: f64, sigma: f64, tau: f64, nu: f64) -> f64 {
    let (spot, barrier, sigma, tau, nu) = (n(spot), n(barrier), n(sigma), n(tau), n(nu));
    let terms = touch_terms(spot, barrier, sigma, tau, nu);
    f(slayer::first_passage::gbm_touch_probability(spot, barrier, sigma, tau, nu, &terms))
}

fn touch_terms(spot: Num, barrier: Num, sigma: Num, tau: Num, nu: Num) -> TouchTerms {
    let x = match slayer::first_passage::touch_ratio(spot, barrier, sigma, tau) {
        Some(r) => ln(r),
        None => n(0.0),
    };
    let p = slayer::first_passage::touch_points(x, sigma, tau, nu);
    TouchTerms {
        ln_ratio: x,
        reflection: exp(p.exponent),
        exp_near: gauss(p.near),
        exp_far: gauss(p.far),
    }
}

fn expire(
    spot: f64,
    strike: f64,
    tau: f64,
    iv: f64,
    is_call: bool,
    rate: f64,
    div_yield: f64,
) -> f64 {
    let (spot, strike, tau, iv) = (n(spot), n(strike), n(tau), n(iv));
    let (rate, div_yield) = (n(rate), n(div_yield));
    let x = match slayer::first_passage::expire_ratio(spot, strike, tau, iv) {
        Some(r) => ln(r),
        None => n(0.0),
    };
    let d = slayer::first_passage::expire_point(x, tau, iv, is_call, rate, div_yield);
    f(slayer::first_passage::prob_expire_itm(
        spot, strike, tau, iv, is_call, rate, div_yield, x, gauss(d),
    ))
}

fn bar_logs(candles: &Vec<Candle>) -> Vec<BarRatios> {
    slayer::realized_vol::candle_ratios(candles)
        .iter()
        .map(|r| BarRatios {
            high_low: ln(r.high_low),
            close_open: ln(r.close_open),
            high_close: ln(r.high_close),
            high_open: ln(r.high_open),
            low_close: ln(r.low_close),
            low_open: ln(r.low_open),
            close_prev: ln(r.close_prev),
            open_prev: ln(r.open_prev),
        })
        .collect()
}

fn simulate(cfg: &GbmConfig) -> Result<GbmSimulation, QuantError> {
    cfg.validate()?;
    let mut rng = ChaCha8Rng::seed_from_u64(cfg.seed);
    let growth: Vec<Vec<Num>> = (0..cfg.steps())
        .map(|_| {
            let draws: Vec<Num> = (0..cfg.draws_per_step())
                .map(|_| {
                    let z: f64 = StandardNormal.sample(&mut rng);
                    n(z)
                })
                .collect();
            slayer::monte_carlo::gbm_exponents(cfg, &draws).into_iter().map(exp).collect()
        })
        .collect();
    let mean_growth = exp(slayer::monte_carlo::mean_exponent(cfg));
    slayer::monte_carlo::simulate_gbm(cfg, &growth, mean_growth)
}

fn search_trace(price: Num, base: &BsInputs, right: OptionRight) -> Vec<BsTerms> {
    let mut trace = Vec::new();
    if let Ok(mut search) = slayer::black_scholes::implied_vol(price, base) {
        while let Some(vol) = search.probe() {
            let terms = bs_terms(&BsInputs { vol, ..*base });
            search = search.advance(price, base, right, &terms);
            trace.push(terms);
        }
    }
    trace
}

fn search_traces(quotes: &[OptionQuote], spot: Num, t: Num, rate: Num) -> Vec<Vec<BsTerms>> {
    quotes
        .iter()
        .map(|q| match slayer::rnd::vol_wanted(q, spot, t, rate) {
            Some((mid, base)) => search_trace(mid, &base, q.right),
            None => Vec::new(),
        })
        .collect()
}

fn solved_vols(quotes: &Vec<OptionQuote>, spot: Num, t: Num, rate: Num) -> Vec<Option<Num>> {
    let traces = search_traces(quotes, spot, t, rate);
    slayer::rnd::solved_vols(quotes, spot, t, rate, &traces)
}

fn strike_terms(setup: &RndSetup, k: Num) -> StrikeTerms {
    let log = ln(k / setup.spot);
    StrikeTerms { log, call: bs_terms(&setup.call_inputs(k, log)) }
}

fn rnd_terms(
    quotes: &Vec<OptionQuote>,
    spot: Num,
    t: Num,
    rate: Num,
    solved: &Vec<Option<Num>>,
) -> RndTerms {
    let smile = slayer::rnd::smile_points(quotes, solved);
    let smile_logs: Vec<Num> = smile.iter().map(|p| ln(p.strike / spot)).collect();
    let blank = StrikeTerms {
        log: n(0.0),
        call: BsTerms {
            ln_moneyness: n(0.0),
            exp_d1: n(0.0),
            exp_d2: n(0.0),
            disc_rate: n(0.0),
            disc_yield: n(0.0),
            growth: n(0.0),
        },
    };
    let nodes = match slayer::rnd::rnd_setup(&smile, &smile_logs, spot, t, rate) {
        Ok(setup) => (0..RND_NODES)
            .map(|i| {
                let (up, at, down) = setup.grid.stencil(i);
                NodeTerms {
                    up: strike_terms(&setup, up),
                    at: strike_terms(&setup, at),
                    down: strike_terms(&setup, down),
                }
            })
            .collect(),
        Err(_) => vec![NodeTerms { up: blank, at: blank, down: blank }; RND_NODES],
    };
    let weights = (0..=RND_SMOOTH_HALF_WINDOW)
        .map(|k| exp(slayer::rnd::weight_exponent(k)))
        .collect();
    RndTerms {
        smile_logs,
        nodes,
        discount: exp(slayer::rnd::discount_exponent(t, rate)),
        weights,
    }
}

fn implied_rnd(
    quotes: &Vec<OptionQuote>,
    spot: f64,
    t: f64,
    rate: f64,
) -> Result<RndCurve, QuantError> {
    let (spot, t, rate) = (n(spot), n(t), n(rate));
    let solved = solved_vols(quotes, spot, t, rate);
    let terms = rnd_terms(quotes, spot, t, rate, &solved);
    slayer::rnd::implied_rnd(quotes, spot, t, rate, &solved, &terms)
}

fn skew(
    quotes: &Vec<OptionQuote>,
    spot: f64,
    t: f64,
    rate: f64,
) -> Result<SkewAnalytics, QuantError> {
    let (spot, t, rate) = (n(spot), n(t), n(rate));
    let solved = solved_vols(quotes, spot, t, rate);
    let terms: Vec<BsTerms> = quotes
        .iter()
        .zip(&solved)
        .map(|(q, s)| {
            let inputs = slayer::vol_metrics::skew_kernel_inputs(q, *s, spot, t, rate);
            bs_terms(&inputs.unwrap_or(BsInputs {
                spot,
                strike: q.strike,
                t_years: t,
                vol: n(0.2),
                rate,
                div_yield: n(0.0),
            }))
        })
        .collect();
    slayer::vol_metrics::skew_analytics(quotes, spot, t, rate, &solved, &terms)
}

// Distributions.

const CDF_CASES: [(f64, f64); 5] = [
    (0.0, 0.5),
    (0.35, 0.636_830_651_175_619_1),
    (1.96, 0.975_002_104_851_779_5),
    (-1.0, 0.158_655_253_931_457_07),
    (0.15, 0.559_617_692_370_242_5),
];

#[test]
fn cdf_matches_scipy_to_1e14() {
    for (x, want) in CDF_CASES {
        assert!((norm_cdf(x) - want).abs() < 1e-14, "cdf({x})");
    }
}

#[test]
fn cdf_symmetry_and_saturation() {
    assert!((norm_cdf(3.0) + norm_cdf(-3.0) - 1.0).abs() < 1e-15);
    assert_eq!(norm_cdf(40.0), 1.0);
    assert_eq!(norm_cdf(-40.0), 0.0);
}

#[test]
fn inverse_matches_scipy_to_1e13() {
    let cases = [
        (0.975, 1.959_963_984_540_054),
        (0.9, 1.281_551_565_544_600_4),
        (0.999, 3.090_232_306_167_813),
        (1e-10, -6.361_340_902_404_056),
        (0.5, 0.0),
    ];
    for (p, want) in cases {
        assert!((norm_cdf_inv(p) - want).abs() < 1e-13, "ppf({p})");
    }
}

#[test]
fn cdf_inverse_roundtrip() {
    for i in 1..2000 {
        let p = f64::from(i) / 2000.0;
        let x = norm_cdf_inv(p);
        assert!((norm_cdf(x) - p).abs() < 1e-12, "roundtrip p={p}");
    }
}

#[test]
fn inverse_rejects_boundary() {
    assert!(norm_cdf_inv(0.0).is_nan());
    assert!(norm_cdf_inv(1.0).is_nan());
    assert!(norm_cdf_inv(-0.1).is_nan());
}

#[test]
fn pdf_peak_and_symmetry() {
    let inv_sqrt_tau = f(Num::of(slayer::dist::INV_SQRT_TAU));
    assert!((norm_pdf(0.0) - inv_sqrt_tau).abs() < 1e-16);
    assert!((norm_pdf(1.3) - norm_pdf(-1.3)).abs() < 1e-16);
    assert!((f(slayer::dist::norm_log_pdf(n(0.7))) - norm_pdf(0.7).ln()).abs() < 1e-12);
}

#[test]
fn cdf_of_nan_is_nan() {
    assert!(norm_cdf(f64::NAN).is_nan());
}

// First passage.

#[test]
fn touch_probability_properties() {
    assert_eq!(touch(100.0, 100.0, 0.2, 0.5, 0.0), 1.0);
    assert_eq!(touch(100.0, 110.0, 0.0, 0.5, 0.0), 0.0);
    assert_eq!(touch(100.0, 110.0, 0.2, 0.0, 0.0), 0.0);
    // Driftless closed form.
    let x: f64 = (110.0_f64 / 100.0_f64).ln();
    let closed = 2.0 * norm_cdf(-x.abs() / (0.2 * 0.25_f64.sqrt()));
    let p = touch(100.0, 110.0, 0.2, 0.25, 0.0);
    assert!((p - closed).abs() < 1e-12);
    // Touching dominates finishing beyond.
    let finish = expire(100.0, 110.0, 0.25, 0.2, true, 0.0, 0.0);
    assert!(p >= finish);
    // Positive drift raises the probability of touching an upper barrier.
    let up_drift = touch(100.0, 110.0, 0.2, 0.25, 0.08);
    assert!(up_drift > p);
}

#[test]
fn itm_probability_properties() {
    let atm = expire(100.0, 100.0, 0.25, 0.2, true, 0.0, 0.0);
    assert!((atm - norm_cdf(-0.05)).abs() < 1e-12);
    let call = expire(100.0, 105.0, 0.25, 0.2, true, 0.05, 0.0);
    let put = expire(100.0, 105.0, 0.25, 0.2, false, 0.05, 0.0);
    assert!((call + put - 1.0).abs() < 1e-12);
    assert_eq!(expire(100.0, 90.0, 0.0, 0.2, true, 0.05, 0.0), 1.0);
    assert_eq!(expire(100.0, 110.0, 0.0, 0.2, true, 0.05, 0.0), 0.0);
}

// Pricing.

fn atm() -> BsInputs {
    BsInputs {
        spot: n(100.0),
        strike: n(100.0),
        t_years: n(1.0),
        vol: n(0.2),
        rate: n(0.05),
        div_yield: n(0.0),
    }
}

fn priced(i: &BsInputs, right: OptionRight) -> f64 {
    f(bs_price(i, right).unwrap())
}

#[test]
fn call_and_put_match_scipy_oracle() {
    let c = priced(&atm(), OptionRight::Call);
    let p = priced(&atm(), OptionRight::Put);
    assert!((c - 10.450_583_572_185_565).abs() < 1e-12);
    assert!((p - 5.573_526_022_256_971).abs() < 1e-12);
}

#[test]
fn put_call_parity_holds_off_atm() {
    let inputs = BsInputs { strike: n(87.5), vol: n(0.34), div_yield: n(0.012), ..atm() };
    let c = priced(&inputs, OptionRight::Call);
    let p = priced(&inputs, OptionRight::Put);
    let parity = 100.0 * (-0.012_f64 * 1.0).exp() - 87.5 * (-0.05_f64 * 1.0).exp();
    assert!((c - p - parity).abs() < 1e-12);
}

#[test]
fn greeks_match_scipy_oracle() {
    let g = bs_greeks(&atm(), OptionRight::Call).unwrap();
    assert!((f(g.delta) - 0.636_830_651_175_619_1).abs() < 1e-12);
    assert!((f(g.gamma) - 0.018_762_017_345_846_895).abs() < 1e-12);
    assert!((f(g.vega) - 37.524_034_691_693_79).abs() < 1e-11);
    assert!((f(g.theta) - (-6.414_027_546_438_197)).abs() < 1e-11);
}

#[test]
fn greeks_match_finite_differences() {
    let bump_s = 1e-4;
    let bump_v = 1e-6;
    let bump_t = 1e-7;
    for right in [OptionRight::Call, OptionRight::Put] {
        let g = bs_greeks(&atm(), right).unwrap();
        let up = priced(&BsInputs { spot: n(100.0 + bump_s), ..atm() }, right);
        let dn = priced(&BsInputs { spot: n(100.0 - bump_s), ..atm() }, right);
        let mid = priced(&atm(), right);
        assert!((f(g.delta) - (up - dn) / (2.0 * bump_s)).abs() < 1e-6);
        assert!((f(g.gamma) - (up - 2.0 * mid + dn) / (bump_s * bump_s)).abs() < 1e-5);

        let vu = priced(&BsInputs { vol: n(0.2 + bump_v), ..atm() }, right);
        let vd = priced(&BsInputs { vol: n(0.2 - bump_v), ..atm() }, right);
        assert!((f(g.vega) - (vu - vd) / (2.0 * bump_v)).abs() < 1e-5);

        let tu = priced(&BsInputs { t_years: n(1.0 - bump_t), ..atm() }, right);
        assert!((f(g.theta) - (tu - mid) / bump_t).abs() < 1e-4);

        let gu = bs_greeks(&BsInputs { vol: n(0.2 + bump_v), ..atm() }, right).unwrap();
        let gd = bs_greeks(&BsInputs { vol: n(0.2 - bump_v), ..atm() }, right).unwrap();
        assert!((f(g.vanna) - (f(gu.delta) - f(gd.delta)) / (2.0 * bump_v)).abs() < 1e-5);

        let gt = bs_greeks(&BsInputs { t_years: n(1.0 - bump_t), ..atm() }, right).unwrap();
        assert!(
            (f(g.charm) - (f(gt.delta) - f(g.delta)) / bump_t).abs() < 1e-4,
            "charm {right:?}"
        );
    }
}

#[test]
fn implied_vol_roundtrips_across_surface() {
    for strike in [60.0, 85.0, 100.0, 120.0, 160.0] {
        for vol in [0.08, 0.2, 0.55, 1.4] {
            for t in [0.02, 0.25, 1.0, 2.0] {
                for right in [OptionRight::Call, OptionRight::Put] {
                    let inputs =
                        BsInputs { strike: n(strike), vol: n(vol), t_years: n(t), ..atm() };
                    let p = priced(&inputs, right);
                    let base = BsInputs { vol: n(0.0), ..inputs };
                    let intrinsic = priced(&base, right);
                    if p - intrinsic < 1e-6 {
                        // Without extrinsic value the price does not identify a vol.
                        continue;
                    }
                    let iv = f(implied_vol(n(p), &base, right).unwrap());
                    assert!(
                        (iv - vol).abs() < 1e-6,
                        "K={strike} vol={vol} t={t} {right:?}: got {iv}"
                    );
                }
            }
        }
    }
}

#[test]
fn implied_vol_rejects_arbitrage_violations() {
    let zero_vol = BsInputs { vol: n(0.0), ..atm() };
    assert!(implied_vol(n(1000.0), &zero_vol, OptionRight::Call).is_err());
    assert!(implied_vol(n(-1.0), &zero_vol, OptionRight::Call).is_err());
}

#[test]
fn expired_options_price_at_intrinsic() {
    let itm = BsInputs { t_years: n(0.0), strike: n(90.0), ..atm() };
    assert_eq!(priced(&itm, OptionRight::Call), 10.0);
    assert_eq!(priced(&itm, OptionRight::Put), 0.0);
}

#[test]
fn contracts_out_of_domain_are_errors() {
    let wrong = [
        BsInputs { spot: n(0.0), ..atm() },
        BsInputs { strike: n(-1.0), ..atm() },
        BsInputs { t_years: n(-0.1), ..atm() },
        BsInputs { vol: n(f64::NAN), ..atm() },
    ];
    for i in wrong {
        assert_eq!(
            bs_price(&i, OptionRight::Call),
            Err(QuantError::Domain("BsInputs out of domain"))
        );
    }
}

// Realized volatility.

fn gbm_candles(true_vol: f64, n_bars: usize, seed: u64, intra: usize) -> Vec<Candle> {
    let mut rng = ChaCha8Rng::seed_from_u64(seed);
    let dt = 1.0 / (252.0 * intra as f64);
    let step_vol = true_vol * dt.sqrt();
    let mut price = 100.0_f64;
    let mut out = Vec::with_capacity(n_bars);
    for bar in 0..n_bars {
        let open = price;
        let (mut high, mut low) = (open, open);
        for _ in 0..intra {
            let z: f64 = StandardNormal.sample(&mut rng);
            price *= (step_vol * z - 0.5 * step_vol * step_vol).exp();
            high = high.max(price);
            low = low.min(price);
        }
        out.push(Candle {
            ts: TsMillis(bar as u64),
            open: n(open),
            high: n(high),
            low: n(low),
            close: n(price),
            volume: n(0.0),
        });
    }
    out
}

fn all_estimates(candles: &Vec<Candle>, periods: f64) -> [Result<Num, QuantError>; 5] {
    let logs = bar_logs(candles);
    let p = n(periods);
    [
        close_to_close(candles, &logs, p),
        parkinson(candles, &logs, p),
        garman_klass(candles, &logs, p),
        rogers_satchell(candles, &logs, p),
        yang_zhang(candles, &logs, p),
    ]
}

#[test]
fn all_estimators_recover_gbm_vol() {
    let true_vol = 0.20;
    let candles = gbm_candles(true_vol, 2000, 7, 256);
    for (i, est) in all_estimates(&candles, 252.0).into_iter().enumerate() {
        let est = f(est.unwrap());
        let rel = (est - true_vol).abs() / true_vol;
        assert!(rel < 0.08, "estimator {i}: {est} vs {true_vol} (rel {rel:.3})");
    }
}

#[test]
fn flat_series_has_zero_vol() {
    let flat: Vec<Candle> = (0..10)
        .map(|i| Candle {
            ts: TsMillis(i),
            open: n(50.0),
            high: n(50.0),
            low: n(50.0),
            close: n(50.0),
            volume: n(0.0),
        })
        .collect();
    for est in all_estimates(&flat, 252.0) {
        assert_eq!(f(est.unwrap()), 0.0);
    }
}

#[test]
fn short_series_rejected() {
    let candles = gbm_candles(0.2, 2, 1, 256);
    let logs = bar_logs(&candles);
    assert!(matches!(
        close_to_close(&candles, &logs, n(252.0)),
        Err(QuantError::InsufficientData { needed: 3, got: 2 })
    ));
    assert!(parkinson(&candles, &logs, n(252.0)).is_ok());
}

#[test]
fn malformed_candles_rejected() {
    let mut candles = gbm_candles(0.2, 5, 2, 256);
    candles[2].high = n(f(candles[2].low) - 1.0);
    for est in all_estimates(&candles, 252.0) {
        assert_eq!(est, Err(QuantError::Domain("candle OHLC out of domain")));
    }
}

// Simulation.

fn base(n_paths: usize, antithetic: bool) -> GbmConfig {
    GbmConfig {
        spot: n(100.0),
        drift: n(0.05),
        vol: n(0.20),
        horizon_years: n(1.0),
        n_steps: 50,
        n_paths,
        seed: 424_242,
        sample_paths: 16,
        antithetic,
    }
}

#[test]
fn terminal_mean_matches_analytic() {
    let sim = simulate(&base(40_000, true)).unwrap();
    let (mean, analytic) = (f(sim.terminal.mean), f(sim.terminal.analytic_mean));
    let rel = (mean - analytic).abs() / analytic;
    assert!(rel < 0.01, "mean {mean} vs analytic {analytic} (rel {rel:.4})");
    assert!((analytic - 100.0 * 0.05_f64.exp()).abs() < 1e-9);
}

#[test]
fn percentile_bands_are_monotone() {
    let sim = simulate(&base(20_000, false)).unwrap();
    assert_eq!(sim.cone.len(), 51);
    for c in &sim.cone {
        assert!(f(c.p05) <= f(c.p25) + 1e-9);
        assert!(f(c.p25) <= f(c.p50) + 1e-9);
        assert!(f(c.p50) <= f(c.p75) + 1e-9);
        assert!(f(c.p75) <= f(c.p95) + 1e-9);
    }
    let first = &sim.cone[0];
    let last = &sim.cone[50];
    assert!((f(first.p95) - f(first.p05)).abs() < 1e-9);
    assert!(f(last.p95) - f(last.p05) > 1.0);
}

#[test]
fn monte_carlo_deterministic_for_fixed_seed() {
    let cfg = base(5_000, true);
    let a = simulate(&cfg).unwrap();
    let b = simulate(&cfg).unwrap();
    assert_eq!(a, b);
}

#[test]
fn different_seed_changes_paths() {
    let a = simulate(&base(2_000, false)).unwrap();
    let mut cfg = base(2_000, false);
    cfg.seed = 999;
    let b = simulate(&cfg).unwrap();
    assert_ne!(a.sample_paths, b.sample_paths);
}

#[test]
fn zero_vol_collapses_to_deterministic_growth() {
    let mut cfg = base(1_000, false);
    cfg.vol = n(0.0);
    let sim = simulate(&cfg).unwrap();
    let expected = 100.0 * (0.05_f64 * 1.0).exp();
    assert!(f(sim.terminal.std_dev) < 1e-9);
    for c in &sim.cone {
        assert!((f(c.p05) - f(c.p95)).abs() < 1e-9);
    }
    assert!((f(sim.terminal.mean) - expected).abs() < 1e-9);
}

#[test]
fn counts_and_samples_are_clamped() {
    let cfg = GbmConfig {
        spot: n(50.0),
        drift: n(0.0),
        vol: n(0.3),
        horizon_years: n(0.5),
        n_steps: 0,
        n_paths: 0,
        seed: 7,
        sample_paths: 999,
        antithetic: false,
    };
    let sim = simulate(&cfg).unwrap();
    assert_eq!(sim.cone.len(), 2);
    assert_eq!(sim.sample_paths.len(), 1);
    assert_eq!(sim.sample_paths[0].len(), 2);
}

#[test]
fn monte_carlo_rejects_bad_domain() {
    let mut cfg = base(100, false);
    cfg.spot = n(0.0);
    assert!(simulate(&cfg).is_err());
    let mut cfg = base(100, false);
    cfg.horizon_years = n(0.0);
    assert!(simulate(&cfg).is_err());
    let mut cfg = base(100, false);
    cfg.vol = n(-0.1);
    assert!(simulate(&cfg).is_err());
}

#[test]
fn antithetic_paths_share_their_draws() {
    let cfg = GbmConfig { n_steps: 1, n_paths: 3, ..base(3, true) };
    assert_eq!(cfg.draws_per_step(), 2);
    let z = vec![n(0.5), n(-1.0)];
    let e = slayer::monte_carlo::gbm_exponents(&cfg, &z);
    let drift = (0.05 - 0.5 * 0.2 * 0.2) * 1.0;
    assert_eq!(e, ns(&[drift + 0.2 * 0.5, drift - 0.2 * 0.5, drift + 0.2 * -1.0]));
}

// Risk-neutral density.

const EXPIRY: ExpiryDate = ExpiryDate { year: 2026, month: 8, day: 21 };

fn lognormal_call_chain(
    spot: f64,
    sigma: f64,
    t: f64,
    r: f64,
    strikes: &[f64],
) -> Vec<OptionQuote> {
    strikes
        .iter()
        .map(|&k| {
            let p = bs_price(
                &BsInputs {
                    spot: n(spot),
                    strike: n(k),
                    t_years: n(t),
                    vol: n(sigma),
                    rate: n(r),
                    div_yield: n(0.0),
                },
                OptionRight::Call,
            )
            .unwrap();
            OptionQuote {
                strike: n(k),
                right: OptionRight::Call,
                expiry: EXPIRY,
                bid: Some(p),
                ask: Some(p),
                volume: 0,
                open_interest: 0,
                iv: None,
                greeks: None,
            }
        })
        .collect()
}

fn strikes(spot: f64, lo_frac: f64, hi_frac: f64, count: usize) -> Vec<f64> {
    (0..count)
        .map(|i| {
            let frac = lo_frac + (hi_frac - lo_frac) * i as f64 / (count - 1) as f64;
            spot * frac
        })
        .collect()
}

fn trapz(ys: &[f64], step: f64) -> f64 {
    ys.windows(2).map(|w| 0.5 * (w[0] + w[1]) * step).sum()
}

#[test]
fn density_integrates_to_one() {
    let ks = strikes(100.0, 0.85, 1.15, 31);
    let chain = lognormal_call_chain(100.0, 0.20, 30.0 / 365.0, 0.03, &ks);
    let rnd = implied_rnd(&chain, 100.0, 30.0 / 365.0, 0.03).unwrap();
    let dens: Vec<f64> = rnd.points.iter().map(|p| f(p.density)).collect();
    let step = f(rnd.points[1].strike) - f(rnd.points[0].strike);
    let integral = trapz(&dens, step);
    assert!((integral - 1.0).abs() < 1e-9, "integral = {integral}");
}

#[test]
fn cdf_is_monotone_and_bounded() {
    let ks = strikes(100.0, 0.85, 1.15, 31);
    let chain = lognormal_call_chain(100.0, 0.25, 45.0 / 365.0, 0.04, &ks);
    let rnd = implied_rnd(&chain, 100.0, 45.0 / 365.0, 0.04).unwrap();
    let mut prev = -1.0;
    for pt in &rnd.points {
        let cdf = f(pt.cdf);
        assert!(cdf >= prev - 1e-12, "cdf not monotone at K={}", f(pt.strike));
        assert!((0.0..=1.0 + 1e-9).contains(&cdf));
        assert!(f(pt.density) >= 0.0, "negative density at K={}", f(pt.strike));
        prev = cdf;
    }
    assert!((f(rnd.points.last().unwrap().cdf) - 1.0).abs() < 1e-9);
}

#[test]
fn lognormal_roundtrip_recovers_closed_form_percentiles() {
    let spot = 100.0;
    let sigma = 0.20;
    let t: f64 = 30.0 / 365.0;
    let r = 0.03;
    let ks = strikes(spot, 0.85, 1.15, 31);
    let chain = lognormal_call_chain(spot, sigma, t, r, &ks);
    let rnd = implied_rnd(&chain, spot, t, r).unwrap();
    let closed = |p: f64| -> f64 {
        let z = norm_cdf_inv(p);
        spot * ((r - 0.5 * sigma * sigma) * t + sigma * t.sqrt() * z).exp()
    };
    let got = [
        rnd.percentiles.p05,
        rnd.percentiles.p25,
        rnd.percentiles.p50,
        rnd.percentiles.p75,
        rnd.percentiles.p95,
    ];
    for (p, &g) in [0.05, 0.25, 0.50, 0.75, 0.95].iter().zip(got.iter()) {
        let (g, want) = (f(g), closed(*p));
        assert!((g - want).abs() < 0.01 * spot, "p{}: got {g}, want {want}", (p * 100.0) as i32);
    }
    let fwd = spot * (r * t).exp();
    let mean = f(rnd.mean);
    assert!((mean - fwd).abs() < 0.02 * spot, "mean {mean} vs fwd {fwd}");
}

#[test]
fn near_lognormal_is_not_fat_tailed() {
    let ks = strikes(100.0, 0.85, 1.15, 31);
    let chain = lognormal_call_chain(100.0, 0.18, 30.0 / 365.0, 0.03, &ks);
    let rnd = implied_rnd(&chain, 100.0, 30.0 / 365.0, 0.03).unwrap();
    assert!(f(rnd.excess_kurtosis).abs() < f(Num::of(FAT_TAIL_KURTOSIS_THRESHOLD)));
    assert!(!rnd.fat_tail.state.is_active());
    assert_eq!(rnd.fat_tail.score, rnd.excess_kurtosis);
}

#[test]
fn prob_below_and_above_partition_unity() {
    let ks = strikes(100.0, 0.85, 1.15, 31);
    let chain = lognormal_call_chain(100.0, 0.22, 60.0 / 365.0, 0.05, &ks);
    let rnd = implied_rnd(&chain, 100.0, 60.0 / 365.0, 0.05).unwrap();
    let (below, above) = (f(rnd.prob_below_spot), f(rnd.prob_above_spot));
    assert!((below + above - 1.0).abs() < 1e-12);
    assert!(below > 0.0 && below < 1.0);
}

#[test]
fn thin_chain_errors_never_fabricates() {
    let ks = strikes(100.0, 0.95, 1.05, 3);
    let chain = lognormal_call_chain(100.0, 0.20, 30.0 / 365.0, 0.03, &ks);
    assert!(matches!(
        implied_rnd(&chain, 100.0, 30.0 / 365.0, 0.03),
        Err(QuantError::InsufficientData { needed: RND_MIN_CHAIN_SIZE, got: 3 })
    ));
}

#[test]
fn rnd_rejects_bad_domain() {
    let ks = strikes(100.0, 0.85, 1.15, 31);
    let chain = lognormal_call_chain(100.0, 0.20, 30.0 / 365.0, 0.03, &ks);
    assert!(implied_rnd(&chain, -1.0, 0.1, 0.03).is_err());
    assert!(implied_rnd(&chain, 100.0, 0.0, 0.03).is_err());
    assert!(implied_rnd(&chain, 100.0, 0.1, f64::NAN).is_err());
}

// Volatility metrics.

const PERIODS: f64 = 252.0;

fn cone(
    candles: &Vec<Candle>,
    windows: &[usize],
    estimator: RvEstimator,
) -> Result<VolCone, QuantError> {
    let logs = bar_logs(candles);
    slayer::vol_metrics::vol_cone(candles, &windows.to_vec(), n(PERIODS), estimator, &logs)
}

#[test]
fn cone_is_ordered_and_recovers_vol() {
    let candles = gbm_candles(0.20, 400, 11, 128);
    let cone = cone(&candles, &VOL_CONE_WINDOWS, RvEstimator::YangZhang).unwrap();
    assert_eq!(cone.windows.len(), VOL_CONE_WINDOWS.len());
    for w in &cone.windows {
        let (min, p25, median) = (f(w.min), f(w.p25), f(w.median));
        let (p75, max, current) = (f(w.p75), f(w.max), f(w.current));
        assert!(min <= p25 + 1e-12);
        assert!(p25 <= median + 1e-12);
        assert!(median <= p75 + 1e-12);
        assert!(p75 <= max + 1e-12);
        assert!(current >= min - 1e-12 && current <= max + 1e-12);
        assert!(w.sample_count >= VOL_CONE_MIN_SAMPLES);
        assert!((median - 0.20).abs() < 0.06, "window {} median {median}", w.window);
    }
}

#[test]
fn cone_omits_windows_without_history() {
    let candles = gbm_candles(0.2, 8, 3, 128);
    let cone = cone(&candles, &VOL_CONE_WINDOWS, RvEstimator::Parkinson).unwrap();
    assert_eq!(cone.windows.len(), 1);
    assert_eq!(cone.windows[0].window, 5);
}

#[test]
fn cone_propagates_malformed_candles() {
    let mut candles = gbm_candles(0.2, 40, 4, 128);
    candles[10].high = n(f(candles[10].low) - 1.0);
    assert!(matches!(
        cone(&candles, &[5], RvEstimator::GarmanKlass),
        Err(QuantError::Domain(_))
    ));
}

#[test]
fn iv_rank_and_percentile_are_honest() {
    let history = ns(&[0.10, 0.20, 0.30, 0.40, 0.50]);
    let m = iv_metrics(n(0.30), &history);
    assert!((f(m.rank.unwrap()) - 0.5).abs() < 1e-9);
    assert!((f(m.percentile.unwrap()) - 0.4).abs() < 1e-9);
    assert_eq!(m.history_len, 5);

    let hi = iv_metrics(n(0.60), &history);
    assert_eq!(hi.rank, Some(n(1.0)));
    assert_eq!(hi.percentile, Some(n(1.0)));
}

#[test]
fn iv_metrics_abstain_only_without_history_or_spread() {
    let history = ns(&[0.10, 0.20]);
    for (iv, rank, percentile) in [
        (0.0, 0.0, 0.0),
        (-0.3, 0.0, 0.0),
        (f64::INFINITY, 1.0, 1.0),
        (0.15, 0.5, 0.5),
    ] {
        let m = iv_metrics(n(iv), &history);
        assert_eq!(m.history_len, 2);
        assert_eq!(m.percentile.map(f), Some(percentile));
        assert!((m.rank.map(f).unwrap() - rank).abs() < 1e-12);
    }
    // A vol that is not a number has no rank, and none lies below it.
    let m = iv_metrics(n(f64::NAN), &history);
    assert_eq!(m.rank, None);
    assert_eq!(m.percentile.map(f), Some(0.0));
}

#[test]
fn iv_metrics_abstain_without_history() {
    let empty = iv_metrics(n(0.25), &vec![]);
    assert_eq!(empty.rank, None);
    assert_eq!(empty.percentile, None);

    let single = iv_metrics(n(0.25), &ns(&[0.25]));
    assert_eq!(single.rank, None);
    assert_eq!(single.percentile, None);

    let flat = iv_metrics(n(0.30), &ns(&[0.30, 0.30, 0.30]));
    assert_eq!(flat.rank, None);
    assert_eq!(flat.percentile, Some(n(0.0)));
}

fn smile_chain(spot: f64, atm: f64, slope: f64, curv: f64, t: f64, r: f64) -> Vec<OptionQuote> {
    let mut out = Vec::new();
    for i in 0..41 {
        let frac = 0.80 + 0.40 * i as f64 / 40.0;
        let k = spot * frac;
        let x = (k / spot).ln();
        let iv = (atm - slope * x + curv * x * x).max(0.02);
        for right in [OptionRight::Call, OptionRight::Put] {
            let p = bs_price(
                &BsInputs {
                    spot: n(spot),
                    strike: n(k),
                    t_years: n(t),
                    vol: n(iv),
                    rate: n(r),
                    div_yield: n(0.0),
                },
                right,
            )
            .unwrap();
            out.push(OptionQuote {
                strike: n(k),
                right,
                expiry: ExpiryDate { year: 2026, month: 9, day: 18 },
                bid: Some(p),
                ask: Some(p),
                volume: 0,
                open_interest: 0,
                iv: Some(n(iv)),
                greeks: None,
            });
        }
    }
    out
}

#[test]
fn put_skew_has_negative_rr_and_slope() {
    let chain = smile_chain(100.0, 0.20, 0.6, 0.8, 0.25, 0.03);
    let s = skew(&chain, 100.0, 0.25, 0.03).unwrap();
    assert!(s.call_25d_iv.is_some() && s.put_25d_iv.is_some());
    assert!(f(s.risk_reversal_25d.unwrap()) < 0.0, "rr {:?}", s.risk_reversal_25d);
    assert!(f(s.butterfly_25d.unwrap()) > 0.0, "bf {:?}", s.butterfly_25d);
    assert!(f(s.skew_slope.unwrap()) < 0.0, "slope {:?}", s.skew_slope);
    assert!((f(s.atm_iv) - 0.20).abs() < 0.02);
}

#[test]
fn flat_smile_has_zero_skew() {
    let chain = smile_chain(100.0, 0.20, 0.0, 0.0, 0.25, 0.03);
    let s = skew(&chain, 100.0, 0.25, 0.03).unwrap();
    assert!(f(s.risk_reversal_25d.unwrap()).abs() < 1e-6);
    assert!(f(s.butterfly_25d.unwrap()).abs() < 1e-6);
    assert!(f(s.skew_slope.unwrap()).abs() < 1e-6);
}

#[test]
fn skew_rejects_empty_and_bad_domain() {
    assert!(matches!(
        skew(&vec![], 100.0, 0.25, 0.03),
        Err(QuantError::InsufficientData { .. })
    ));
    let chain = smile_chain(100.0, 0.20, 0.0, 0.0, 0.25, 0.03);
    assert!(skew(&chain, 0.0, 0.25, 0.03).is_err());
    assert!(skew(&chain, 100.0, -1.0, 0.03).is_err());
}

#[test]
fn vrp_is_iv_minus_rv() {
    assert!((f(vol_risk_premium(n(0.25), n(0.18))) - 0.07).abs() < 1e-15);
    assert!(f(vol_risk_premium(n(0.15), n(0.20))) < 0.0);
}

#[test]
fn parity_holds_over_strikes_and_vols() {
    for strike in [40.0, 75.0, 99.5, 100.0, 130.0, 400.0] {
        for vol in [0.05, 0.2, 0.9] {
            let i = BsInputs { strike: n(strike), vol: n(vol), div_yield: n(0.01), ..atm() };
            let t = bs_terms(&i);
            let s = 100.0 * f(t.disc_yield);
            let k = strike * f(t.disc_rate);
            let gap = priced(&i, OptionRight::Call) - priced(&i, OptionRight::Put) - (s - k);
            assert!(gap.abs() <= 8.0 * f64::EPSILON * (s + k));
        }
    }
}

#[test]
fn greeks_of_calls_and_puts_are_related() {
    for (strike, q) in [(60.0, 0.03), (100.0, 0.0), (130.0, -0.02)] {
        let c = BsInputs { strike: n(strike), div_yield: n(q), ..atm() };
        let call = bs_greeks(&c, OptionRight::Call).unwrap();
        let put = bs_greeks(&c, OptionRight::Put).unwrap();
        let w = (-q * f(c.t_years)).exp();
        assert_eq!((call.gamma, call.vega, call.vanna), (put.gamma, put.vega, put.vanna));
        assert!(f(call.gamma) > 0.0 && f(call.vega) > 0.0);
        assert!((f(call.delta) - f(put.delta) - w).abs() < 1e-14);
        assert!((f(call.charm) - f(put.charm) - w * q).abs() < 1e-14);
    }
}

#[test]
fn a_search_is_followed_along_its_terms() {
    let trace = search_trace(n(10.0), &atm(), OptionRight::Call);
    let found = slayer::black_scholes::follow_search(n(10.0), &atm(), OptionRight::Call, &trace);
    assert_eq!(found, implied_vol(n(10.0), &atm(), OptionRight::Call).ok());
    let short = trace[..2].to_vec();
    let open = slayer::black_scholes::follow_search(n(10.0), &atm(), OptionRight::Call, &short);
    assert_eq!(open, None);
}

#[test]
fn an_implied_vol_gives_its_price_back() {
    for price in [6.0, 10.0, 25.0, 60.0] {
        let vol = implied_vol(n(price), &atm(), OptionRight::Call).unwrap();
        assert!((priced(&BsInputs { vol, ..atm() }, OptionRight::Call) - price).abs() < 1e-10);
    }
}

#[test]
fn an_implied_vol_search_stays_in_its_bracket() {
    for price in [1e-6, 0.5, 10.0, 60.0, 95.0] {
        if let Ok(v) = implied_vol(n(price), &atm(), OptionRight::Call) {
            assert!((1e-4..=5.0).contains(&f(v)));
        }
    }
}

#[test]
fn an_implied_vol_beyond_the_tolerance_gives_its_price_back() {
    // Prices of this size are coarser than the tolerance, so that the search
    // may end at the last middle.
    let big = BsInputs { spot: n(1e9), strike: n(1.03e9), ..atm() };
    for vol in [0.05, 0.1234567, 0.3, 0.77, 1.9] {
        let price = priced(&BsInputs { vol: n(vol), ..big }, OptionRight::Call);
        for off in [-0.3e-6, 0.0, 0.4e-6] {
            let market = price + off;
            let found = implied_vol(n(market), &big, OptionRight::Call).unwrap();
            assert!((1e-4..=5.0).contains(&f(found)));
            let back = priced(&BsInputs { vol: found, ..big }, OptionRight::Call);
            assert!((back - market).abs() <= 1e-8 * 1e9);
        }
    }
}

#[test]
fn a_simulation_starts_at_spot() {
    let sim = simulate(&base(64, true)).unwrap();
    let first = &sim.cone[0];
    for level in [first.p05, first.p25, first.p50, first.p75, first.p95] {
        assert_eq!(level, n(100.0));
    }
    assert_eq!(sim.sample_paths.len(), 16);
    for path in &sim.sample_paths {
        assert_eq!(path.len(), 51);
        assert_eq!(path[0], n(100.0));
    }
}
