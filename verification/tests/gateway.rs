//! Calendar, configuration, market book, published frames, synthetic feed and
//! snapshot pipeline.

use rand::{Rng, SeedableRng};
use rand_chacha::ChaCha12Rng;
use slayer::black_scholes::{BsGreeks, BsInputs, BsTerms};
use slayer::book::{MarketBook, CANDLE_CAPACITY};
use slayer::calendar::{
    civil_from_days, days_from_civil, years_to_expiry, FIRST_DAY, LAST_DAY, MIN_T_YEARS, MS_PER_DAY,
};
use slayer::config::{parse_u64, parse_universe, ConfigError, FeedKind, GatewayConfig, DEFAULT_SEED};
use slayer::frames::{
    replay_body, replay_count, session_step, FrameStore, Reply, SessionAction, SessionEvent,
    REPLAY_DEPTH,
};
use slayer::dealer::BiasDirection;
use slayer::gex::{ExposureScores, GexParams};
use slayer::market::{
    BarInterval, Candle, ExpiryDate, MarketEvent, OptionChain, OptionQuote, OptionRight, SpotQuote,
    Symbol, TsMillis,
};
use slayer::num::Num;
use slayer::pipeline::{
    aggregate_oi, atm_iv, nearest_expiry, regime_label, signed_intensity, strike_key, ChainTerms,
    ComposeTerms, PipelineState, MIN_CANDLES,
};
use slayer::realized_vol::BarRatios;
use slayer::regime::{HurstPoint, RegimeLabel, RegimeTerms};
use slayer::rnd::{NodeTerms, RndSetup, RndTerms, StrikeTerms, RND_NODES, RND_SMOOTH_HALF_WINDOW};
use slayer::state::BinaryState;
use slayer::synthetic::{
    stream_seed, FeedError, QuoteTerms, Schedule, SymState, SyntheticConfig, SyntheticSymbol,
    INTRA_STEPS_PER_BAR, JITTER_MAX, JITTER_MIN, MIN_TICK, STRIKES, STRIKES_PER_SIDE,
};
use slayer::thesis::ScoreTerms;
use slayer::wire::{Metric, TerminalSnapshot, WireFrame, WIRE_VERSION};
use slayer::zones::GravityConfig;

fn n(x: f64) -> Num {
    Num::of(x.to_bits())
}

fn f(x: Num) -> f64 {
    f64::from_bits(x.bits)
}

fn ns(v: &[f64]) -> Vec<Num> {
    v.iter().map(|&x| n(x)).collect()
}

fn exp(x: Num) -> Num {
    n(f(x).exp())
}

fn ln(x: Num) -> Num {
    n(f(x).ln())
}

fn tanh(x: Num) -> Num {
    n(f(x).tanh())
}

fn gauss(x: Num) -> Num {
    exp(slayer::dist::gauss_arg(x))
}

fn bs_terms(i: &BsInputs) -> BsTerms {
    let ln_moneyness = ln(i.moneyness());
    let (d1, d2) = i.d1_d2(ln_moneyness);
    BsTerms {
        ln_moneyness,
        exp_d1: gauss(d1),
        exp_d2: gauss(d2),
        disc_rate: exp(i.rate_exponent()),
        disc_yield: exp(i.yield_exponent()),
        growth: exp(i.carry_exponent()),
    }
}

fn no_terms() -> BsTerms {
    BsTerms {
        ln_moneyness: n(0.0),
        exp_d1: n(0.0),
        exp_d2: n(0.0),
        disc_rate: n(0.0),
        disc_yield: n(0.0),
        growth: n(0.0),
    }
}

fn search_trace(price: Num, base: &BsInputs, right: OptionRight) -> Vec<BsTerms> {
    let mut trace = Vec::new();
    if let Ok(mut search) = slayer::black_scholes::implied_vol(price, base) {
        while let Some(vol) = search.probe() {
            let terms = bs_terms(&BsInputs { vol, ..*base });
            search = search.advance(price, base, right, &terms);
            trace.push(terms);
        }
    }
    trace
}

fn bar_logs(candles: &Vec<Candle>) -> Vec<BarRatios> {
    slayer::realized_vol::candle_ratios(candles)
        .iter()
        .map(|r| BarRatios {
            high_low: ln(r.high_low),
            close_open: ln(r.close_open),
            high_close: ln(r.high_close),
            high_open: ln(r.high_open),
            low_close: ln(r.low_close),
            low_open: ln(r.low_open),
            close_prev: ln(r.close_prev),
            open_prev: ln(r.open_prev),
        })
        .collect()
}

fn search_traces(quotes: &[OptionQuote], spot: Num, t: Num, rate: Num) -> Vec<Vec<BsTerms>> {
    quotes
        .iter()
        .map(|q| match slayer::rnd::vol_wanted(q, spot, t, rate) {
            Some((mid, base)) => search_trace(mid, &base, q.right),
            None => Vec::new(),
        })
        .collect()
}

fn strike_terms(setup: &RndSetup, k: Num) -> StrikeTerms {
    let log = ln(k / setup.spot);
    StrikeTerms { log, call: bs_terms(&setup.call_inputs(k, log)) }
}

fn rnd_terms(
    quotes: &Vec<OptionQuote>,
    spot: Num,
    t: Num,
    rate: Num,
    solved: &Vec<Option<Num>>,
) -> RndTerms {
    let smile = slayer::rnd::smile_points(quotes, solved);
    let smile_logs: Vec<Num> = smile.iter().map(|p| ln(p.strike / spot)).collect();
    let blank = StrikeTerms {
        log: n(0.0),
        call: no_terms(),
    };
    let nodes = match slayer::rnd::rnd_setup(&smile, &smile_logs, spot, t, rate) {
        Ok(setup) => (0..RND_NODES)
            .map(|i| {
                let (up, at, down) = setup.grid.stencil(i);
                NodeTerms {
                    up: strike_terms(&setup, up),
                    at: strike_terms(&setup, at),
                    down: strike_terms(&setup, down),
                }
            })
            .collect(),
        Err(_) => vec![NodeTerms { up: blank, at: blank, down: blank }; RND_NODES],
    };
    let weights = (0..=RND_SMOOTH_HALF_WINDOW)
        .map(|k| exp(slayer::rnd::weight_exponent(k)))
        .collect();
    RndTerms {
        smile_logs,
        nodes,
        discount: exp(slayer::rnd::discount_exponent(t, rate)),
        weights,
    }
}

fn score_terms(candles: &Vec<Candle>, dir: Num, atr_fallback: Num) -> ScoreTerms {
    match slayer::thesis::score_args(candles, dir, atr_fallback) {
        Some(a) => ScoreTerms {
            momentum_tanh: tanh(a.momentum_point),
            vwap_exp: match a.vwap_point {
                Some(z) => exp(slayer::thesis::vwap_exponent(ln(z))),
                None => n(0.0),
            },
        },
        None => ScoreTerms { momentum_tanh: n(0.0), vwap_exp: n(0.0) },
    }
}

fn kernel_terms(chain: &OptionChain, params: &GexParams) -> Vec<BsTerms> {
    chain
        .quotes
        .iter()
        .map(|q| match slayer::gex::kernel_inputs(q, chain.spot, params) {
            Some(c) => bs_terms(&c),
            None => no_terms(),
        })
        .collect()
}

fn exposure_scores(
    chain: &OptionChain,
    params: &GexParams,
    kernel: &Vec<Option<BsGreeks>>,
) -> ExposureScores {
    let at = |p: Option<Num>| p.map_or(n(0.0), tanh);
    match slayer::gex::exposure_args(chain, params, kernel) {
        Ok((gex, dex, vex)) => ExposureScores { gex: at(gex), dex: at(dex), vex: at(vex) },
        Err(_) => ExposureScores { gex: n(0.0), dex: n(0.0), vex: n(0.0) },
    }
}

fn log_returns(prices: &Vec<Num>) -> Vec<Num> {
    slayer::regime::return_ratios(prices).into_iter().map(ln).collect()
}

fn hurst_logs(log_rets: &Vec<Num>) -> Vec<HurstPoint> {
    slayer::regime::hurst_points(log_rets)
        .iter()
        .map(|p| HurstPoint {
            window: ln(p.window),
            observed: ln(p.observed),
            expected: ln(p.expected),
        })
        .collect()
}

fn regime_exps(log_rets: &Vec<Num>, hurst: Num) -> (Num, Num, Num) {
    match slayer::regime::regime_exponents(log_rets, hurst) {
        Some((a, b, c)) => (exp(a), exp(b), exp(c)),
        None => (n(0.0), n(0.0), n(0.0)),
    }
}

fn ln_phi(series: &Vec<Num>) -> Num {
    slayer::regime::ou_phi(series).map_or(n(0.0), ln)
}

fn regime_terms(candles: &Vec<Candle>) -> RegimeTerms {
    let closes = slayer::regime::closes(candles);
    let log_rets = log_returns(&closes);
    let hurst = hurst_logs(&log_rets);
    let h = slayer::regime::hurst_exponent(&log_rets, &hurst);
    RegimeTerms {
        exps: regime_exps(&log_rets, h),
        ln_phi: ln_phi(&closes),
        bars: bar_logs(candles),
        log_rets,
        hurst,
    }
}

fn chain_terms(chain: &OptionChain, spot: Num) -> ChainTerms {
    let t = slayer::pipeline::chain_tenor(chain);
    let params = slayer::pipeline::chain_params(t);
    let rate = params.rate;
    let kernel = kernel_terms(chain, &params);
    let greeks = slayer::gex::kernel_greeks(chain, &params, &kernel);
    let scores = exposure_scores(chain, &params, &greeks);
    let config = GravityConfig::default();
    let proximity = chain
        .quotes
        .iter()
        .map(|q| exp(slayer::zones::proximity_arg(q.strike, spot, &config)))
        .collect();
    let traces = search_traces(&chain.quotes, spot, t, rate);
    let solved = slayer::rnd::solved_vols(&chain.quotes, spot, t, rate, &traces);
    let rnd = rnd_terms(&chain.quotes, spot, t, rate, &solved);
    ChainTerms { kernel, scores, proximity, traces, rnd }
}

fn compose_terms(
    candles: &Vec<Candle>,
    chain: Option<&OptionChain>,
    spot: Num,
) -> ComposeTerms {
    let fallback = slayer::pipeline::atr_fallback(spot);
    ComposeTerms {
        long: score_terms(candles, Num::of(slayer::thesis::DIR_LONG), fallback),
        short: score_terms(candles, Num::of(slayer::thesis::DIR_SHORT), fallback),
        regime: regime_terms(candles),
        chain: chain.map(|c| chain_terms(c, spot)),
    }
}

fn sample_normal(rng: &mut ChaCha12Rng) -> Num {
    let u1: f64 = rng.random_range(f64::MIN_POSITIVE..1.0);
    let u2: f64 = rng.random_range(0.0..1.0);
    let angle = slayer::synthetic::normal_angle(n(u2));
    slayer::synthetic::normal_draw(ln(n(u1)), n(f(angle).cos()))
}

fn advance(state: &mut SymState, rng: &mut ChaCha12Rng) {
    let normals: Vec<Num> = (0..INTRA_STEPS_PER_BAR).map(|_| sample_normal(rng)).collect();
    let growth: Vec<Num> = state.step_exponents(&normals).into_iter().map(exp).collect();
    let vz = sample_normal(rng);
    state.step(&normals, &growth, vz);
}

fn quote_terms(state: &SymState, rng: &mut ChaCha12Rng) -> Vec<QuoteTerms> {
    let jitters = f(Num::of(JITTER_MIN))..f(Num::of(JITTER_MAX));
    let blank = BsInputs {
        spot: n(1.0),
        strike: n(1.0),
        t_years: n(1.0),
        vol: n(1.0),
        rate: n(0.0),
        div_yield: n(0.0),
    };
    let mut terms = Vec::with_capacity(2 * STRIKES);
    for offset in -STRIKES_PER_SIDE..=STRIKES_PER_SIDE {
        for right in [OptionRight::Call, OptionRight::Put] {
            let inputs = state.quote_inputs(offset, right);
            let jitter = match inputs {
                Some(_) => rng.random_range(jitters.clone()),
                None => 1.0,
            };
            terms.push(QuoteTerms {
                bs: bs_terms(&inputs.unwrap_or(blank)),
                hump: exp(SymState::hump_exponent(offset, right)),
                turnover: exp(state.turnover_exponent(offset)),
                jitter: n(jitter),
            });
        }
    }
    terms
}

fn sym(s: &str) -> Symbol {
    Symbol::new(s).unwrap()
}

// Calendar.

#[test]
fn known_epoch_day_counts() {
    assert_eq!(days_from_civil(1970, 1, 1), 0);
    assert_eq!(days_from_civil(1970, 1, 2), 1);
    assert_eq!(days_from_civil(2000, 1, 1), 10_957);
}

#[test]
fn one_year_out_is_about_one() {
    let now = TsMillis(days_from_civil(2026, 1, 1) as u64 * MS_PER_DAY as u64);
    let t = f(years_to_expiry(now, ExpiryDate { year: 2027, month: 1, day: 1 }));
    assert!((t - 1.0).abs() < 1e-9, "got {t}");
}

#[test]
fn past_expiry_floors() {
    let now = TsMillis(days_from_civil(2027, 1, 1) as u64 * MS_PER_DAY as u64);
    let t = years_to_expiry(now, ExpiryDate { year: 2026, month: 1, day: 1 });
    assert_eq!(t, Num::of(MIN_T_YEARS));
}

#[test]
fn dates_and_day_counts_are_inverse() {
    for (y, m, d) in [(1969, 12, 31), (1970, 1, 1), (2000, 2, 29), (2026, 7, 17), (2100, 3, 1)] {
        let date = civil_from_days(days_from_civil(y, m, d));
        assert_eq!((i64::from(date.year), u32::from(date.month), u32::from(date.day)), (y, m, d));
    }
}

#[test]
fn days_and_their_dates_are_inverse() {
    for z in (FIRST_DAY..=LAST_DAY).step_by(9_973).chain([FIRST_DAY, -1, 0, 59, LAST_DAY]) {
        let d = civil_from_days(z);
        assert_eq!(days_from_civil(i64::from(d.year), u32::from(d.month), u32::from(d.day)), z);
    }
    let (first, last) = (civil_from_days(FIRST_DAY), civil_from_days(LAST_DAY));
    assert_eq!((first.year, first.month, first.day), (0, 1, 1));
    assert_eq!((last.year, last.month, last.day), (65_535, 12, 31));
}

// Configuration.

fn resolve(
    bind: Option<&str>,
    bind_ok: bool,
    universe: Option<&str>,
    seed: Option<&str>,
) -> Result<GatewayConfig, ConfigError> {
    GatewayConfig::resolve(
        bind.map(str::to_owned),
        bind_ok,
        universe.map(str::to_owned),
        seed.map(str::to_owned),
    )
}

#[test]
fn defaults_resolve() {
    let cfg = resolve(None, true, None, None).unwrap();
    assert!(cfg.bind.ends_with(":8787"));
    assert_eq!(cfg.universe.len(), 2);
    assert_eq!(cfg.feed, FeedKind::Synthetic { seed: DEFAULT_SEED });
}

#[test]
fn settings_override_defaults() {
    let cfg = resolve(Some("0.0.0.0:1"), true, Some(" qqq ,, brk.b,"), Some("+42")).unwrap();
    assert_eq!(cfg.bind, "0.0.0.0:1");
    assert_eq!(cfg.universe, vec![sym("QQQ"), sym("BRK.B")]);
    assert_eq!(cfg.feed, FeedKind::Synthetic { seed: 42 });
}

#[test]
fn wrong_settings_are_errors_in_order() {
    let all = resolve(Some("nowhere"), false, Some("$"), Some("x")).unwrap_err();
    assert_eq!(all, ConfigError::Bind("nowhere".to_owned()));
    assert_eq!(all.message(), "invalid SLAYER_BIND: nowhere");
    let two = resolve(None, true, Some("SPX, b d ,$"), Some("x")).unwrap_err();
    assert_eq!(two, ConfigError::Universe(" b d ".to_owned()));
    assert_eq!(two.message(), "invalid SLAYER_UNIVERSE entry:  b d ");
    let none = resolve(None, true, Some(" , "), None).unwrap_err();
    assert_eq!(none, ConfigError::Universe("(empty)".to_owned()));
    let seed = resolve(None, true, None, Some("-1")).unwrap_err();
    assert_eq!(seed.message(), "invalid SLAYER_SEED: -1");
}

#[test]
fn seeds_are_read_to_the_last_number() {
    assert_eq!(parse_u64("18446744073709551615"), Some(u64::MAX));
    assert_eq!(parse_u64("18446744073709551616"), None);
    assert_eq!(parse_u64("007"), Some(7));
    for bad in ["", "+", "++1", " 1", "1_0", "\u{661}"] {
        assert_eq!(parse_u64(bad), None, "{bad:?}");
    }
    assert_eq!(parse_universe("spx").unwrap(), vec![sym("SPX")]);
}

// Market book.

fn candle(ts: u64, close: f64) -> Candle {
    Candle {
        ts: TsMillis(ts),
        open: n(close),
        high: n(close),
        low: n(close),
        close: n(close),
        volume: n(1.0),
    }
}

fn candle_event(ts: u64, close: f64) -> MarketEvent {
    MarketEvent::Candle {
        symbol: sym("SPX"),
        interval: BarInterval::Min1,
        candle: candle(ts, close),
    }
}

fn spot_event(ts: u64, price: f64) -> MarketEvent {
    MarketEvent::Spot(SpotQuote { symbol: sym("SPX"), price: n(price), ts: TsMillis(ts) })
}

#[test]
fn candles_append_replace_and_drop_out_of_order() {
    let mut book = MarketBook::new();
    book.apply(candle_event(1000, 10.0));
    book.apply(candle_event(2000, 11.0));
    book.apply(candle_event(2000, 11.5));
    book.apply(candle_event(1500, 99.0));
    let b = book.get(&sym("SPX")).unwrap();
    assert_eq!(b.candles.len(), 2);
    assert_eq!(b.candles.back().unwrap().close, n(11.5));
    assert_eq!(b.last_event_ts, TsMillis(2000));
}

#[test]
fn capacity_is_bounded() {
    let mut book = MarketBook::new();
    for i in 0..(CANDLE_CAPACITY as u64 + 100) {
        book.apply(candle_event(i * 60_000, 1.0));
    }
    let b = book.get(&sym("SPX")).unwrap();
    assert_eq!(b.candles.len(), CANDLE_CAPACITY);
    assert_eq!(b.candles[0].ts, TsMillis(100 * 60_000));
}

#[test]
fn effective_spot_prefers_quote_then_chain_then_candle() {
    let mut book = MarketBook::new();
    let s = sym("SPX");
    book.apply(candle_event(1000, 42.0));
    assert_eq!(book.get(&s).unwrap().effective_spot(), Some(n(42.0)));
    book.apply(MarketEvent::Chain(OptionChain {
        underlying: sym("SPX"),
        spot: n(42.5),
        ts: TsMillis(1500),
        multiplier: n(100.0),
        quotes: vec![],
    }));
    assert_eq!(book.get(&s).unwrap().effective_spot(), Some(n(42.5)));
    book.apply(spot_event(2000, 43.0));
    assert_eq!(book.get(&s).unwrap().effective_spot(), Some(n(43.0)));
    assert!(book.get(&sym("QQQ")).is_none());
}

#[test]
fn books_can_be_changed_in_place() {
    let mut book = MarketBook::new();
    book.apply(candle_event(1000, 42.0));
    assert!(book.get_mut(&sym("QQQ")).is_none());
    book.get_mut(&sym("SPX")).unwrap().last_event_ts = TsMillis(5);
    assert_eq!(book.get(&sym("SPX")).unwrap().last_event_ts, TsMillis(5));
}

#[test]
fn only_candles_and_chains_call_for_a_snapshot() {
    assert!(candle_event(1, 1.0).recomposes());
    assert!(!spot_event(1, 1.0).recomposes());
}

// Frames.

#[test]
fn publish_updates_latest_and_replay() {
    let mut store = FrameStore::new();
    let s = sym("SPX");
    store.publish(&s, r#"{"n":1}"#.to_owned());
    store.publish(&s, r#"{"n":2}"#.to_owned());
    assert_eq!(store.latest(&s).unwrap(), r#"{"n":2}"#);
    let replay = store.replay(&s, 10);
    assert_eq!(replay.len(), 2);
    assert_eq!(replay[0], r#"{"n":1}"#);
    assert_eq!(store.latest_all(), vec![r#"{"n":2}"#.to_owned()]);
    store.publish(&sym("QQQ"), "3".to_owned());
    store.publish(&s, "4".to_owned());
    assert_eq!(store.latest_all(), vec!["4".to_owned(), "3".to_owned()]);
}

#[test]
fn replay_ring_is_bounded() {
    let mut store = FrameStore::new();
    let s = sym("SPX");
    for i in 0..(REPLAY_DEPTH + 50) {
        store.publish(&s, format!("{i}"));
    }
    let replay = store.replay(&s, usize::MAX);
    assert_eq!(replay.len(), REPLAY_DEPTH);
    assert_eq!(replay[0], "50");
    assert_eq!(store.replay(&s, 2), vec!["948".to_owned(), "949".to_owned()]);
}

#[test]
fn unknown_symbol_yields_empty() {
    let store = FrameStore::new();
    assert!(store.latest(&sym("ZZZ")).is_none());
    assert!(store.replay(&sym("ZZZ"), 5).is_empty());
}

#[test]
fn requests_are_answered_by_status() {
    let mut store = FrameStore::new();
    store.publish(&sym("SPX"), "1".to_owned());
    store.publish(&sym("SPX"), "2".to_owned());
    assert_eq!(store.snapshot_reply("spx"), Reply::Json("2".to_owned()));
    assert_eq!(store.snapshot_reply("QQQ"), Reply::NotFound);
    assert_eq!(store.snapshot_reply("b d"), Reply::BadRequest("b d".to_owned()));
    assert_eq!(store.replay_reply("spx", None), Reply::Json("[1,2]".to_owned()));
    assert_eq!(store.replay_reply("spx", Some(1)), Reply::Json("[2]".to_owned()));
    assert_eq!(store.replay_reply("QQQ", None), Reply::Json("[]".to_owned()));
    assert_eq!(store.replay_reply("", None).status(), 400);
    assert_eq!(store.snapshot_reply("QQQ").status(), 404);
    assert_eq!(store.snapshot_reply("SPX").status(), 200);
    assert_eq!(replay_count(None), 120);
    assert_eq!(replay_body(&vec!["a".to_owned(), "b".to_owned()]), "[a,b]");
}

#[test]
fn sessions_send_frames_skip_lag_and_end_with_either_side() {
    assert_eq!(session_step(SessionEvent::Frame), SessionAction::Send);
    assert_eq!(session_step(SessionEvent::Lagged), SessionAction::Wait);
    assert_eq!(session_step(SessionEvent::Inbound), SessionAction::Wait);
    for e in [SessionEvent::Closed, SessionEvent::Gone, SessionEvent::SendFailed] {
        assert_eq!(session_step(e), SessionAction::End);
    }
}

// Synthetic feed.

fn test_config(seed: u64) -> SyntheticConfig {
    SyntheticConfig { tick_interval_ms: 0, warmup_bars: 30, ..SyntheticConfig::demo(seed) }
}

fn collect(seed: u64, count: usize) -> Vec<MarketEvent> {
    let config = test_config(seed);
    let symbols = config.select(&vec![sym("SPX")]).unwrap();
    let mut states: Vec<(SymState, ChaCha12Rng)> = symbols
        .into_iter()
        .map(|s| {
            let rng = ChaCha12Rng::seed_from_u64(stream_seed(config.seed, &s.symbol));
            (SymState::new(s), rng)
        })
        .collect();
    let mut schedule = Schedule::new(&config);
    let mut out = Vec::new();
    while out.len() < count {
        let beat = schedule.next();
        for (state, rng) in &mut states {
            advance(state, rng);
            let terms = if beat.chain { quote_terms(state, rng) } else { vec![] };
            out.extend(state.events(&beat, &terms));
        }
    }
    out.truncate(count);
    out
}

#[test]
fn synthetic_deterministic_for_fixed_seed() {
    assert_eq!(collect(42, 200), collect(42, 200));
}

#[test]
fn different_seeds_diverge() {
    assert_ne!(collect(1, 200), collect(2, 200));
}

#[test]
fn warmup_candles_arrive_first_and_are_sane() {
    for e in &collect(7, 30) {
        match e {
            MarketEvent::Candle { candle, .. } => {
                let (o, h) = (f(candle.open), f(candle.high));
                let (l, c) = (f(candle.low), f(candle.close));
                assert!(h >= l);
                assert!(h >= o.max(c));
                assert!(l <= o.min(c));
                assert!(f(candle.volume) > 0.0);
            }
            other => panic!("expected warmup candle, got {other:?}"),
        }
    }
}

#[test]
fn chains_are_smile_consistent_and_arbitrage_sane() {
    let events = collect(11, 600);
    let chain = events
        .iter()
        .find_map(|e| match e {
            MarketEvent::Chain(c) => Some(c),
            _ => None,
        })
        .expect("a chain within 600 events");
    assert!(!chain.quotes.is_empty());
    for q in &chain.quotes {
        let (bid, ask) = (f(q.bid.unwrap()), f(q.ask.unwrap()));
        assert!(bid > 0.0 && ask >= bid, "quoted market must be two-sided");
        assert!(f(q.iv.unwrap()) > 0.0);
        assert!(q.open_interest > 0);
        let g = q.greeks.unwrap();
        assert!(f(g.gamma) >= 0.0, "long option gamma is non-negative");
        match q.right {
            OptionRight::Call => assert!((0.0..=1.0).contains(&f(g.delta))),
            OptionRight::Put => assert!((-1.0..=0.0).contains(&f(g.delta))),
        }
    }
    let distance = |q: &&OptionQuote| (f(q.strike) - f(chain.spot)).abs();
    let atm = chain
        .quotes
        .iter()
        .min_by(|a, b| distance(a).total_cmp(&distance(b)))
        .unwrap();
    let wing = chain
        .quotes
        .iter()
        .max_by(|a, b| distance(a).total_cmp(&distance(b)))
        .unwrap();
    assert!(f(wing.iv.unwrap()) > f(atm.iv.unwrap()));
}

#[test]
fn events_are_about_the_symbols_of_the_universe() {
    for e in collect(3, 150) {
        let name = match &e {
            MarketEvent::Candle { symbol, .. } => symbol,
            MarketEvent::Chain(c) => &c.underlying,
            MarketEvent::Spot(q) => &q.symbol,
        };
        assert_eq!(*name, sym("SPX"));
    }
}

#[test]
fn unknown_universe_is_rejected() {
    let e = test_config(1).select(&vec![sym("ZZZ"), sym("AB")]).unwrap_err();
    assert!(matches!(e, FeedError::UnsupportedUniverse(_)));
    assert_eq!(
        e.message(),
        "unsupported universe: none of [Symbol(\"ZZZ\"), Symbol(\"AB\")] are configured for the \
         synthetic feed"
    );
    assert_eq!(FeedError::Transport("x".to_owned()).message(), "transport: x");
    assert_eq!(FeedError::Malformed("x".to_owned()).message(), "malformed upstream payload: x");
    assert_eq!(FeedError::Auth("x".to_owned()).message(), "auth: x");
}

#[test]
fn tickers_have_their_own_streams() {
    let seeds: Vec<u64> =
        ["SPX", "SPY", "SMH"].iter().map(|s| stream_seed(7, &sym(s))).collect();
    assert!(seeds[0] != seeds[1] && seeds[1] != seeds[2] && seeds[0] != seeds[2]);
    let by_hand = "SPX".bytes().fold(7u64, |s, b| {
        s.wrapping_mul(0x0100_0000_01b3).wrapping_add(u64::from(b))
    });
    assert_eq!(seeds[0], by_hand);
}

#[test]
fn schedule_warms_up_and_adds_every_fifth_chain() {
    let config = SyntheticConfig { warmup_bars: 2, ..test_config(1) };
    let mut schedule = Schedule::new(&config);
    let beats: Vec<_> = (0..12).map(|_| schedule.next()).collect();
    assert_eq!(beats[0].ts, config.start_ts);
    assert!(!beats[1].live && beats[2].live);
    assert_eq!(beats[1].ts.0 - beats[0].ts.0, 60_000);
    assert_eq!(beats[2].ts.0 - beats[1].ts.0, 120_000);
    let chains: Vec<usize> = (0..12).filter(|&i| beats[i].chain).collect();
    assert_eq!(chains, vec![6, 11]);
}

#[test]
fn strikes_stand_on_the_grid_around_spot() {
    let state = SymState::new(SyntheticSymbol {
        symbol: sym("QQQ"),
        spot: n(621.3),
        vol: n(0.19),
        strike_step: n(5.0),
    });
    for offset in [-15i64, -1, 0, 7, 15] {
        let i = state.quote_inputs(offset, OptionRight::Put).unwrap();
        assert_eq!(f(i.strike), (offset as f64).mul_add(5.0, 620.0));
    }
    let odd = SymState::new(SyntheticSymbol {
        symbol: sym("QQQ"),
        spot: n(0.7),
        vol: n(0.19),
        strike_step: n(0.1),
    });
    let center = (0.7f64 / 0.1).round() * 0.1;
    for offset in -15i64..=15 {
        let want = (offset as f64).mul_add(0.1, center);
        match odd.quote_inputs(offset, OptionRight::Call) {
            Some(i) => assert_eq!(f(i.strike), want),
            None => assert!(want <= 0.0),
        }
    }
}

#[test]
fn quoted_markets_are_never_crossed() {
    let events = collect(3, 300);
    for e in &events {
        if let MarketEvent::Chain(c) = e {
            for q in &c.quotes {
                let (bid, ask) = (f(q.bid.unwrap()), f(q.ask.unwrap()));
                assert!(bid >= 0.05);
                assert!(ask >= bid + f(Num::of(MIN_TICK)) - 1e-12);
            }
        }
    }
}

// Pipeline.

fn quote(strike: f64, right: OptionRight, oi: u64, iv: Option<f64>, day: u8) -> OptionQuote {
    OptionQuote {
        strike: n(strike),
        right,
        expiry: ExpiryDate { year: 2026, month: 1, day },
        bid: None,
        ask: None,
        volume: oi / 2,
        open_interest: oi,
        iv: iv.map(n),
        greeks: None,
    }
}

#[test]
fn open_interest_groups_by_strike() {
    let quotes = vec![
        quote(100.0, OptionRight::Call, 10, None, 9),
        quote(105.0, OptionRight::Put, 7, None, 9),
        quote(100.000_1, OptionRight::Put, 4, None, 9),
    ];
    let t = aggregate_oi(&quotes);
    assert_eq!(t.keys, vec![100_000, 105_000]);
    let at = t.get(strike_key(n(100.0)), &quotes);
    assert_eq!((f(at.call_oi), f(at.put_oi)), (10.0, 4.0));
    assert_eq!((f(at.call_vol), f(at.put_vol)), (5.0, 2.0));
    assert_eq!(f(t.get(1, &quotes).call_oi), 0.0);
    assert_eq!(f(t.total(&quotes)), 21.0);
    assert_eq!(strike_key(n(f64::NAN)), 0);
    assert_eq!(strike_key(n(-1.5)), -1500);
    assert_eq!(strike_key(n(1e300)), i64::MAX);
    assert_eq!(strike_key(n(-1e300)), i64::MIN);
}

#[test]
fn nearest_quote_and_expiry() {
    let quotes = vec![
        quote(90.0, OptionRight::Call, 1, Some(0.3), 20),
        quote(101.0, OptionRight::Call, 1, None, 9),
        quote(102.0, OptionRight::Call, 1, Some(0.2), 12),
    ];
    assert_eq!(f(atm_iv(&quotes, n(100.0))), 0.2);
    assert_eq!(f(atm_iv(&vec![], n(100.0))), 0.0);
    assert_eq!(nearest_expiry(&quotes).unwrap().day, 9);
    assert_eq!(nearest_expiry(&vec![]), None);
}

#[test]
fn wire_names_and_intensities() {
    assert_eq!(regime_label(RegimeLabel::TrendExpansion), "TREND_EXPANSION");
    assert_eq!(regime_label(RegimeLabel::MeanReversion), "MEAN_REVERSION");
    assert_eq!(regime_label(RegimeLabel::TailRisk), "TAIL_RISK");
    assert_eq!(f(signed_intensity(BiasDirection::Bearish, n(0.4))), -0.4);
    assert_eq!(f(signed_intensity(BiasDirection::Bullish, n(4.0))), 1.0);
    assert_eq!(f(signed_intensity(BiasDirection::Neutral, n(0.4))), 0.0);
    let m = Metric::new("P05", n(1.5), "$");
    assert_eq!((m.label.as_str(), m.unit.as_str()), ("P05", "$"));
    match WireFrame::hello("synthetic") {
        WireFrame::Hello { wire_version, feed } => {
            assert_eq!(wire_version, WIRE_VERSION);
            assert_eq!(feed, "synthetic");
        }
        WireFrame::Snapshot(_) => unreachable!(),
    }
}

fn compose(book: &MarketBook, pipeline: &mut PipelineState) -> Option<TerminalSnapshot> {
    let s = sym("SPX");
    let b = book.get(&s)?;
    let spot = b.effective_spot()?;
    let wanted = if pipeline.wants_chain(&s, &b.chain) { b.chain.as_ref() } else { None };
    let candles = b.candle_slice();
    let terms = compose_terms(&candles, wanted, spot);
    pipeline.compose(&s, &candles, &b.chain, spot, b.last_event_ts, true, &terms)
}

#[test]
fn snapshots_follow_the_feed() {
    let mut book = MarketBook::new();
    let mut pipeline = PipelineState::new();
    let mut snapshots = 0;
    let mut last: Option<TerminalSnapshot> = None;
    let mut chains = 0;
    for e in collect(5, 120) {
        let recompose = e.recomposes();
        if matches!(e, MarketEvent::Chain(_)) {
            chains += 1;
        }
        book.apply(e);
        if !recompose {
            continue;
        }
        let bars = book.get(&sym("SPX")).unwrap().candles.len();
        let snap = compose(&book, &mut pipeline);
        assert_eq!(snap.is_some(), bars >= MIN_CANDLES);
        if let Some(s) = snap {
            snapshots += 1;
            assert_eq!(s.symbol, "SPX");
            assert_eq!(s.wire_version, WIRE_VERSION);
            assert!(s.synthetic);
            assert_eq!(s.engines.len(), 10);
            assert_eq!(s.engines[0].engine, "THESIS");
            assert_eq!(s.engines[9].engine, "OI FLOW");
            assert_eq!(s.thesis.sub_scores.len(), 6);
            assert_eq!(s.regime.probabilities.len(), 3);
            if chains == 0 {
                assert!(s.dealer.ladder.is_empty());
                assert_eq!(f(s.dealer.dealer01), 0.5);
                assert!(s.expiry.is_none());
                assert_eq!(s.flow.oi_flow.state, BinaryState::Inactive);
            } else {
                assert_eq!(s.dealer.ladder.iter().filter(|r| r.at_spot).count(), 1);
                assert!(s.dealer.ladder.iter().all(|r| r.open_interest > 0));
                assert!(s.dealer.ladder.windows(2).all(|w| f(w[0].strike) < f(w[1].strike)));
                assert!(s.expiry.is_some());
                assert_eq!(s.vol.rnd_percentiles.len(), 5);
                assert!(f(s.vol.implied_vol) > 0.0);
                let vrp = f(s.vol.implied_vol) - f(s.vol.realized_vol);
                assert_eq!(f(s.vol.variance_risk_premium), vrp);
            }
            last = Some(s);
        }
    }
    assert!(snapshots > 20 && chains >= 2);
    // The same chain again: the panels of the chain stay as they were.
    let again = compose(&book, &mut pipeline).unwrap();
    let last = last.unwrap();
    assert_eq!(again.dealer, last.dealer);
    assert_eq!(again.flow, last.flow);
    assert_eq!(again.expiry, last.expiry);
}

#[test]
fn chains_that_cannot_be_analyzed_leave_empty_panels() {
    let mut book = MarketBook::new();
    let mut pipeline = PipelineState::new();
    for e in collect(5, 31) {
        book.apply(e);
    }
    book.apply(MarketEvent::Chain(OptionChain {
        underlying: sym("SPX"),
        spot: n(0.0),
        ts: TsMillis(1),
        multiplier: n(100.0),
        quotes: vec![quote(100.0, OptionRight::Call, 1, Some(0.2), 9)],
    }));
    let s = compose(&book, &mut pipeline).unwrap();
    assert!(s.dealer.ladder.is_empty() && s.expiry.is_none());
    assert!(s.vol.rnd_percentiles.is_empty());
}

#[test]
fn implied_vol_is_ranked_against_the_chains_before() {
    let mut book = MarketBook::new();
    let mut pipeline = PipelineState::new();
    for e in collect(5, 30) {
        book.apply(e);
    }
    let mut ranks = Vec::new();
    for (i, iv) in [0.2, 0.3, 0.25].into_iter().enumerate() {
        book.apply(MarketEvent::Chain(OptionChain {
            underlying: sym("SPX"),
            spot: n(6800.0),
            ts: TsMillis(1_767_225_600_000 + i as u64 * 60_000),
            multiplier: n(100.0),
            quotes: vec![quote(6800.0, OptionRight::Call, 10, Some(iv), 9)],
        }));
        let s = compose(&book, &mut pipeline).unwrap();
        assert_eq!(f(s.vol.implied_vol), iv);
        ranks.push((f(s.vol.iv_rank), f(s.vol.iv_percentile)));
    }
    assert_eq!(ranks[0], (0.0, 0.0));
    assert_eq!(ranks[1], (0.0, 0.0));
    assert!((ranks[2].0 - 0.5).abs() < 1e-9);
    assert_eq!(ranks[2].1, 0.5);
}
