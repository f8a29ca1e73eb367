//! Multi-leg payoffs, portfolios and scenario matrices, against known values.

use slayer::black_scholes::{BsGreeks, BsInputs, BsTerms, QuantError};
use slayer::market::{ExpiryDate, OptionRight};
use slayer::multileg::{
    leg_inputs, payoff_coordinates, payoff_profile, AggregateGreeks, Leg, MarketInputs,
    PayoffExtreme, Strategy, StrategyError, StrategyValue, TailSlope, CONTRACT_MULTIPLIER,
};
use slayer::num::Num;
use slayer::portfolio::{
    session_clock_grid, trading_hours_to_years, ClockInputs, DecayClockPoint, ExpiryGexNode,
    GexContract, PortfolioError, PortfolioSummary, Position, DECAY_CLOCK_STEP_HOURS,
    SESSION_HOURS,
};
use slayer::scenario::{
    shocked_leg_inputs, slid_contract_inputs, ContractSpec, ScenarioError, ShockCell,
    SCEN_DEFAULT_DAYS_FWD, SCEN_DEFAULT_IV_GRID, SCEN_DEFAULT_SPOT_GRID, SHOCK_DEFAULT_SPOT_GRID,
};

fn n(x: f64) -> Num {
    Num::of(x.to_bits())
}

fn f(x: Num) -> f64 {
    f64::from_bits(x.bits)
}

fn ns(v: &[f64]) -> Vec<Num> {
    v.iter().map(|&x| n(x)).collect()
}

fn exp(x: Num) -> Num {
    n(f(x).exp())
}

fn ln(x: Num) -> Num {
    n(f(x).ln())
}

fn gauss(x: Num) -> Num {
    exp(slayer::dist::gauss_arg(x))
}

fn bs_terms(i: &BsInputs) -> BsTerms {
    let ln_moneyness = ln(i.moneyness());
    let (d1, d2) = i.d1_d2(ln_moneyness);
    BsTerms {
        ln_moneyness,
        exp_d1: gauss(d1),
        exp_d2: gauss(d2),
        disc_rate: exp(i.rate_exponent()),
        disc_yield: exp(i.yield_exponent()),
        growth: exp(i.carry_exponent()),
    }
}

fn bs_price(i: &BsInputs, right: OptionRight) -> Result<Num, QuantError> {
    slayer::black_scholes::price(i, right, &bs_terms(i))
}

fn bs_greeks(i: &BsInputs, right: OptionRight) -> Result<BsGreeks, QuantError> {
    slayer::black_scholes::greeks(i, right, &bs_terms(i))
}

/// The value of a constant.
fn k(bits: u64) -> f64 {
    f64::from_bits(bits)
}

fn priced(i: &BsInputs, right: OptionRight) -> f64 {
    f(bs_price(i, right).unwrap())
}

fn market(div_yield: f64) -> MarketInputs {
    MarketInputs { spot: n(100.0), rate: n(0.05), div_yield: n(div_yield) }
}

// Multi-leg strategies.

fn leg(right: OptionRight, strike: f64, quantity: i32, premium: f64) -> Leg {
    Leg {
        right,
        strike: n(strike),
        expiry_t_years: n(30.0 / 365.0),
        quantity,
        premium: n(premium),
    }
}

fn strategy(legs: Vec<Leg>) -> Strategy {
    Strategy { legs, multiplier: Num::of(CONTRACT_MULTIPLIER) }
}

fn strategy_value(
    s: &Strategy,
    vols: &[f64],
    market: &MarketInputs,
) -> Result<StrategyValue, StrategyError> {
    let terms: Vec<BsTerms> = s
        .legs
        .iter()
        .enumerate()
        .map(|(i, l)| bs_terms(&leg_inputs(l, n(vols.get(i).copied().unwrap_or(0.0)), market)))
        .collect();
    slayer::multileg::strategy_value(s, &ns(vols), market, &terms)
}

#[test]
fn long_call_payoff_and_breakeven() {
    let s = strategy(vec![leg(OptionRight::Call, 100.0, 1, 5.0)]);
    assert_eq!(f(s.payoff_at(n(110.0))), 500.0);
    assert_eq!(f(s.payoff_at(n(90.0))), -500.0);
    assert_eq!(f(s.net_premium()), 500.0);

    let p = payoff_profile(&s).unwrap();
    assert_eq!(p.breakevens, ns(&[105.0]));
    assert_eq!(p.max_profit, PayoffExtreme::Unbounded);
    assert_eq!(p.max_loss, PayoffExtreme::Bounded(n(-500.0)));
    assert_eq!(p.topology.right, TailSlope::Rising);
    assert_eq!(p.topology.left, TailSlope::Flat);
    assert!(p.topology.profit_unbounded);
    assert!(!p.topology.loss_unbounded);
}

#[test]
fn vertical_spread_capped_both_sides() {
    let s = strategy(vec![
        leg(OptionRight::Call, 100.0, 1, 5.0),
        leg(OptionRight::Call, 110.0, -1, 2.0),
    ]);
    let p = payoff_profile(&s).unwrap();
    assert_eq!(p.net_premium, n(300.0));
    assert_eq!(p.max_loss, PayoffExtreme::Bounded(n(-300.0)));
    assert_eq!(p.max_profit, PayoffExtreme::Bounded(n(700.0)));
    assert_eq!(p.breakevens, ns(&[103.0]));
    assert_eq!(p.topology.left, TailSlope::Flat);
    assert_eq!(p.topology.right, TailSlope::Flat);
    assert!(!p.topology.profit_unbounded && !p.topology.loss_unbounded);
}

#[test]
fn straddle_two_breakevens() {
    let s = strategy(vec![
        leg(OptionRight::Call, 100.0, 1, 4.0),
        leg(OptionRight::Put, 100.0, 1, 3.0),
    ]);
    let p = payoff_profile(&s).unwrap();
    assert_eq!(p.breakevens, ns(&[93.0, 107.0]));
    assert_eq!(p.max_loss, PayoffExtreme::Bounded(n(-700.0)));
    assert_eq!(p.max_profit, PayoffExtreme::Unbounded);
    assert_eq!(p.topology.left, TailSlope::Falling);
    assert_eq!(p.topology.right, TailSlope::Rising);
}

#[test]
fn short_put_max_loss_reaches_zero_spot() {
    let s = strategy(vec![leg(OptionRight::Put, 100.0, -1, 3.0)]);
    let p = payoff_profile(&s).unwrap();
    assert_eq!(p.max_loss, PayoffExtreme::Bounded(n(-9700.0)));
    assert_eq!(p.max_profit, PayoffExtreme::Bounded(n(300.0)));
    assert_eq!(p.breakevens, ns(&[97.0]));
    assert_eq!(p.net_premium, n(-300.0));
    assert_eq!(p.topology.left, TailSlope::Rising);
    assert_eq!(p.topology.right, TailSlope::Flat);
    assert!(!p.max_loss.is_unbounded());
}

#[test]
fn short_call_loss_unbounded() {
    let s = strategy(vec![leg(OptionRight::Call, 100.0, -2, 5.0)]);
    let p = payoff_profile(&s).unwrap();
    assert_eq!(p.max_loss, PayoffExtreme::Unbounded);
    assert_eq!(p.max_profit, PayoffExtreme::Bounded(n(1000.0)));
    assert!(p.topology.loss_unbounded);
    assert_eq!(p.topology.net_call_qty, -2);
    assert_eq!(p.topology.right, TailSlope::Falling);
}

#[test]
fn payoff_coordinates_span_chart_grid() {
    let s = strategy(vec![leg(OptionRight::Call, 100.0, 1, 5.0)]);
    let pts = payoff_coordinates(&s, n(100.0)).unwrap();
    assert_eq!(pts.len(), 81);
    assert!((f(pts[0].spot) - 85.0).abs() < 1e-12);
    assert!((f(pts[80].spot) - 115.0).abs() < 1e-12);
    for pt in &pts {
        assert_eq!(pt.pnl, s.payoff_at(pt.spot));
    }
}

#[test]
fn strategy_value_matches_kernel() {
    let s = strategy(vec![leg(OptionRight::Call, 100.0, 1, 5.0)]);
    let v = strategy_value(&s, &[0.2], &market(0.0)).unwrap();
    let inputs = BsInputs {
        spot: n(100.0),
        strike: n(100.0),
        t_years: n(30.0 / 365.0),
        vol: n(0.2),
        rate: n(0.05),
        div_yield: n(0.0),
    };
    let px = priced(&inputs, OptionRight::Call);
    let g = bs_greeks(&inputs, OptionRight::Call).unwrap();
    assert!((f(v.value) - px * 100.0).abs() < 1e-12);
    assert!((f(v.unrealized_pnl) - (px * 100.0 - 500.0)).abs() < 1e-12);
    assert!((f(v.greeks.delta) - f(g.delta)).abs() < 1e-15);
    assert!((f(v.greeks.vanna) - f(g.vanna)).abs() < 1e-15);
    assert!((f(v.greeks.charm) - f(g.charm)).abs() < 1e-15);
}

#[test]
fn strategy_value_is_sign_aware() {
    let long = strategy(vec![leg(OptionRight::Put, 95.0, 3, 2.0)]);
    let short = strategy(vec![leg(OptionRight::Put, 95.0, -3, 2.0)]);
    let vl = strategy_value(&long, &[0.25], &market(0.01)).unwrap();
    let vs = strategy_value(&short, &[0.25], &market(0.01)).unwrap();
    assert!((f(vl.value) + f(vs.value)).abs() < 1e-12);
    assert!((f(vl.greeks.delta) + f(vs.greeks.delta)).abs() < 1e-15);
    assert!((f(vl.greeks.theta) + f(vs.greeks.theta)).abs() < 1e-12);
}

#[test]
fn multileg_errors_are_values() {
    assert_eq!(
        payoff_profile(&Strategy { legs: vec![], multiplier: n(100.0) }),
        Err(StrategyError::Empty)
    );
    let s = strategy(vec![leg(OptionRight::Call, 100.0, 1, 5.0)]);
    assert_eq!(
        strategy_value(&s, &[], &market(0.0)),
        Err(StrategyError::VolCountMismatch { legs: 1, vols: 0 })
    );
    let bad = strategy(vec![leg(OptionRight::Call, -1.0, 1, 5.0)]);
    assert!(matches!(payoff_profile(&bad), Err(StrategyError::Domain(_))));
    assert!(matches!(payoff_coordinates(&s, n(0.0)), Err(StrategyError::Domain(_))));
    assert!(matches!(
        strategy_value(&s, &[f64::NAN], &market(0.0)),
        Err(StrategyError::Quant(_))
    ));
}

// Scenario matrices.

fn long_call() -> Strategy {
    Strategy {
        legs: vec![Leg {
            right: OptionRight::Call,
            strike: n(100.0),
            expiry_t_years: n(60.0 / 365.0),
            quantity: 1,
            premium: n(5.0),
        }],
        multiplier: Num::of(CONTRACT_MULTIPLIER),
    }
}

fn strategy_shock_matrix(
    s: &Strategy,
    vols: &[f64],
    spot_shocks: &[f64],
    vol_shocks: &[f64],
    days: f64,
) -> Result<Vec<ShockCell>, ScenarioError> {
    let market = market(0.0);
    let vol_of = |i: usize| n(vols.get(i).copied().unwrap_or(0.0));
    let base: Vec<BsTerms> = s
        .legs
        .iter()
        .enumerate()
        .map(|(i, l)| bs_terms(&leg_inputs(l, vol_of(i), &market)))
        .collect();
    let terms: Vec<Vec<Vec<BsTerms>>> = vol_shocks
        .iter()
        .map(|&dv| {
            spot_shocks
                .iter()
                .map(|&ds| {
                    s.legs
                        .iter()
                        .enumerate()
                        .map(|(i, l)| {
                            bs_terms(&shocked_leg_inputs(
                                l, vol_of(i), &market, n(ds), n(dv), n(days),
                            ))
                        })
                        .collect()
                })
                .collect()
        })
        .collect();
    slayer::scenario::strategy_shock_matrix(
        s,
        &ns(vols),
        &market,
        &ns(spot_shocks),
        &ns(vol_shocks),
        n(days),
        &base,
        &terms,
    )
}

fn contract_scenario_matrix(
    contract: &ContractSpec,
    spot_shifts: &[f64],
    iv_shifts: &[f64],
    days: f64,
    multiplier: f64,
) -> Result<Vec<ShockCell>, ScenarioError> {
    let market = market(0.0);
    let terms: Vec<Vec<BsTerms>> = iv_shifts
        .iter()
        .map(|&dv| {
            spot_shifts
                .iter()
                .map(|&ds| {
                    bs_terms(&slid_contract_inputs(contract, &market, n(ds), n(dv), n(days)))
                })
                .collect()
        })
        .collect();
    slayer::scenario::contract_scenario_matrix(
        contract,
        &market,
        &ns(spot_shifts),
        &ns(iv_shifts),
        n(days),
        n(multiplier),
        &terms,
    )
}

#[test]
fn long_call_pnl_monotone_in_spot_shock() {
    let grid: Vec<f64> = SHOCK_DEFAULT_SPOT_GRID.iter().map(|&b| k(b)).collect();
    let cells = strategy_shock_matrix(&long_call(), &[0.2], &grid, &[0.0], 0.0).unwrap();
    assert_eq!(cells.len(), SHOCK_DEFAULT_SPOT_GRID.len());
    for pair in cells.windows(2) {
        assert!(f(pair[1].pnl) > f(pair[0].pnl), "call P&L must rise with spot");
        assert!(f(pair[1].delta) > f(pair[0].delta), "call delta rises with spot");
    }
}

#[test]
fn unshocked_node_is_zero_at_any_expiry() {
    let cells = strategy_shock_matrix(&long_call(), &[0.2], &[0.0], &[0.0], 0.0).unwrap();
    assert_eq!(cells.len(), 1);
    assert!(f(cells[0].pnl).abs() < 1e-12);
}

#[test]
fn unshocked_node_is_zero_below_the_vol_floor() {
    let year = Strategy {
        legs: vec![Leg { expiry_t_years: n(1.0), premium: n(0.0), ..long_call().legs[0] }],
        multiplier: Num::of(CONTRACT_MULTIPLIER),
    };
    for vol in [0.0, 0.001, 0.005, 0.01, 0.3] {
        let cells =
            strategy_shock_matrix(&year, &[vol], &[0.0], &[-0.5, 0.0, 0.2], 0.0).unwrap();
        assert_eq!(f(cells[1].pnl), 0.0);
        assert!(f(cells[2].pnl) > 0.0);
    }
    // A shock floors the vol, also of a leg whose own vol lies below the floor.
    let leg = &year.legs[0];
    for (vol, shock, want) in
        [(0.0, -0.05, 0.01), (0.002, 0.005, 0.01), (0.002, 0.0, 0.002), (0.3, -0.1, 0.3 - 0.1)]
    {
        let at = shocked_leg_inputs(leg, n(vol), &market(0.0), n(0.0), n(shock), n(0.0));
        assert_eq!(f(at.vol), want);
    }
}

#[test]
fn decay_step_bleeds_time_value() {
    let cells = strategy_shock_matrix(&long_call(), &[0.2], &[0.0], &[0.0], 5.0).unwrap();
    assert!(f(cells[0].pnl) < 0.0, "long ATM call loses value over 5 days");
}

#[test]
fn vol_shock_sign_matches_vega() {
    let cells =
        strategy_shock_matrix(&long_call(), &[0.2], &[0.0], &[-0.05, 0.0, 0.05], 0.0).unwrap();
    assert!(f(cells[0].pnl) < 0.0, "long call loses on a vol crush");
    assert!(f(cells[2].pnl) > 0.0, "long call gains on a vol spike");
    assert!(cells.iter().all(|c| f(c.vega) > 0.0));
}

#[test]
fn full_decay_prices_intrinsic() {
    let cells = strategy_shock_matrix(&long_call(), &[0.2], &[0.05], &[0.0], 365.0).unwrap();
    let base = priced(
        &BsInputs {
            spot: n(100.0),
            strike: n(100.0),
            t_years: n(60.0 / 365.0),
            vol: n(0.2),
            rate: n(0.05),
            div_yield: n(0.0),
        },
        OptionRight::Call,
    );
    let expected = (105.0 - 100.0 - base) * 100.0;
    assert!((f(cells[0].pnl) - expected).abs() < 1e-9);
    assert!(f(cells[0].gamma).abs() < 1e-12, "expired leg has no gamma");
}

#[test]
fn contract_matrix_matches_kernel_and_flips_with_sign() {
    let contract = ContractSpec {
        right: OptionRight::Call,
        strike: n(100.0),
        dte_days: n(30.0),
        iv: n(0.2),
        entry_price: n(2.5),
        quantity: 1,
    };
    let spots: Vec<f64> = SCEN_DEFAULT_SPOT_GRID.iter().map(|&b| k(b)).collect();
    let ivs: Vec<f64> = SCEN_DEFAULT_IV_GRID.iter().map(|&b| k(b)).collect();
    let days = k(SCEN_DEFAULT_DAYS_FWD);
    let mult = k(CONTRACT_MULTIPLIER);
    let cells = contract_scenario_matrix(&contract, &spots, &ivs, days, mult).unwrap();
    assert_eq!(cells.len(), SCEN_DEFAULT_SPOT_GRID.len() * SCEN_DEFAULT_IV_GRID.len());

    let unshocked = cells
        .iter()
        .find(|c| f(c.spot_shock) == 0.0 && f(c.vol_shock) == 0.0)
        .unwrap();
    let px = priced(
        &BsInputs {
            spot: n(100.0),
            strike: n(100.0),
            t_years: n(29.0 / 365.0),
            vol: n(0.2),
            rate: n(0.05),
            div_yield: n(0.0),
        },
        OptionRight::Call,
    );
    assert!((f(unshocked.pnl) - (px - 2.5) * 100.0).abs() < 1e-12);

    let short = ContractSpec { quantity: -1, ..contract };
    let short_cells = contract_scenario_matrix(&short, &spots, &ivs, days, mult).unwrap();
    for (l, s) in cells.iter().zip(&short_cells) {
        assert!((f(l.pnl) + f(s.pnl)).abs() < 1e-12);
        assert!((f(l.delta) + f(s.delta)).abs() < 1e-15);
    }
}

#[test]
fn dte_floor_prevents_negative_time() {
    let contract = ContractSpec {
        right: OptionRight::Put,
        strike: n(100.0),
        dte_days: n(0.5),
        iv: n(0.3),
        entry_price: n(1.0),
        quantity: 1,
    };
    let cells = contract_scenario_matrix(&contract, &[0.0], &[0.0], 1.0, 100.0).unwrap();
    assert!(f(cells[0].pnl).is_finite());
}

#[test]
fn scenario_errors_are_values() {
    let s = long_call();
    assert!(matches!(
        strategy_shock_matrix(&s, &[], &[0.0], &[0.0], 0.0),
        Err(ScenarioError::Strategy(StrategyError::VolCountMismatch { .. }))
    ));
    assert!(matches!(
        strategy_shock_matrix(&s, &[0.2], &[-1.0], &[0.0], 0.0),
        Err(ScenarioError::Domain(_))
    ));
    assert!(matches!(
        strategy_shock_matrix(&s, &[0.2], &[0.0], &[0.0], -1.0),
        Err(ScenarioError::Domain(_))
    ));
    let bad = ContractSpec {
        right: OptionRight::Call,
        strike: n(0.0),
        dte_days: n(30.0),
        iv: n(0.2),
        entry_price: n(1.0),
        quantity: 1,
    };
    assert!(matches!(
        contract_scenario_matrix(&bad, &[0.0], &[0.0], 1.0, 100.0),
        Err(ScenarioError::Domain(_))
    ));
}

// Portfolios.

fn stock(quantity: f64, entry_price: f64, current_price: f64) -> Position {
    Position::Stock {
        quantity: n(quantity),
        entry_price: n(entry_price),
        current_price: n(current_price),
    }
}

fn call_position(quantity: i32) -> Position {
    Position::Option {
        right: OptionRight::Call,
        strike: n(100.0),
        t_years: n(30.0 / 365.0),
        iv: n(0.2),
        quantity,
        entry_price: n(5.0),
        current_price: n(3.0),
        multiplier: n(100.0),
    }
}

fn put_position() -> Position {
    Position::Option {
        right: OptionRight::Put,
        strike: n(95.0),
        t_years: n(60.0 / 365.0),
        iv: n(0.25),
        quantity: 2,
        entry_price: n(1.5),
        current_price: n(2.0),
        multiplier: n(100.0),
    }
}

fn aggregate_portfolio(positions: &[Position]) -> Result<PortfolioSummary, PortfolioError> {
    let market = market(0.0);
    let flat = BsInputs {
        spot: n(100.0),
        strike: n(100.0),
        t_years: n(1.0),
        vol: n(0.2),
        rate: n(0.0),
        div_yield: n(0.0),
    };
    let terms: Vec<BsTerms> = positions
        .iter()
        .map(|p| bs_terms(&p.kernel_inputs(&market).unwrap_or(flat)))
        .collect();
    slayer::portfolio::aggregate_portfolio(&positions.to_vec(), &market, &terms)
}

fn expiry(day: u8) -> ExpiryDate {
    ExpiryDate { year: 2026, month: 7, day }
}

fn contract(day: u8, strike: f64, right: OptionRight, gamma: f64) -> GexContract {
    GexContract {
        expiry: expiry(day),
        strike: n(strike),
        right,
        gamma: n(gamma),
        open_interest: n(1000.0),
    }
}

fn expiry_gex_curve(
    contracts: &[GexContract],
    spot: f64,
) -> Result<Vec<ExpiryGexNode>, PortfolioError> {
    slayer::portfolio::expiry_gex_curve(&contracts.to_vec(), n(spot), n(100.0))
}

fn charm_vanna_clock(
    inputs: &ClockInputs,
    hours: &[f64],
) -> Result<Vec<DecayClockPoint>, PortfolioError> {
    let hours = ns(hours);
    let terms: Vec<BsTerms> = hours.iter().map(|&h| bs_terms(&inputs.kernel_inputs(h))).collect();
    slayer::portfolio::charm_vanna_clock(inputs, &hours, &terms)
}

#[test]
fn portfolio_greeks_are_additive() {
    let a = [call_position(1)];
    let b = [put_position(), stock(50.0, 98.0, 100.0)];
    let both: Vec<Position> = a.iter().chain(&b).copied().collect();
    let ra = aggregate_portfolio(&a).unwrap();
    let rb = aggregate_portfolio(&b).unwrap();
    let rboth = aggregate_portfolio(&both).unwrap();
    let adds = |ab: Num, x: Num, y: Num| (f(ab) - (f(x) + f(y))).abs() < 1e-9;
    assert!(adds(rboth.greeks.delta, ra.greeks.delta, rb.greeks.delta));
    assert!(adds(rboth.greeks.gamma, ra.greeks.gamma, rb.greeks.gamma));
    assert!(adds(rboth.greeks.vega, ra.greeks.vega, rb.greeks.vega));
    assert!(adds(rboth.greeks.charm, ra.greeks.charm, rb.greeks.charm));
    assert!(adds(rboth.market_value, ra.market_value, rb.market_value));
    assert!(adds(rboth.total_profit, ra.total_profit, rb.total_profit));
}

#[test]
fn option_greeks_scale_by_qty_and_multiplier() {
    let r = aggregate_portfolio(&[call_position(2)]).unwrap();
    let g = bs_greeks(
        &BsInputs {
            spot: n(100.0),
            strike: n(100.0),
            t_years: n(30.0 / 365.0),
            vol: n(0.2),
            rate: n(0.05),
            div_yield: n(0.0),
        },
        OptionRight::Call,
    )
    .unwrap();
    assert!((f(r.greeks.delta) - f(g.delta) * 200.0).abs() < 1e-12);
    assert!((f(r.greeks.theta) - f(g.theta) * 200.0).abs() < 1e-9);
    assert!((f(r.greeks.vanna) - f(g.vanna) * 200.0).abs() < 1e-9);
}

#[test]
fn short_option_pnl_is_correct() {
    let r = aggregate_portfolio(&[call_position(-1)]).unwrap();
    assert!((f(r.market_value) - (-300.0)).abs() < 1e-12);
    assert!((f(r.cost_basis) - (-500.0)).abs() < 1e-12);
    assert!((f(r.total_profit) - 200.0).abs() < 1e-12);
}

#[test]
fn stock_contributes_delta_only_and_empty_book_is_zero() {
    let r = aggregate_portfolio(&[stock(-25.0, 100.0, 90.0)]).unwrap();
    assert_eq!(f(r.greeks.delta), -25.0);
    assert_eq!(f(r.greeks.gamma), 0.0);
    assert_eq!(f(r.greeks.vega), 0.0);
    assert!((f(r.total_profit) - 250.0).abs() < 1e-12);

    let empty = aggregate_portfolio(&[]).unwrap();
    assert_eq!(f(empty.market_value), 0.0);
    assert_eq!(empty.greeks, AggregateGreeks::zero());
}

#[test]
fn expiry_gex_buckets_signed_and_sorted() {
    let contracts = [
        contract(17, 100.0, OptionRight::Put, 0.02),
        contract(10, 100.0, OptionRight::Call, 0.02),
    ];
    let curve = expiry_gex_curve(&contracts, 100.0).unwrap();
    assert_eq!(curve.len(), 2);
    assert_eq!(curve[0].expiry, expiry(10));
    assert_eq!(curve[1].expiry, expiry(17));
    assert!((f(curve[0].call_gex) - 200_000.0).abs() < 1e-6);
    assert_eq!(f(curve[0].put_gex), 0.0);
    assert!((f(curve[0].total_gex) - 200_000.0).abs() < 1e-6);
    assert!((f(curve[1].put_gex) - (-200_000.0)).abs() < 1e-6);
    assert!((f(curve[1].total_gex) - (-200_000.0)).abs() < 1e-6);
    assert_eq!(expiry_gex_curve(&[], 100.0).unwrap(), vec![]);
}

#[test]
fn the_lowest_of_equal_strikes_dominates() {
    let contracts = [
        contract(10, 110.0, OptionRight::Put, 0.05),
        contract(10, 105.0, OptionRight::Call, 0.05),
        contract(10, 100.0, OptionRight::Call, 0.01),
    ];
    let curve = expiry_gex_curve(&contracts, 100.0).unwrap();
    assert_eq!(curve[0].dominant_strike, Some(n(105.0)));
    let sides = f(curve[0].call_gex) + f(curve[0].put_gex);
    assert!((f(curve[0].total_gex) - sides).abs() < 1e-6);
}

#[test]
fn dominant_strike_aggregates_per_strike() {
    let contracts = [
        contract(10, 100.0, OptionRight::Call, 0.08),
        contract(10, 100.0, OptionRight::Put, 0.06),
        contract(10, 105.0, OptionRight::Call, 0.05),
    ];
    let curve = expiry_gex_curve(&contracts, 100.0).unwrap();
    assert_eq!(curve.len(), 1);
    assert_eq!(curve[0].dominant_strike, Some(n(105.0)));

    let flat = [contract(10, 100.0, OptionRight::Call, 0.0)];
    let curve = expiry_gex_curve(&flat, 100.0).unwrap();
    assert_eq!(curve[0].dominant_strike, None);
}

fn clock(rate: f64, div_yield: f64, right: OptionRight) -> ClockInputs {
    ClockInputs {
        spot: n(100.0),
        strike: n(101.0),
        vol: n(0.2),
        rate: n(rate),
        div_yield: n(div_yield),
        right,
    }
}

#[test]
fn decay_clock_charm_grows_near_expiry_for_otm() {
    let inputs = clock(0.0, 0.0, OptionRight::Call);
    let pts = charm_vanna_clock(&inputs, &[k(SESSION_HOURS), 1.0]).unwrap();
    assert_eq!(pts.len(), 2);
    assert!(
        f(pts[1].charm).abs() > f(pts[0].charm).abs(),
        "OTM charm must accelerate into expiry: {} vs {}",
        f(pts[1].charm),
        f(pts[0].charm)
    );
    assert!(pts.iter().all(|p| f(p.vanna).is_finite()));
}

#[test]
fn decay_clock_matches_kernel_and_expires_honestly() {
    let inputs = clock(0.03, 0.01, OptionRight::Put);
    let pts = charm_vanna_clock(&inputs, &[3.25, 0.0]).unwrap();
    let g = bs_greeks(
        &BsInputs {
            spot: n(100.0),
            strike: n(101.0),
            t_years: trading_hours_to_years(n(3.25)),
            vol: n(0.2),
            rate: n(0.03),
            div_yield: n(0.01),
        },
        OptionRight::Put,
    )
    .unwrap();
    assert_eq!(pts[0].charm, g.charm);
    assert_eq!(pts[0].vanna, g.vanna);
    assert_eq!(f(pts[1].t_years), 0.0);
    assert_eq!(f(pts[1].charm), 0.0);
    assert_eq!(f(pts[1].vanna), 0.0);
}

#[test]
fn session_grid_covers_legacy_cadence() {
    let grid = session_clock_grid();
    assert_eq!(grid.len(), 14);
    assert_eq!(grid[0], Num::of(SESSION_HOURS));
    assert_eq!(f(grid[13]), 0.0);
    for pair in grid.windows(2) {
        assert!((f(pair[0]) - f(pair[1]) - k(DECAY_CLOCK_STEP_HOURS)).abs() < 1e-12);
    }
}

#[test]
fn portfolio_errors_are_values() {
    assert!(matches!(
        aggregate_portfolio(&[stock(f64::NAN, 1.0, 1.0)]),
        Err(PortfolioError::Domain(_))
    ));
    let bad_option = Position::Option {
        right: OptionRight::Call,
        strike: n(-5.0),
        t_years: n(0.1),
        iv: n(0.2),
        quantity: 1,
        entry_price: n(1.0),
        current_price: n(1.0),
        multiplier: n(100.0),
    };
    assert!(matches!(aggregate_portfolio(&[bad_option]), Err(PortfolioError::Quant(_))));
    assert!(matches!(expiry_gex_curve(&[], 0.0), Err(PortfolioError::Domain(_))));
    let inputs = ClockInputs { strike: n(100.0), ..clock(0.0, 0.0, OptionRight::Call) };
    assert!(matches!(charm_vanna_clock(&inputs, &[-1.0]), Err(PortfolioError::Domain(_))));
}

#[test]
fn extremes_bound_the_profit_at_every_spot() {
    let books = [
        vec![leg(OptionRight::Call, 95.0, 1, 7.3), leg(OptionRight::Call, 105.0, -1, 2.1)],
        vec![
            leg(OptionRight::Put, 90.0, 2, 1.15),
            leg(OptionRight::Put, 101.7, -3, 4.4),
            leg(OptionRight::Call, 110.0, -1, 0.85),
        ],
        vec![leg(OptionRight::Call, 100.0, 1, 4.0), leg(OptionRight::Put, 100.0, 1, 3.0)],
    ];
    for legs in books {
        let s = strategy(legs);
        let p = payoff_profile(&s).unwrap();
        for i in 0..=600 {
            let pnl = f(s.payoff_at(n(f64::from(i) * 0.37)));
            if let PayoffExtreme::Bounded(top) = p.max_profit {
                assert!(pnl <= f(top) + 1e-9);
            }
            if let PayoffExtreme::Bounded(low) = p.max_loss {
                assert!(pnl >= f(low) - 1e-9);
            }
        }
        for w in p.breakevens.windows(2) {
            assert!(f(w[0]) <= f(w[1]));
        }
        for &b in &p.breakevens {
            assert!(f(s.payoff_at(b)).abs() < 1e-9);
        }
    }
}

#[test]
fn small_profits_still_cross_zero() {
    // Products of these profits are too small for a number of any size.
    let small = |legs: Vec<Leg>| Strategy { legs, multiplier: n(1e-200) };
    let call = small(vec![leg(OptionRight::Call, 100.0, 1, 5.0)]);
    assert_eq!(payoff_profile(&call).unwrap().breakevens, ns(&[105.0]));
    let spread = small(vec![
        leg(OptionRight::Call, 100.0, 1, 5.0),
        leg(OptionRight::Call, 110.0, -1, 2.0),
    ]);
    let b = payoff_profile(&spread).unwrap().breakevens;
    assert_eq!(b.len(), 1);
    assert!((f(b[0]) - 103.0).abs() < 1e-9);
}

#[test]
fn every_sign_change_has_a_breakeven() {
    let s = strategy(vec![
        leg(OptionRight::Put, 90.0, 1, 2.0),
        leg(OptionRight::Put, 95.0, -2, 5.0),
        leg(OptionRight::Call, 105.0, -3, 5.0),
        leg(OptionRight::Call, 110.0, 4, 2.5),
    ]);
    let b = payoff_profile(&s).unwrap().breakevens;
    let mut changes = 0;
    let mut last = f(s.payoff_at(n(0.005)));
    for i in 1..40_000 {
        let spot = 0.005 + f64::from(i) * 0.01;
        let pnl = f(s.payoff_at(n(spot)));
        if pnl * last < 0.0 {
            changes += 1;
            assert!(b.iter().any(|&x| f(x) >= spot - 0.01 - 1e-9 && f(x) <= spot + 1e-9));
        }
        last = pnl;
    }
    assert_eq!(changes, b.len());
    assert_eq!(changes, 3);
}
