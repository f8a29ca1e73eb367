//! Scenario matrices: a strategy over spot and vol shocks after a decay step,
//! and the risk slide of a single contract.
//!
//! Every leg's baseline is its model price at its own expiry and unshocked
//! market, so the unshocked cell without decay is zero.  Cells come vol-major:
//! all spot shocks of the first vol shock, then of the next.

use crate::algebra;
use crate::arith;
use crate::black_scholes::{self, BsGreeks, BsInputs, BsTerms, QuantError};
use crate::consts::{ONE, ZERO};
use crate::market::OptionRight;
use crate::multileg::{
    self, is_non_negative_finite, is_positive_finite, qty_value, Leg, MarketInputs, Strategy,
    StrategyError,
};
use crate::num::Num;
use vstd::arithmetic::power2::*;
use vstd::prelude::*;

verus! {

/// Default decay step, calendar days (1.0).
pub const SCEN_DEFAULT_DAYS_FWD: u64 = 0x3FF0_0000_0000_0000;

/// Floor on the days left to a single contract (0.05).
pub const SCEN_MIN_DTE_DAYS: u64 = 0x3FA9_9999_9999_999A;

/// Floor on a shocked vol, annualized decimal (0.01).
pub const SHOCKED_VOL_FLOOR: u64 = 0x3F84_7AE1_47AE_147B;

/// Calendar days per year (365.0).
pub const DAYS_PER_YEAR_CAL: u64 = 0x4076_D000_0000_0000;

/// The spot shock that leaves nothing (-1.0).
pub const MINUS_ONE: u64 = 0xBFF0_0000_0000_0000;

/// Default spot shocks of a strategy, fractions of spot (-0.05, -0.025, 0.0, 0.025, 0.05).
pub const SHOCK_DEFAULT_SPOT_GRID: [u64; 5] = [
    0xBFA9_9999_9999_999A,
    0xBF99_9999_9999_999A,
    0x0000_0000_0000_0000,
    0x3F99_9999_9999_999A,
    0x3FA9_9999_9999_999A,
];

/// Default vol shocks of a strategy, decimals added to each vol (-0.05, -0.025, 0.0, 0.025, 0.05).
pub const SHOCK_DEFAULT_VOL_GRID: [u64; 5] = [
    0xBFA9_9999_9999_999A,
    0xBF99_9999_9999_999A,
    0x0000_0000_0000_0000,
    0x3F99_9999_9999_999A,
    0x3FA9_9999_9999_999A,
];

/// Default spot shifts of a single contract, fractions of spot (-0.05, -0.03, -0.015, 0.0, 0.015, 0.03, 0.05).
pub const SCEN_DEFAULT_SPOT_GRID: [u64; 7] = [
    0xBFA9_9999_9999_999A,
    0xBF9E_B851_EB85_1EB8,
    0xBF8E_B851_EB85_1EB8,
    0x0000_0000_0000_0000,
    0x3F8E_B851_EB85_1EB8,
    0x3F9E_B851_EB85_1EB8,
    0x3FA9_9999_9999_999A,
];

/// Default vol shifts of a single contract, decimals (-0.05, -0.02, 0.0, 0.02, 0.05).
pub const SCEN_DEFAULT_IV_GRID: [u64; 5] = [
    0xBFA9_9999_9999_999A,
    0xBF94_7AE1_47AE_147B,
    0x0000_0000_0000_0000,
    0x3F94_7AE1_47AE_147B,
    0x3FA9_9999_9999_999A,
];

/// Errors from scenario repricing.
#[derive(Debug, Clone, Copy, PartialEq)]
pub enum ScenarioError {
    /// A scenario parameter is outside its domain.
    Domain(&'static str),
    /// Error from strategy validation.
    Strategy(StrategyError),
    /// Error from the pricing kernel.
    Quant(QuantError),
}

/// One cell: the shocks, the repriced profit, and the shocked greeks.
#[derive(Debug, Clone, Copy, PartialEq)]
pub struct ShockCell {
    /// Spot shock, fraction of spot.
    pub spot_shock: Num,
    /// Vol shock, decimal added to each vol.
    pub vol_shock: Num,
    /// Profit against the baseline of the strategy or the entry of the contract.
    pub pnl: Num,
    /// Value per spot point, times signed quantity.
    pub delta: Num,
    /// Delta per spot point, times signed quantity.
    pub gamma: Num,
    /// Value per unit vol, times signed quantity.
    pub vega: Num,
    /// Value per year, times signed quantity.
    pub theta: Num,
}

/// One contract of the risk slide.
#[derive(Debug, Clone, Copy, PartialEq)]
pub struct ContractSpec {
    /// Call or put.
    pub right: OptionRight,
    /// Strike, points.
    pub strike: Num,
    /// Calendar days to expiry.
    pub dte_days: Num,
    /// Implied vol, annualized decimal.
    pub iv: Num,
    /// Entry premium per share.
    pub entry_price: Num,
    /// Signed contract count.
    pub quantity: i32,
}

impl ContractSpec {
    /// What is wrong with a contract.
    pub open spec fn problem(self) -> Option<ScenarioError> {
        if !multileg::positive_finite(self.strike) {
            Some(ScenarioError::Domain("contract strike must be positive and finite"))
        } else if !multileg::non_negative_finite(self.dte_days) {
            Some(ScenarioError::Domain("contract dte_days must be non-negative and finite"))
        } else if !multileg::non_negative_finite(self.iv) {
            Some(ScenarioError::Domain("contract iv must be non-negative and finite"))
        } else if !multileg::non_negative_finite(self.entry_price) {
            Some(ScenarioError::Domain("contract entry_price must be non-negative and finite"))
        } else {
            None
        }
    }

    /// Validates the domain of a contract.
    pub fn validate(&self) -> (r: Result<(), ScenarioError>)
        ensures
            match r {
                Ok(_) => self.problem() is None,
                Err(e) => self.problem() == Some(e),
            },
    {
        if !is_positive_finite(self.strike) {
            return Err(ScenarioError::Domain("contract strike must be positive and finite"));
        }
        if !is_non_negative_finite(self.dte_days) {
            return Err(ScenarioError::Domain("contract dte_days must be non-negative and finite"));
        }
        if !is_non_negative_finite(self.iv) {
            return Err(ScenarioError::Domain("contract iv must be non-negative and finite"));
        }
        if !is_non_negative_finite(self.entry_price) {
            return Err(
                ScenarioError::Domain("contract entry_price must be non-negative and finite"),
            );
        }
        Ok(())
    }
}

/// Whether a spot shock is finite and above minus 100%.
pub open spec fn spot_shock_ok(s: Num) -> bool {
    s.finite() && !s.fle(Num::of(MINUS_ONE))
}

/// What is wrong with the shocks of a matrix.
pub open spec fn shocks_problem(spots: Seq<Num>, vols: Seq<Num>) -> Option<ScenarioError> {
    if exists|i: int| 0 <= i < spots.len() && !spot_shock_ok(#[trigger] spots[i]) {
        Some(ScenarioError::Domain("spot shocks must be finite and above -100%"))
    } else if exists|i: int| 0 <= i < vols.len() && !(#[trigger] vols[i]).finite() {
        Some(ScenarioError::Domain("vol shocks must be finite"))
    } else {
        None
    }
}

/// What is wrong with a decay step.
pub open spec fn days_problem(days: Num) -> Option<ScenarioError> {
    if multileg::non_negative_finite(days) {
        None
    } else {
        Some(ScenarioError::Domain("days_forward must be non-negative and finite"))
    }
}

fn validate_shocks(spot_shocks: &Vec<Num>, vol_shocks: &Vec<Num>) -> (r: Result<(), ScenarioError>)
    ensures
        match r {
            Ok(_) => shocks_problem(spot_shocks@, vol_shocks@) is None,
            Err(e) => shocks_problem(spot_shocks@, vol_shocks@) == Some(e),
        },
{
    let mut i: usize = 0;
    while i < spot_shocks.len()
        invariant
            i <= spot_shocks@.len(),
            forall|k: int| 0 <= k < i ==> spot_shock_ok(#[trigger] spot_shocks@[k]),
        decreases spot_shocks@.len() - i,
    {
        let s = spot_shocks[i];
        if !s.is_finite() || s <= Num::of(MINUS_ONE) {
            proof {
                assert(!spot_shock_ok(spot_shocks@[i as int]));
            }
            return Err(ScenarioError::Domain("spot shocks must be finite and above -100%"));
        }
        i = i + 1;
    }
    let mut i: usize = 0;
    while i < vol_shocks.len()
        invariant
            i <= vol_shocks@.len(),
            forall|k: int| 0 <= k < spot_shocks@.len() ==> spot_shock_ok(#[trigger] spot_shocks@[k]),
            forall|k: int| 0 <= k < i ==> (#[trigger] vol_shocks@[k]).finite(),
        decreases vol_shocks@.len() - i,
    {
        if !vol_shocks[i].is_finite() {
            proof {
                assert(!vol_shocks@[i as int].finite());
            }
            return Err(ScenarioError::Domain("vol shocks must be finite"));
        }
        i = i + 1;
    }
    Ok(())
}

fn validate_days_forward(days_forward: Num) -> (r: Result<(), ScenarioError>)
    ensures
        match r {
            Ok(_) => days_problem(days_forward) is None,
            Err(e) => days_problem(days_forward) == Some(e),
        },
{
    if is_non_negative_finite(days_forward) {
        Ok(())
    } else {
        Err(ScenarioError::Domain("days_forward must be non-negative and finite"))
    }
}

/// A vol under a shock, not below the floor; the vol itself without a shock.
pub open spec fn shocked_vol(vol: Num, vol_shock: Num) -> Num {
    if vol_shock.feq(Num::of(ZERO)) {
        vol
    } else {
        vol.fadd(vol_shock).fmax(Num::of(SHOCKED_VOL_FLOOR))
    }
}

/// The contract of a leg under shocks after a decay step, in years.
pub open spec fn shocked(
    leg: Leg,
    vol: Num,
    market: MarketInputs,
    spot_shock: Num,
    vol_shock: Num,
    decay_years: Num,
) -> BsInputs {
    BsInputs {
        spot: market.spot.fmul(Num::of(ONE).fadd(spot_shock)),
        strike: leg.strike,
        t_years: leg.expiry_t_years.fsub(decay_years).fmax(Num::of(ZERO)),
        vol: shocked_vol(vol, vol_shock),
        rate: market.rate,
        div_yield: market.div_yield,
    }
}

/// The contract that the kernel prices for a leg of a shocked strategy.
pub fn shocked_leg_inputs(
    leg: &Leg,
    vol: Num,
    market: &MarketInputs,
    spot_shock: Num,
    vol_shock: Num,
    days_forward: Num,
) -> (r: BsInputs)
    ensures
        r == shocked(
            *leg,
            vol,
            *market,
            spot_shock,
            vol_shock,
            days_forward.fdiv(Num::of(DAYS_PER_YEAR_CAL)),
        ),
{
    BsInputs {
        spot: market.spot * (Num::of(ONE) + spot_shock),
        strike: leg.strike,
        t_years: (leg.expiry_t_years - days_forward / Num::of(DAYS_PER_YEAR_CAL)).max(
            Num::of(ZERO),
        ),
        vol: if vol_shock == Num::of(ZERO) {
            vol
        } else {
            (vol + vol_shock).max(Num::of(SHOCKED_VOL_FLOOR))
        },
        rate: market.rate,
        div_yield: market.div_yield,
    }
}

impl ShockCell {
    /// A cell before any leg.
    pub open spec fn blank(spot_shock: Num, vol_shock: Num) -> ShockCell {
        ShockCell {
            spot_shock,
            vol_shock,
            pnl: Num::of(ZERO),
            delta: Num::of(ZERO),
            gamma: Num::of(ZERO),
            vega: Num::of(ZERO),
            theta: Num::of(ZERO),
        }
    }

    /// A cell with one more leg.
    pub open spec fn plus(self, value: Num, base: Num, g: BsGreeks, qty: Num, multiplier: Num) -> ShockCell {
        ShockCell {
            spot_shock: self.spot_shock,
            vol_shock: self.vol_shock,
            pnl: self.pnl.fadd(value.fsub(base).fmul(qty).fmul(multiplier)),
            delta: self.delta.fadd(g.delta.fmul(qty)),
            gamma: self.gamma.fadd(g.gamma.fmul(qty)),
            vega: self.vega.fadd(g.vega.fmul(qty)),
            theta: self.theta.fadd(g.theta.fmul(qty)),
        }
    }
}

/// Whether the first `n` legs can be priced under shocks.
pub open spec fn cell_priceable(
    legs: Seq<Leg>,
    vols: Seq<Num>,
    market: MarketInputs,
    spot_shock: Num,
    vol_shock: Num,
    decay_years: Num,
    n: nat,
) -> bool {
    forall|i: int|
        0 <= i < n ==> shocked(
            #[trigger] legs[i],
            vols[i],
            market,
            spot_shock,
            vol_shock,
            decay_years,
        ).in_domain()
}

/// A cell with the first `n` legs.
pub open spec fn cell_of(
    s: Strategy,
    vols: Seq<Num>,
    market: MarketInputs,
    base_terms: Seq<BsTerms>,
    spot_shock: Num,
    vol_shock: Num,
    decay_years: Num,
    terms: Seq<BsTerms>,
    n: nat,
) -> ShockCell
    decreases n,
{
    if n == 0 {
        ShockCell::blank(spot_shock, vol_shock)
    } else {
        let leg = s.legs@[n - 1];
        let now = shocked(leg, vols[n - 1], market, spot_shock, vol_shock, decay_years);
        let then = multileg::leg_inputs(&leg, vols[n - 1], &market);
        cell_of(
            s,
            vols,
            market,
            base_terms,
            spot_shock,
            vol_shock,
            decay_years,
            terms,
            (n - 1) as nat,
        ).plus(
            now.value(leg.right, terms[n - 1]),
            then.value(leg.right, base_terms[n - 1]),
            BsGreeks::of_contract(now, leg.right, terms[n - 1]),
            multileg::qty_num(leg.quantity),
            s.multiplier,
        )
    }
}

/// The terms of every cell, by vol shock and spot shock, then per leg.
pub open spec fn terms_fit(terms: Seq<Vec<Vec<BsTerms>>>, vols: nat, spots: nat, legs: nat) -> bool {
    &&& terms.len() == vols
    &&& forall|v: int| 0 <= v < vols ==> (#[trigger] terms[v])@.len() == spots
    &&& forall|v: int, s: int|
        0 <= v < vols && 0 <= s < spots ==> (#[trigger] terms[v]@[s])@.len() == legs
}

/// The first `m` cells of row `v`.
pub open spec fn row_of(
    s: Strategy,
    vols: Seq<Num>,
    market: MarketInputs,
    base_terms: Seq<BsTerms>,
    spot_shocks: Seq<Num>,
    vol_shock: Num,
    decay_years: Num,
    terms: Seq<Vec<BsTerms>>,
    m: nat,
) -> Seq<ShockCell> {
    Seq::new(
        m,
        |k: int|
            cell_of(
                s,
                vols,
                market,
                base_terms,
                spot_shocks[k],
                vol_shock,
                decay_years,
                terms[k]@,
                s.legs@.len(),
            ),
    )
}

/// The first `n` rows of a matrix.
pub open spec fn rows_of(
    s: Strategy,
    vols: Seq<Num>,
    market: MarketInputs,
    base_terms: Seq<BsTerms>,
    spot_shocks: Seq<Num>,
    vol_shocks: Seq<Num>,
    decay_years: Num,
    terms: Seq<Vec<Vec<BsTerms>>>,
    n: nat,
) -> Seq<ShockCell>
    decreases n,
{
    if n == 0 {
        Seq::empty()
    } else {
        rows_of(
            s,
            vols,
            market,
            base_terms,
            spot_shocks,
            vol_shocks,
            decay_years,
            terms,
            (n - 1) as nat,
        ) + row_of(
            s,
            vols,
            market,
            base_terms,
            spot_shocks,
            vol_shocks[n - 1],
            decay_years,
            terms[n - 1]@,
            spot_shocks.len(),
        )
    }
}

/// What is wrong with the inputs of a strategy matrix, but for the pricing domain.
pub open spec fn matrix_problem(
    s: Strategy,
    vols: Seq<Num>,
    spot_shocks: Seq<Num>,
    vol_shocks: Seq<Num>,
    days_forward: Num,
) -> Option<ScenarioError> {
    if s.problem() is Some {
        Some(ScenarioError::Strategy(s.problem()->0))
    } else if vols.len() != s.legs@.len() {
        Some(
            ScenarioError::Strategy(
                StrategyError::VolCountMismatch {
                    legs: s.legs@.len() as usize,
                    vols: vols.len() as usize,
                },
            ),
        )
    } else if shocks_problem(spot_shocks, vol_shocks) is Some {
        shocks_problem(spot_shocks, vol_shocks)
    } else {
        days_problem(days_forward)
    }
}

/// Whether the baseline and every cell of a matrix can be priced.
pub open spec fn matrix_priceable(
    s: Strategy,
    vols: Seq<Num>,
    market: MarketInputs,
    spot_shocks: Seq<Num>,
    vol_shocks: Seq<Num>,
    decay_years: Num,
) -> bool {
    &&& multileg::legs_priceable(s.legs@, vols, market, s.legs@.len())
    &&& forall|v: int, k: int|
        #![trigger vol_shocks[v], spot_shocks[k]]
        0 <= v < vol_shocks.len() && 0 <= k < spot_shocks.len() ==> cell_priceable(
            s.legs@,
            vols,
            market,
            spot_shocks[k],
            vol_shocks[v],
            decay_years,
            s.legs@.len(),
        )
}

fn price_baseline(
    strategy: &Strategy,
    vols: &Vec<Num>,
    market: &MarketInputs,
    base_terms: &Vec<BsTerms>,
) -> (r: Result<Vec<Num>, QuantError>)
    requires
        vols@.len() == strategy.legs@.len(),
        base_terms@.len() == strategy.legs@.len(),
    ensures
        match r {
            Ok(b) => {
                &&& multileg::legs_priceable(strategy.legs@, vols@, *market, strategy.legs@.len())
                &&& b@.len() == strategy.legs@.len()
                &&& forall|k: int|
                    0 <= k < b@.len() ==> b@[k] == multileg::leg_inputs(
                        &strategy.legs@[k],
                        vols@[k],
                        market,
                    ).value(strategy.legs@[k].right, base_terms@[k])
            },
            Err(e) => {
                &&& !multileg::legs_priceable(strategy.legs@, vols@, *market, strategy.legs@.len())
                &&& e == QuantError::Domain("BsInputs out of domain")
            },
        },
{
    let mut b: Vec<Num> = Vec::new();
    let mut i: usize = 0;
    while i < strategy.legs.len()
        invariant
            i <= strategy.legs@.len() == vols@.len(),
            base_terms@.len() == strategy.legs@.len(),
            b@.len() == i,
            multileg::legs_priceable(strategy.legs@, vols@, *market, i as nat),
            forall|k: int|
                0 <= k < i ==> b@[k] == multileg::leg_inputs(
                    &strategy.legs@[k],
                    vols@[k],
                    market,
                ).value(strategy.legs@[k].right, base_terms@[k]),
        decreases strategy.legs@.len() - i,
    {
        let leg = strategy.legs[i];
        let inputs = multileg::leg_inputs(&leg, vols[i], market);
        match black_scholes::price(&inputs, leg.right, &base_terms[i]) {
            Ok(p) => {
                b.push(p);
            },
            Err(e) => {
                proof {
                    assert(!multileg::leg_inputs(
                        &strategy.legs@[i as int],
                        vols@[i as int],
                        market,
                    ).in_domain());
                }
                return Err(e);
            },
        }
        i = i + 1;
    }
    Ok(b)
}

fn price_cell(
    strategy: &Strategy,
    vols: &Vec<Num>,
    market: &MarketInputs,
    baseline: &Vec<Num>,
    Ghost(base_terms): Ghost<Seq<BsTerms>>,
    spot_shock: Num,
    vol_shock: Num,
    days_forward: Num,
    terms: &Vec<BsTerms>,
) -> (r: Result<ShockCell, QuantError>)
    requires
        vols@.len() == strategy.legs@.len(),
        terms@.len() == strategy.legs@.len(),
        baseline@.len() == strategy.legs@.len(),
        base_terms.len() == strategy.legs@.len(),
        forall|k: int|
            0 <= k < baseline@.len() ==> baseline@[k] == multileg::leg_inputs(
                &strategy.legs@[k],
                vols@[k],
                market,
            ).value(strategy.legs@[k].right, base_terms[k]),
    ensures
        ({
            let decay = days_forward.fdiv(Num::of(DAYS_PER_YEAR_CAL));
            let n = strategy.legs@.len();
            let fits = cell_priceable(
                strategy.legs@,
                vols@,
                *market,
                spot_shock,
                vol_shock,
                decay,
                n,
            );
            match r {
                Ok(c) => fits && c == cell_of(
                    *strategy,
                    vols@,
                    *market,
                    base_terms,
                    spot_shock,
                    vol_shock,
                    decay,
                    terms@,
                    n,
                ),
                Err(e) => !fits && e == QuantError::Domain("BsInputs out of domain"),
            }
        }),
{
    let zero = Num::of(ZERO);
    let ghost decay = days_forward.fdiv(Num::of(DAYS_PER_YEAR_CAL));
    let mut cell = ShockCell {
        spot_shock,
        vol_shock,
        pnl: zero,
        delta: zero,
        gamma: zero,
        vega: zero,
        theta: zero,
    };
    let mut i: usize = 0;
    while i < strategy.legs.len()
        invariant
            i <= strategy.legs@.len() == vols@.len(),
            terms@.len() == strategy.legs@.len(),
            baseline@.len() == strategy.legs@.len(),
            base_terms.len() == strategy.legs@.len(),
            decay == days_forward.fdiv(Num::of(DAYS_PER_YEAR_CAL)),
            forall|k: int|
                0 <= k < baseline@.len() ==> baseline@[k] == multileg::leg_inputs(
                    &strategy.legs@[k],
                    vols@[k],
                    market,
                ).value(strategy.legs@[k].right, base_terms[k]),
            cell_priceable(
                strategy.legs@,
                vols@,
                *market,
                spot_shock,
                vol_shock,
                decay,
                i as nat,
            ),
            cell == cell_of(
                *strategy,
                vols@,
                *market,
                base_terms,
                spot_shock,
                vol_shock,
                decay,
                terms@,
                i as nat,
            ),
        decreases strategy.legs@.len() - i,
    {
        let leg = strategy.legs[i];
        let inputs = shocked_leg_inputs(
            &leg,
            vols[i],
            market,
            spot_shock,
            vol_shock,
            days_forward,
        );
        let price = match black_scholes::price(&inputs, leg.right, &terms[i]) {
            Ok(p) => p,
            Err(e) => {
                proof {
                    assert(!shocked(
                        strategy.legs@[i as int],
                        vols@[i as int],
                        *market,
                        spot_shock,
                        vol_shock,
                        decay,
                    ).in_domain());
                }
                return Err(e);
            },
        };
        let g = match black_scholes::greeks(&inputs, leg.right, &terms[i]) {
            Ok(g) => g,
            Err(e) => return Err(e),
        };
        let qty = qty_value(leg.quantity);
        cell = ShockCell {
            spot_shock: cell.spot_shock,
            vol_shock: cell.vol_shock,
            pnl: cell.pnl + (price - baseline[i]) * qty * strategy.multiplier,
            delta: cell.delta + g.delta * qty,
            gamma: cell.gamma + g.gamma * qty,
            vega: cell.vega + g.vega * qty,
            theta: cell.theta + g.theta * qty,
        };
        proof {
            assert(baseline@[i as int] == multileg::leg_inputs(&leg, vols@[i as int], market).value(
                leg.right,
                base_terms[i as int],
            ));
        }
        i = i + 1;
    }
    Ok(cell)
}

/// Reprices a strategy over spot and vol shocks after a decay step.
///
/// `vols` holds one vol per leg.  `base_terms` holds the machine's terms of
/// each leg's unshocked contract (see `multileg::leg_inputs`), and `terms`
/// those of each leg's shocked contract, by vol shock, spot shock and leg (see
/// `shocked_leg_inputs`).
pub fn strategy_shock_matrix(
    strategy: &Strategy,
    vols: &Vec<Num>,
    market: &MarketInputs,
    spot_shocks: &Vec<Num>,
    vol_shocks: &Vec<Num>,
    days_forward: Num,
    base_terms: &Vec<BsTerms>,
    terms: &Vec<Vec<Vec<BsTerms>>>,
) -> (r: Result<Vec<ShockCell>, ScenarioError>)
    requires
        base_terms@.len() == strategy.legs@.len(),
        terms_fit(terms@, vol_shocks@.len(), spot_shocks@.len(), strategy.legs@.len()),
    ensures
        ({
            let decay = days_forward.fdiv(Num::of(DAYS_PER_YEAR_CAL));
            let problem = matrix_problem(
                *strategy,
                vols@,
                spot_shocks@,
                vol_shocks@,
                days_forward,
            );
            let fits = matrix_priceable(
                *strategy,
                vols@,
                *market,
                spot_shocks@,
                vol_shocks@,
                decay,
            );
            match r {
                Ok(cells) => {
                    &&& problem is None
                    &&& fits
                    &&& cells@ == rows_of(
                        *strategy,
                        vols@,
                        *market,
                        base_terms@,
                        spot_shocks@,
                        vol_shocks@,
                        decay,
                        terms@,
                        vol_shocks@.len(),
                    )
                },
                Err(e) => if problem is Some {
                    problem == Some(e)
                } else {
                    !fits && e == ScenarioError::Quant(QuantError::Domain("BsInputs out of domain"))
                },
            }
        }),
{
    match strategy.validate() {
        Ok(_) => {},
        Err(e) => return Err(ScenarioError::Strategy(e)),
    }
    if vols.len() != strategy.legs.len() {
        return Err(
            ScenarioError::Strategy(
                StrategyError::VolCountMismatch { legs: strategy.legs.len(), vols: vols.len() },
            ),
        );
    }
    match validate_shocks(spot_shocks, vol_shocks) {
        Ok(_) => {},
        Err(e) => return Err(e),
    }
    match validate_days_forward(days_forward) {
        Ok(_) => {},
        Err(e) => return Err(e),
    }
    let baseline = match price_baseline(strategy, vols, market, base_terms) {
        Ok(b) => b,
        Err(e) => return Err(ScenarioError::Quant(e)),
    };
    let ghost decay = days_forward.fdiv(Num::of(DAYS_PER_YEAR_CAL));
    let mut cells: Vec<ShockCell> = Vec::new();
    let mut v: usize = 0;
    while v < vol_shocks.len()
        invariant
            v <= vol_shocks@.len(),
            vols@.len() == strategy.legs@.len(),
            baseline@.len() == strategy.legs@.len(),
            base_terms@.len() == strategy.legs@.len(),
            decay == days_forward.fdiv(Num::of(DAYS_PER_YEAR_CAL)),
            terms_fit(terms@, vol_shocks@.len(), spot_shocks@.len(), strategy.legs@.len()),
            matrix_problem(*strategy, vols@, spot_shocks@, vol_shocks@, days_forward) is None,
            forall|k: int|
                0 <= k < baseline@.len() ==> baseline@[k] == multileg::leg_inputs(
                    &strategy.legs@[k],
                    vols@[k],
                    market,
                ).value(strategy.legs@[k].right, base_terms@[k]),
            forall|a: int, k: int|
                #![trigger vol_shocks@[a], spot_shocks@[k]]
                0 <= a < v && 0 <= k < spot_shocks@.len() ==> cell_priceable(
                    strategy.legs@,
                    vols@,
                    *market,
                    spot_shocks@[k],
                    vol_shocks@[a],
                    decay,
                    strategy.legs@.len(),
                ),
            cells@ == rows_of(
                *strategy,
                vols@,
                *market,
                base_terms@,
                spot_shocks@,
                vol_shocks@,
                decay,
                terms@,
                v as nat,
            ),
        decreases vol_shocks@.len() - v,
    {
        let ghost above = cells@;
        let vol_shock = vol_shocks[v];
        let row_terms = &terms[v];
        let mut s: usize = 0;
        proof {
            assert(cells@ =~= above + row_of(
                *strategy,
                vols@,
                *market,
                base_terms@,
                spot_shocks@,
                vol_shock,
                decay,
                row_terms@,
                0,
            ));
        }
        while s < spot_shocks.len()
            invariant
                s <= spot_shocks@.len(),
                v < vol_shocks@.len(),
                vol_shock == vol_shocks@[v as int],
                row_terms == terms@[v as int],
                vols@.len() == strategy.legs@.len(),
                baseline@.len() == strategy.legs@.len(),
                base_terms@.len() == strategy.legs@.len(),
                decay == days_forward.fdiv(Num::of(DAYS_PER_YEAR_CAL)),
                terms_fit(terms@, vol_shocks@.len(), spot_shocks@.len(), strategy.legs@.len()),
                matrix_problem(*strategy, vols@, spot_shocks@, vol_shocks@, days_forward) is None,
                forall|k: int|
                    0 <= k < baseline@.len() ==> baseline@[k] == multileg::leg_inputs(
                        &strategy.legs@[k],
                        vols@[k],
                        market,
                    ).value(strategy.legs@[k].right, base_terms@[k]),
                forall|k: int|
                    0 <= k < s ==> cell_priceable(
                        strategy.legs@,
                        vols@,
                        *market,
                        #[trigger] spot_shocks@[k],
                        vol_shock,
                        decay,
                        strategy.legs@.len(),
                    ),
                cells@ == above + row_of(
                    *strategy,
                    vols@,
                    *market,
                    base_terms@,
                    spot_shocks@,
                    vol_shock,
                    decay,
                    row_terms@,
                    s as nat,
                ),
            decreases spot_shocks@.len() - s,
        {
            proof {
                assert(terms@[v as int]@[s as int]@.len() == strategy.legs@.len());
            }
            match price_cell(
                strategy,
                vols,
                market,
                &baseline,
                Ghost(base_terms@),
                spot_shocks[s],
                vol_shock,
                days_forward,
                &row_terms[s],
            ) {
                Ok(c) => {
                    cells.push(c);
                },
                Err(e) => {
                    proof {
                        let (a, b) = (vol_shocks@[v as int], spot_shocks@[s as int]);
                        assert(!matrix_priceable(
                            *strategy,
                            vols@,
                            *market,
                            spot_shocks@,
                            vol_shocks@,
                            decay,
                        ));
                    }
                    return Err(ScenarioError::Quant(e));
                },
            }
            s = s + 1;
            proof {
                assert(cells@ =~= above + row_of(
                    *strategy,
                    vols@,
                    *market,
                    base_terms@,
                    spot_shocks@,
                    vol_shock,
                    decay,
                    row_terms@,
                    s as nat,
                ));
            }
        }
        v = v + 1;
    }
    Ok(cells)
}

/// Years left to a single contract after a decay step.
pub open spec fn slide_years(c: ContractSpec, days_forward: Num) -> Num {
    c.dte_days.fsub(days_forward).fmax(Num::of(SCEN_MIN_DTE_DAYS)).fdiv(Num::of(DAYS_PER_YEAR_CAL))
}

/// The contract of a cell of the risk slide.
pub open spec fn slid(
    c: ContractSpec,
    market: MarketInputs,
    spot_shift: Num,
    iv_shift: Num,
    days_forward: Num,
) -> BsInputs {
    BsInputs {
        spot: market.spot.fmul(Num::of(ONE).fadd(spot_shift)),
        strike: c.strike,
        t_years: slide_years(c, days_forward),
        vol: c.iv.fadd(iv_shift).fmax(Num::of(SHOCKED_VOL_FLOOR)),
        rate: market.rate,
        div_yield: market.div_yield,
    }
}

/// The contract that the kernel prices for a cell of the risk slide.
pub fn slid_contract_inputs(
    contract: &ContractSpec,
    market: &MarketInputs,
    spot_shift: Num,
    iv_shift: Num,
    days_forward: Num,
) -> (r: BsInputs)
    ensures
        r == slid(*contract, *market, spot_shift, iv_shift, days_forward),
{
    BsInputs {
        spot: market.spot * (Num::of(ONE) + spot_shift),
        strike: contract.strike,
        t_years: (contract.dte_days - days_forward).max(Num::of(SCEN_MIN_DTE_DAYS)) / Num::of(
            DAYS_PER_YEAR_CAL,
        ),
        vol: (contract.iv + iv_shift).max(Num::of(SHOCKED_VOL_FLOOR)),
        rate: market.rate,
        div_yield: market.div_yield,
    }
}

/// A cell of the risk slide.
pub open spec fn slide_cell(
    c: ContractSpec,
    market: MarketInputs,
    spot_shift: Num,
    iv_shift: Num,
    days_forward: Num,
    multiplier: Num,
    terms: BsTerms,
) -> ShockCell {
    let inputs = slid(c, market, spot_shift, iv_shift, days_forward);
    let g = BsGreeks::of_contract(inputs, c.right, terms);
    let qty = multileg::qty_num(c.quantity);
    ShockCell {
        spot_shock: spot_shift,
        vol_shock: iv_shift,
        pnl: inputs.value(c.right, terms).fsub(c.entry_price).fmul(qty).fmul(multiplier),
        delta: g.delta.fmul(qty),
        gamma: g.gamma.fmul(qty),
        vega: g.vega.fmul(qty),
        theta: g.theta.fmul(qty),
    }
}

/// The first `n` rows of the risk slide.
pub open spec fn slide_rows(
    c: ContractSpec,
    market: MarketInputs,
    spot_shifts: Seq<Num>,
    iv_shifts: Seq<Num>,
    days_forward: Num,
    multiplier: Num,
    terms: Seq<Vec<BsTerms>>,
    n: nat,
) -> Seq<ShockCell>
    decreases n,
{
    if n == 0 {
        Seq::empty()
    } else {
        slide_rows(
            c,
            market,
            spot_shifts,
            iv_shifts,
            days_forward,
            multiplier,
            terms,
            (n - 1) as nat,
        ) + slide_row(
            c,
            market,
            spot_shifts,
            iv_shifts[n - 1],
            days_forward,
            multiplier,
            terms[n - 1]@,
            spot_shifts.len(),
        )
    }
}

/// The first `m` cells of a row of the risk slide.
pub open spec fn slide_row(
    c: ContractSpec,
    market: MarketInputs,
    spot_shifts: Seq<Num>,
    iv_shift: Num,
    days_forward: Num,
    multiplier: Num,
    terms: Seq<BsTerms>,
    m: nat,
) -> Seq<ShockCell> {
    Seq::new(
        m,
        |k: int|
            slide_cell(
                c,
                market,
                spot_shifts[k],
                iv_shift,
                days_forward,
                multiplier,
                terms[k],
            ),
    )
}

/// What is wrong with the inputs of a risk slide, but for the pricing domain.
pub open spec fn slide_problem(
    c: ContractSpec,
    spot_shifts: Seq<Num>,
    iv_shifts: Seq<Num>,
    days_forward: Num,
    multiplier: Num,
) -> Option<ScenarioError> {
    if c.problem() is Some {
        c.problem()
    } else if shocks_problem(spot_shifts, iv_shifts) is Some {
        shocks_problem(spot_shifts, iv_shifts)
    } else if days_problem(days_forward) is Some {
        days_problem(days_forward)
    } else if !multileg::positive_finite(multiplier) {
        Some(ScenarioError::Domain("multiplier must be positive and finite"))
    } else {
        None
    }
}

/// Whether every cell of the first `n` rows of a risk slide can be priced.
pub open spec fn slide_priceable(
    c: ContractSpec,
    market: MarketInputs,
    spot_shifts: Seq<Num>,
    iv_shifts: Seq<Num>,
    days_forward: Num,
    n: nat,
) -> bool {
    forall|v: int, k: int|
        #![trigger iv_shifts[v], spot_shifts[k]]
        0 <= v < n && 0 <= k < spot_shifts.len() ==> slid(
            c,
            market,
            spot_shifts[k],
            iv_shifts[v],
            days_forward,
        ).in_domain()
}

/// Reprices one contract over spot and vol shifts after a decay step, against
/// its entry premium.
///
/// `terms` holds the machine's terms of each cell's contract, by vol shift and
/// spot shift (see `slid_contract_inputs`).
pub fn contract_scenario_matrix(
    contract: &ContractSpec,
    market: &MarketInputs,
    spot_shifts: &Vec<Num>,
    iv_shifts: &Vec<Num>,
    days_forward: Num,
    multiplier: Num,
    terms: &Vec<Vec<BsTerms>>,
) -> (r: Result<Vec<ShockCell>, ScenarioError>)
    requires
        terms@.len() == iv_shifts@.len(),
        forall|v: int| 0 <= v < terms@.len() ==> (#[trigger] terms@[v])@.len() == spot_shifts@.len(),
    ensures
        ({
            let problem = slide_problem(
                *contract,
                spot_shifts@,
                iv_shifts@,
                days_forward,
                multiplier,
            );
            let fits = slide_priceable(
                *contract,
                *market,
                spot_shifts@,
                iv_shifts@,
                days_forward,
                iv_shifts@.len(),
            );
            match r {
                Ok(cells) => {
                    &&& problem is None
                    &&& fits
                    &&& cells@ == slide_rows(
                        *contract,
                        *market,
                        spot_shifts@,
                        iv_shifts@,
                        days_forward,
                        multiplier,
                        terms@,
                        iv_shifts@.len(),
                    )
                },
                Err(e) => if problem is Some {
                    problem == Some(e)
                } else {
                    !fits && e == ScenarioError::Quant(QuantError::Domain("BsInputs out of domain"))
                },
            }
        }),
{
    match contract.validate() {
        Ok(_) => {},
        Err(e) => return Err(e),
    }
    match validate_shocks(spot_shifts, iv_shifts) {
        Ok(_) => {},
        Err(e) => return Err(e),
    }
    match validate_days_forward(days_forward) {
        Ok(_) => {},
        Err(e) => return Err(e),
    }
    if !is_positive_finite(multiplier) {
        return Err(ScenarioError::Domain("multiplier must be positive and finite"));
    }
    let qty = qty_value(contract.quantity);
    let mut cells: Vec<ShockCell> = Vec::new();
    let mut v: usize = 0;
    while v < iv_shifts.len()
        invariant
            v <= iv_shifts@.len() == terms@.len(),
            qty == multileg::qty_num(contract.quantity),
            slide_problem(*contract, spot_shifts@, iv_shifts@, days_forward, multiplier) is None,
            forall|v: int|
                0 <= v < terms@.len() ==> (#[trigger] terms@[v])@.len() == spot_shifts@.len(),
            slide_priceable(
                *contract,
                *market,
                spot_shifts@,
                iv_shifts@,
                days_forward,
                v as nat,
            ),
            cells@ == slide_rows(
                *contract,
                *market,
                spot_shifts@,
                iv_shifts@,
                days_forward,
                multiplier,
                terms@,
                v as nat,
            ),
        decreases iv_shifts@.len() - v,
    {
        let ghost above = cells@;
        let vol_shock = iv_shifts[v];
        let row_terms = &terms[v];
        let mut s: usize = 0;
        proof {
            assert(cells@ =~= above + slide_row(
                *contract,
                *market,
                spot_shifts@,
                vol_shock,
                days_forward,
                multiplier,
                row_terms@,
                0,
            ));
        }
        while s < spot_shifts.len()
            invariant
                s <= spot_shifts@.len() == row_terms@.len(),
                v < iv_shifts@.len(),
                vol_shock == iv_shifts@[v as int],
                qty == multileg::qty_num(contract.quantity),
                slide_problem(*contract, spot_shifts@, iv_shifts@, days_forward, multiplier)
                    is None,
                forall|k: int|
                    0 <= k < s ==> slid(
                        *contract,
                        *market,
                        #[trigger] spot_shifts@[k],
                        vol_shock,
                        days_forward,
                    ).in_domain(),
                cells@ == above + slide_row(
                    *contract,
                    *market,
                    spot_shifts@,
                    vol_shock,
                    days_forward,
                    multiplier,
                    row_terms@,
                    s as nat,
                ),
            decreases spot_shifts@.len() - s,
        {
            let spot_shock = spot_shifts[s];
            let inputs = slid_contract_inputs(
                contract,
                market,
                spot_shock,
                vol_shock,
                days_forward,
            );
            let price = match black_scholes::price(&inputs, contract.right, &row_terms[s]) {
                Ok(p) => p,
                Err(e) => {
                    proof {
                        let (a, b) = (iv_shifts@[v as int], spot_shifts@[s as int]);
                        assert(!slide_priceable(
                            *contract,
                            *market,
                            spot_shifts@,
                            iv_shifts@,
                            days_forward,
                            iv_shifts@.len(),
                        ));
                    }
                    return Err(ScenarioError::Quant(e));
                },
            };
            let g = match black_scholes::greeks(&inputs, contract.right, &row_terms[s]) {
                Ok(g) => g,
                Err(e) => return Err(ScenarioError::Quant(e)),
            };
            cells.push(
                ShockCell {
                    spot_shock,
                    vol_shock,
                    pnl: (price - contract.entry_price) * qty * multiplier,
                    delta: g.delta * qty,
                    gamma: g.gamma * qty,
                    vega: g.vega * qty,
                    theta: g.theta * qty,
                },
            );
            s = s + 1;
            proof {
                assert(cells@ =~= above + slide_row(
                    *contract,
                    *market,
                    spot_shifts@,
                    vol_shock,
                    days_forward,
                    multiplier,
                    row_terms@,
                    s as nat,
                ));
            }
        }
        v = v + 1;
    }
    Ok(cells)
}

/// Without shocks and decay, a leg's shocked contract is its own contract.
pub proof fn law_unshocked_leg_keeps_its_contract(leg: Leg, vol: Num, market: MarketInputs)
    requires
        leg.problem() is None,
        !market.spot.nan(),
        !vol.nan(),
    ensures
        shocked(
            leg,
            vol,
            market,
            Num::of(ZERO),
            Num::of(ZERO),
            Num::of(ZERO).fdiv(Num::of(DAYS_PER_YEAR_CAL)),
        ) == multileg::leg_inputs(&leg, vol, &market),
{
    let decay = Num::of(ZERO).fdiv(Num::of(DAYS_PER_YEAR_CAL));
    assert(decay == Num::of(ZERO)) by {
        reveal(Num::fdiv);
        arith::lemma_zero_size(Num::of(ZERO));
        arith::lemma_zero_size(Num::of(DAYS_PER_YEAR_CAL));
        arith::lemma_round_zero(Num::of(DAYS_PER_YEAR_CAL).size());
        let p = pow2(1074);
        assert(Num::of(ZERO).size() * p == 0) by (nonlinear_arith)
            requires
                Num::of(ZERO).size() == 0,
        ;
    }
    algebra::law_add_zero(Num::of(ONE));
    algebra::law_mul_one(market.spot);
    algebra::law_add_zero(leg.expiry_t_years);
    algebra::law_add_zero(vol);
}

/// Without shocks and decay, and with the same terms on both sides, a cell's
/// profit is zero: each leg is measured against its own baseline.
pub proof fn law_unshocked_cell_is_flat(
    s: Strategy,
    vols: Seq<Num>,
    market: MarketInputs,
    terms: Seq<BsTerms>,
    n: nat,
)
    requires
        n <= s.legs@.len(),
        s.multiplier.finite(),
        !market.spot.nan(),
        forall|i: int|
            0 <= i < n ==> (#[trigger] s.legs@[i]).problem() is None && !vols[i].nan()
                && multileg::leg_inputs(&s.legs@[i], vols[i], &market).value(
                s.legs@[i].right,
                terms[i],
            ).finite(),
    ensures
        cell_of(
            s,
            vols,
            market,
            terms,
            Num::of(ZERO),
            Num::of(ZERO),
            Num::of(ZERO).fdiv(Num::of(DAYS_PER_YEAR_CAL)),
            terms,
            n,
        ).pnl == Num::of(ZERO),
    decreases n,
{
    if n > 0 {
        law_unshocked_cell_is_flat(s, vols, market, terms, (n - 1) as nat);
        let leg = s.legs@[n - 1];
        law_unshocked_leg_keeps_its_contract(leg, vols[n - 1], market);
        let v = multileg::leg_inputs(&leg, vols[n - 1], &market).value(leg.right, terms[n - 1]);
        algebra::law_sub_self(v);
        multileg::lemma_qty_finite(leg.quantity);
        let q = multileg::qty_num(leg.quantity);
        algebra::law_zero_mul(Num::of(ZERO), q);
        algebra::law_zero_mul(Num::of(ZERO).fmul(q), s.multiplier);
        let change = Num::of(ZERO).fmul(q).fmul(s.multiplier);
        algebra::law_add_zero(change);
        algebra::law_add_commutes(Num::of(ZERO), change);
        assert(Num::of(ZERO).fadd(change) == Num::of(ZERO)) by {
            reveal(Num::fadd);
            arith::lemma_zero_size(change);
            arith::lemma_zero_size(Num::of(ZERO));
        }
    }
}

/// A short contract mirrors the long one: every part of its cell that is a
/// number is the opposite.
pub proof fn law_short_mirrors_long(
    c: ContractSpec,
    market: MarketInputs,
    spot_shift: Num,
    iv_shift: Num,
    days_forward: Num,
    multiplier: Num,
    terms: BsTerms,
)
    requires
        c.quantity > 0,
    ensures
        ({
            let long = slide_cell(
                c,
                market,
                spot_shift,
                iv_shift,
                days_forward,
                multiplier,
                terms,
            );
            let short = slide_cell(
                (ContractSpec { quantity: (-c.quantity) as i32, ..c }),
                market,
                spot_shift,
                iv_shift,
                days_forward,
                multiplier,
                terms,
            );
            &&& !long.pnl.nan() ==> short.pnl == long.pnl.fneg()
            &&& !long.delta.nan() ==> short.delta == long.delta.fneg()
            &&& !long.gamma.nan() ==> short.gamma == long.gamma.fneg()
            &&& !long.vega.nan() ==> short.vega == long.vega.fneg()
            &&& !long.theta.nan() ==> short.theta == long.theta.fneg()
        }),
{
    let qty = multileg::qty_num(c.quantity);
    let inputs = slid(c, market, spot_shift, iv_shift, days_forward);
    let g = BsGreeks::of_contract(inputs, c.right, terms);
    let gain = inputs.value(c.right, terms).fsub(c.entry_price);
    assert(multileg::qty_num((-c.quantity) as i32) == qty.fneg()) by {
        reveal(Num::whole);
    }
    lemma_opposite(gain, qty);
    lemma_opposite(g.delta, qty);
    lemma_opposite(g.gamma, qty);
    lemma_opposite(g.vega, qty);
    lemma_opposite(g.theta, qty);
    let pnl = gain.fmul(qty);
    if !pnl.fmul(multiplier).nan() {
        assert(!pnl.nan()) by {
            reveal(Num::fmul);
        }
        algebra::law_mul_commutes(multiplier, pnl);
        algebra::law_mul_neg(multiplier, pnl);
    }
}

proof fn lemma_opposite(a: Num, b: Num)
    ensures
        !a.fmul(b).nan() ==> a.fmul(b.fneg()) == a.fmul(b).fneg(),
{
    if !a.fmul(b).nan() {
        algebra::law_mul_neg(a, b);
    }
}

} // verus!
