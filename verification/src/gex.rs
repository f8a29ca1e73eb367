//! Dealer positioning: gamma, delta, vanna and charm structure of an option chain.
//!
//! Exposures are signed, +1 for calls and -1 for puts:
//!
//! - `GEX   = gamma * OI * multiplier * spot^2 * 0.01 * sign`
//! - `DEX   = delta * OI * multiplier * spot * sign`
//! - `VEX   = vanna * OI * multiplier * spot * 0.01 * sign`
//! - `Charm = charm * OI * multiplier * sign`
//!
//! Delta and gamma are the provider's where it supplies greeks, else the
//! kernel's.  Vanna and charm are always the kernel's, so they exist only for
//! quotes that carry an implied vol.  A quote with neither is excluded and
//! counted; nothing is invented for it.

use crate::algebra;
use crate::arith;
use crate::black_scholes::{self, BsGreeks, BsInputs, BsTerms};
use crate::consts::{ONE, TWO, ZERO};
use crate::integral;
use crate::market::{OptionChain, OptionQuote, OptionRight};
use crate::num::Num;
use crate::state::{BinaryState, HysteresisBand, Readout};
use crate::sums;
use vstd::arithmetic::power2::*;
use vstd::prelude::*;

verus! {

/// Scale of an exposure per 1% move (0.01).
pub const PCT_MOVE_SCALE: u64 = 0x3F84_7AE1_47AE_147B;

/// Steepness of the exposure sub-scores (3.0).
pub const EXPOSURE_TANH_K: u64 = 0x4008_0000_0000_0000;

/// Weight of the gamma sub-score in the dealer state index (0.5).
pub const DSI_W_GEX: u64 = 0x3FE0_0000_0000_0000;

/// Weight of the delta sub-score in the dealer state index (0.3).
pub const DSI_W_DEX: u64 = 0x3FD3_3333_3333_3333;

/// Weight of the vanna sub-score in the dealer state index (0.2).
pub const DSI_W_VEX: u64 = 0x3FC9_9999_9999_999A;

/// Least expected move, as a fraction of spot (0.0005).
pub const EM_PCT_FLOOR: u64 = 0x3F40_624D_D2F1_A9FC;

/// Least time to expiry inside the expected move, years (0.0001).
pub const EM_TAU_FLOOR: u64 = 0x3F1A_36E2_EB1C_432D;

/// Distinct strikes needed before a gamma flip can be resolved.
pub const MIN_UNIQUE_STRIKES_FOR_FLIP: usize = 2;

/// Time to expiry when the caller supplies none: one day (0.0027397260273972603).
pub const DEFAULT_T_YEARS: u64 = 0x3F66_719F_3601_671A;

/// Default risk-free rate (0.05).
pub const DEFAULT_RISK_FREE_RATE: u64 = 0x3FA9_9999_9999_999A;

/// Default dividend yield (0.0).
pub const DEFAULT_DIV_YIELD: u64 = 0x0000_0000_0000_0000;

/// Share of gross gamma at which a wall activates (0.15).
pub const WALL_DOMINANCE_ACTIVATE: u64 = 0x3FC3_3333_3333_3333;

/// Share of gross gamma at which a wall deactivates (0.1).
pub const WALL_DOMINANCE_DEACTIVATE: u64 = 0x3FB9_9999_9999_999A;

/// Crossing quality at which the flip activates (0.3).
pub const FLIP_QUALITY_ACTIVATE: u64 = 0x3FD3_3333_3333_3333;

/// Crossing quality at which the flip deactivates (0.2).
pub const FLIP_QUALITY_DEACTIVATE: u64 = 0x3FC9_9999_9999_999A;

/// -1.0.
pub const MINUS_ONE: u64 = 0xBFF0_0000_0000_0000;

/// Band that resolves the dominance of a wall.
#[verifier::allow_in_spec]
pub fn wall_dominance_band() -> HysteresisBand
    returns
        (HysteresisBand {
            activate_at: Num::of(WALL_DOMINANCE_ACTIVATE),
            deactivate_at: Num::of(WALL_DOMINANCE_DEACTIVATE),
        }),
{
    HysteresisBand::new(Num::of(WALL_DOMINANCE_ACTIVATE), Num::of(WALL_DOMINANCE_DEACTIVATE))
}

/// Band that resolves the quality of a gamma flip.
#[verifier::allow_in_spec]
pub fn flip_quality_band() -> HysteresisBand
    returns
        (HysteresisBand {
            activate_at: Num::of(FLIP_QUALITY_ACTIVATE),
            deactivate_at: Num::of(FLIP_QUALITY_DEACTIVATE),
        }),
{
    HysteresisBand::new(Num::of(FLIP_QUALITY_ACTIVATE), Num::of(FLIP_QUALITY_DEACTIVATE))
}

/// Errors producible by `analyze`.
#[derive(Debug, Clone, Copy, PartialEq)]
pub enum GexError {
    /// The chain carried no quotes at all.
    EmptyChain,
    /// Spot was non-finite or non-positive.
    InvalidSpot(Num),
    /// Contract multiplier was non-finite or non-positive.
    InvalidMultiplier(Num),
    /// Time to expiry was non-finite or negative.
    InvalidTime(Num),
    /// Risk-free rate or dividend yield was non-finite.
    NonFiniteParams,
}

/// Pricing context of one expiry.
#[derive(Debug, Clone, Copy, PartialEq)]
pub struct GexParams {
    /// Time to expiry in years.
    pub t_years: Num,
    /// Continuously-compounded risk-free rate, decimal.
    pub rate: Num,
    /// Continuous dividend yield, decimal.
    pub div_yield: Num,
}

impl GexParams {
    /// What is wrong with a pricing context.
    pub open spec fn problem(self) -> Option<GexError> {
        if !self.t_years.finite() || self.t_years.flt(Num::of(ZERO)) {
            Some(GexError::InvalidTime(self.t_years))
        } else if !self.rate.finite() || !self.div_yield.finite() {
            Some(GexError::NonFiniteParams)
        } else {
            None
        }
    }

    /// Builds a pricing context.
    pub fn new(t_years: Num, rate: Num, div_yield: Num) -> (r: GexParams)
        ensures
            r == (GexParams { t_years, rate, div_yield }),
    {
        GexParams { t_years, rate, div_yield }
    }

    fn validate(&self) -> (r: Option<GexError>)
        ensures
            r == self.problem(),
    {
        if !self.t_years.is_finite() || self.t_years < Num::of(ZERO) {
            return Some(GexError::InvalidTime(self.t_years));
        }
        if !self.rate.is_finite() || !self.div_yield.is_finite() {
            return Some(GexError::NonFiniteParams);
        }
        None
    }
}

impl Default for GexParams {
    /// One-day expiry at the default rate and no dividend yield.
    fn default() -> (r: GexParams)
        ensures
            r == (GexParams {
                t_years: Num::of(DEFAULT_T_YEARS),
                rate: Num::of(DEFAULT_RISK_FREE_RATE),
                div_yield: Num::of(DEFAULT_DIV_YIELD),
            }),
    {
        GexParams::new(
            Num::of(DEFAULT_T_YEARS),
            Num::of(DEFAULT_RISK_FREE_RATE),
            Num::of(DEFAULT_DIV_YIELD),
        )
    }
}

/// How much of the chain contributed to the exposures.
#[derive(Debug, Clone, Copy, PartialEq, Eq, Structural)]
pub struct Coverage {
    /// Total quotes in the chain.
    pub total: usize,
    /// Quotes that contributed to GEX and DEX.
    pub resolved: usize,
    /// Quotes excluded for lack of greeks and implied vol, or of a usable strike.
    pub excluded: usize,
    /// Quotes that also contributed to VEX and charm.
    pub vanna_resolved: usize,
}

/// One strike of the dealer ladder, calls and puts merged.
#[derive(Debug, Clone, Copy, PartialEq)]
pub struct StrikeExposure {
    /// Strike price, underlying points.
    pub strike: Num,
    /// Net signed gamma exposure.
    pub gex: Num,
    /// Net signed delta exposure.
    pub dex: Num,
    /// Net signed vanna exposure.
    pub vex: Num,
    /// Net signed charm exposure.
    pub charm: Num,
    /// Signed gamma exposure of the calls.
    pub call_gex: Num,
    /// Signed gamma exposure of the puts.
    pub put_gex: Num,
}

/// A gamma wall: the strike with the largest absolute gamma on one side of spot.
#[derive(Debug, Clone, Copy, PartialEq)]
pub struct Wall {
    /// Wall strike, underlying points.
    pub strike: Num,
    /// Signed gamma exposure at the wall, of its own side only.
    pub gex: Num,
    /// Share of gross gamma, resolved through the dominance band.
    pub dominance: Readout,
}

/// Net and gross exposures over a chain.
#[derive(Debug, Clone, Copy, PartialEq)]
pub struct Totals {
    pub net_gex: Num,
    pub gross_gex: Num,
    pub net_dex: Num,
    pub gross_dex: Num,
    pub net_vex: Num,
    pub gross_vex: Num,
    pub net_charm: Num,
    pub gross_charm: Num,
}

/// Hyperbolic tangents of the host machine, at the points of `exposure_args`.
#[derive(Debug, Clone, Copy, PartialEq)]
pub struct ExposureScores {
    pub gex: Num,
    pub dex: Num,
    pub vex: Num,
}

/// Full dealer-positioning structure of one chain snapshot.
#[derive(Debug, PartialEq)]
pub struct GexStructure {
    /// Underlying spot, points.
    pub spot: Num,
    /// Net signed gamma exposure.
    pub net_gex: Num,
    /// Gross gamma exposure.
    pub gross_gex: Num,
    /// Net signed delta exposure.
    pub net_dex: Num,
    /// Gross delta exposure.
    pub gross_dex: Num,
    /// Net signed vanna exposure.
    pub net_vex: Num,
    /// Gross vanna exposure.
    pub gross_vex: Num,
    /// Net signed charm exposure, per year.
    pub net_charm: Num,
    /// Gross charm exposure.
    pub gross_charm: Num,
    /// Per-strike ladder, ascending by strike.
    pub profile: Vec<StrikeExposure>,
    /// Zero crossing of the cumulative gamma, if there is one.
    pub gamma_flip: Option<Num>,
    /// Crossing quality, resolved through the flip band; 0 without a flip.
    pub flip_readout: Readout,
    /// Dominant call-gamma wall at or above spot.
    pub call_wall: Option<Wall>,
    /// Dominant put-gamma wall at or below spot.
    pub put_wall: Option<Wall>,
    /// Gamma sub-score in [-1, 1].
    pub e_gex: Num,
    /// Delta sub-score.
    pub e_dex: Num,
    /// Vanna sub-score.
    pub e_vex: Num,
    /// Dealer state index in [-1, 1].
    pub dsi: Num,
    /// The index mapped to [0, 1].
    pub dealer01: Num,
    /// Expected move as a fraction of spot, if a quote carries an implied vol.
    pub expected_move_pct: Option<Num>,
    /// Expected move in points.
    pub expected_move_points: Option<Num>,
    /// Chain coverage accounting.
    pub coverage: Coverage,
}

/// Which side of spot a wall search runs on.
#[derive(Debug, Clone, Copy, PartialEq, Eq, Structural)]
pub enum WallSide {
    Call,
    Put,
}

/// A gamma flip and its crossing quality.
#[derive(Debug, Clone, Copy, PartialEq)]
pub struct Flip {
    pub price: Num,
    pub quality: Num,
}

/// What one quote contributes.
#[derive(Debug, Clone, Copy, PartialEq)]
pub struct QuoteExposure {
    pub gex: Option<Num>,
    pub dex: Option<Num>,
    pub vex: Option<Num>,
    pub charm: Option<Num>,
}

/// An implied vol that the kernel can price with.
pub open spec fn usable_iv(q: OptionQuote) -> bool {
    q.iv matches Some(iv) && iv.finite() && Num::of(ZERO).fle(iv)
}

/// A strike that a contract can have.
pub open spec fn usable_strike(q: OptionQuote) -> bool {
    q.strike.finite() && Num::of(ZERO).flt(q.strike)
}

/// The kernel greeks that a quote may use.
pub open spec fn kernel_of(q: OptionQuote, kernel: Option<BsGreeks>) -> Option<BsGreeks> {
    if usable_iv(q) {
        kernel
    } else {
        None
    }
}

/// A quote takes part where its strike is usable and it has greeks of either source.
pub open spec fn included(q: OptionQuote, kernel: Option<BsGreeks>) -> bool {
    usable_strike(q) && (q.greeks is Some || kernel_of(q, kernel) is Some)
}

/// A value that is there and finite.
pub open spec fn finite_some(v: Option<Num>) -> Option<Num> {
    match v {
        Some(x) => if x.finite() {
            Some(x)
        } else {
            None
        },
        None => None,
    }
}

/// `greek * oi * factor * sign`, where the greek is there and the result finite.
pub open spec fn scaled(greek: Option<Num>, oi: Num, factor: Num, sign: Num) -> Option<Num> {
    match greek {
        Some(g) => finite_some(Some(g.fmul(oi).fmul(factor).fmul(sign))),
        None => None,
    }
}

pub open spec fn sign_of(right: OptionRight) -> Num {
    match right {
        OptionRight::Call => Num::of(ONE),
        OptionRight::Put => Num::of(MINUS_ONE),
    }
}

/// The gamma of a quote: its own, or else the kernel's.
pub open spec fn gamma_of(q: OptionQuote, kernel: Option<BsGreeks>) -> Option<Num> {
    match q.greeks {
        Some(g) => Some(g.gamma),
        None => match kernel_of(q, kernel) {
            Some(b) => Some(b.gamma),
            None => None,
        },
    }
}

/// The exposures of an included quote.
pub open spec fn exposure(
    q: OptionQuote,
    kernel: Option<BsGreeks>,
    spot: Num,
    mult: Num,
) -> QuoteExposure {
    let bs = kernel_of(q, kernel);
    let oi = Num::whole(false, q.open_interest as nat);
    let sign = sign_of(q.right);
    let pct = Num::of(PCT_MOVE_SCALE);
    let gamma = gamma_of(q, kernel);
    let delta = match q.greeks {
        Some(g) => Some(g.delta),
        None => match bs {
            Some(b) => Some(b.delta),
            None => None,
        },
    };
    let vanna = match bs {
        Some(b) => Some(b.vanna),
        None => None,
    };
    let charm = match bs {
        Some(b) => Some(b.charm),
        None => None,
    };
    QuoteExposure {
        gex: scaled(gamma, oi, mult.fmul(spot).fmul(spot).fmul(pct), sign),
        dex: scaled(delta, oi, mult.fmul(spot), sign),
        vex: scaled(vanna, oi, mult.fmul(spot).fmul(pct), sign),
        charm: scaled(charm, oi, mult, sign),
    }
}

/// The exposures of every quote in order; an excluded quote has none.
pub open spec fn exposures(chain: OptionChain, kernel: Seq<Option<BsGreeks>>) -> Seq<QuoteExposure> {
    Seq::new(
        chain.quotes@.len(),
        |i: int|
            if included(chain.quotes@[i], kernel[i]) {
                exposure(chain.quotes@[i], kernel[i], chain.spot, chain.multiplier)
            } else {
                QuoteExposure { gex: None, dex: None, vex: None, charm: None }
            },
    )
}

/// Net and gross sums over the exposures.
pub open spec fn totals_of(e: Seq<QuoteExposure>) -> Totals {
    let gex = e.map_values(|x: QuoteExposure| x.gex);
    let dex = e.map_values(|x: QuoteExposure| x.dex);
    let vex = e.map_values(|x: QuoteExposure| x.vex);
    let charm = e.map_values(|x: QuoteExposure| x.charm);
    Totals {
        net_gex: sums::sum_some(gex),
        gross_gex: sums::sum_abs_some(gex),
        net_dex: sums::sum_some(dex),
        gross_dex: sums::sum_abs_some(dex),
        net_vex: sums::sum_some(vex),
        gross_vex: sums::sum_abs_some(vex),
        net_charm: sums::sum_some(charm),
        gross_charm: sums::sum_abs_some(charm),
    }
}

pub open spec fn or_zero(v: Option<Num>) -> Num {
    match v {
        Some(x) => x,
        None => Num::of(ZERO),
    }
}

/// A ladder row after one more quote at its strike.
pub open spec fn with_quote(
    row: StrikeExposure,
    right: OptionRight,
    e: QuoteExposure,
) -> StrikeExposure {
    let g = or_zero(e.gex);
    StrikeExposure {
        strike: row.strike,
        gex: row.gex.fadd(g),
        dex: row.dex.fadd(or_zero(e.dex)),
        vex: row.vex.fadd(or_zero(e.vex)),
        charm: row.charm.fadd(or_zero(e.charm)),
        call_gex: if right == OptionRight::Call {
            row.call_gex.fadd(g)
        } else {
            row.call_gex
        },
        put_gex: if right == OptionRight::Put {
            row.put_gex.fadd(g)
        } else {
            row.put_gex
        },
    }
}

impl StrikeExposure {
    /// A row without exposure.
    pub open spec fn blank(strike: Num) -> StrikeExposure {
        let z = Num::of(ZERO);
        StrikeExposure { strike, gex: z, dex: z, vex: z, charm: z, call_gex: z, put_gex: z }
    }

    fn empty(strike: Num) -> (r: StrikeExposure)
        ensures
            r == StrikeExposure::blank(strike),
    {
        let z = Num::of(ZERO);
        StrikeExposure { strike, gex: z, dex: z, vex: z, charm: z, call_gex: z, put_gex: z }
    }
}

/// The ladder row of a strike over the first `n` quotes.
pub open spec fn row_at(
    chain: OptionChain,
    kernel: Seq<Option<BsGreeks>>,
    strike: Num,
    n: nat,
) -> StrikeExposure
    decreases n,
{
    if n == 0 {
        StrikeExposure::blank(strike)
    } else {
        let before = row_at(chain, kernel, strike, (n - 1) as nat);
        let q = chain.quotes@[n - 1];
        if included(q, kernel[n - 1]) && q.strike == strike {
            with_quote(
                before,
                q.right,
                exposure(q, kernel[n - 1], chain.spot, chain.multiplier),
            )
        } else {
            before
        }
    }
}

/// Whether one of the first `n` quotes takes part at a strike.
pub open spec fn strike_present(
    chain: OptionChain,
    kernel: Seq<Option<BsGreeks>>,
    strike: Num,
    n: nat,
) -> bool {
    exists|i: int|
        0 <= i < n && included(#[trigger] chain.quotes@[i], kernel[i]) && chain.quotes@[i].strike
            == strike
}

/// `rows` is the ladder of the first `n` quotes: one row per strike that takes
/// part, ascending, each with the exposures of its quotes summed in order.
pub open spec fn is_ladder(
    rows: Seq<StrikeExposure>,
    chain: OptionChain,
    kernel: Seq<Option<BsGreeks>>,
    n: nat,
) -> bool {
    &&& forall|i: int, j: int| 0 <= i < j < rows.len() ==> rows[i].strike.flt(rows[j].strike)
    &&& forall|i: int|
        0 <= i < rows.len() ==> (#[trigger] rows[i]) == row_at(chain, kernel, rows[i].strike, n)
            && strike_present(chain, kernel, rows[i].strike, n)
    &&& forall|i: int|
        0 <= i < n && included(#[trigger] chain.quotes@[i], kernel[i]) ==> exists|k: int|
            0 <= k < rows.len() && (#[trigger] rows[k]).strike == chain.quotes@[i].strike
}

/// The number of quotes among the first `n` that meet a condition.
pub open spec fn count(flags: spec_fn(int) -> bool, n: nat) -> nat
    decreases n,
{
    if n == 0 {
        0
    } else {
        count(flags, (n - 1) as nat) + if flags(n - 1) {
            1nat
        } else {
            0nat
        }
    }
}

/// The coverage of the first `n` quotes.
pub open spec fn is_coverage(
    c: Coverage,
    chain: OptionChain,
    kernel: Seq<Option<BsGreeks>>,
    n: nat,
) -> bool {
    &&& c.total == n
    &&& c.resolved == count(|i: int| included(chain.quotes@[i], kernel[i]), n)
    &&& c.vanna_resolved == count(
        |i: int|
            included(chain.quotes@[i], kernel[i]) && kernel_of(chain.quotes@[i], kernel[i]) is Some,
        n,
    )
    &&& c.resolved + c.excluded == c.total
    &&& c.vanna_resolved <= c.resolved
}

/// Cumulative gamma through row `i`.
pub open spec fn cumulative(rows: Seq<StrikeExposure>, i: int) -> Num
    decreases i + 1,
{
    if i < 0 {
        Num::of(ZERO)
    } else {
        cumulative(rows, i - 1).fadd(rows[i].gex)
    }
}

/// Largest absolute cumulative gamma over the first `n` rows.
pub open spec fn peak_cumulative(rows: Seq<StrikeExposure>, n: nat) -> Num
    decreases n,
{
    if n == 0 {
        Num::of(ZERO)
    } else {
        peak_cumulative(rows, (n - 1) as nat).fmax(cumulative(rows, n - 1).fabs())
    }
}

/// The last cumulative gamma before row `i` that is not zero; zero without one.
pub open spec fn side_below(rows: Seq<StrikeExposure>, i: int) -> Num
    decreases i,
{
    if i <= 0 {
        Num::of(ZERO)
    } else if cumulative(rows, i - 1).feq(Num::of(ZERO)) {
        side_below(rows, i - 1)
    } else {
        cumulative(rows, i - 1)
    }
}

/// The first cumulative gamma after row `i` that is not zero; zero without one.
pub open spec fn side_above(rows: Seq<StrikeExposure>, i: int) -> Num
    decreases rows.len() - i,
{
    if i + 1 >= rows.len() {
        Num::of(ZERO)
    } else if cumulative(rows, i + 1).feq(Num::of(ZERO)) {
        side_above(rows, i + 1)
    } else {
        cumulative(rows, i + 1)
    }
}

/// Whether the cumulative gamma changes sign at row `i`, where it is zero, or
/// from there to the next row.
pub open spec fn crosses(rows: Seq<StrikeExposure>, i: int) -> bool {
    let c = cumulative(rows, i);
    if c.feq(Num::of(ZERO)) {
        side_below(rows, i).opposes(side_above(rows, i))
    } else {
        i + 1 < rows.len() && c.opposes(cumulative(rows, i + 1))
    }
}

/// The flip at a crossing: the row itself where the cumulative gamma is zero,
/// else the linear interpolation to the next row.  Its quality is the swing
/// to the next row relative to the peak.
pub open spec fn flip_at(rows: Seq<StrikeExposure>, i: int, peak: Num) -> Flip {
    let c = cumulative(rows, i);
    let swing = cumulative(rows, i + 1).fsub(c);
    let x0 = rows[i].strike;
    Flip {
        price: if c.feq(Num::of(ZERO)) {
            x0
        } else {
            x0.fsub(c.fmul(rows[i + 1].strike.fsub(x0)).fdiv(swing))
        },
        quality: swing.fabs().fdiv(peak).fclamp(Num::of(ZERO), Num::of(ONE)),
    }
}

/// The first cumulative gamma after row `i` that is not zero.
fn next_side(rows: Ghost<Seq<StrikeExposure>>, cums: &Vec<Num>, i: usize) -> (r: Num)
    requires
        i < cums@.len() == rows@.len(),
        forall|k: int| 0 <= k < cums@.len() ==> cums@[k] == cumulative(rows@, k),
    ensures
        r == side_above(rows@, i as int),
{
    let mut j: usize = i;
    while j < cums.len() - 1
        invariant
            i <= j < cums@.len() == rows@.len(),
            forall|k: int| 0 <= k < cums@.len() ==> cums@[k] == cumulative(rows@, k),
            side_above(rows@, i as int) == side_above(rows@, j as int),
        decreases cums@.len() - j,
    {
        if !(cums[j + 1] == Num::of(ZERO)) {
            return cums[j + 1];
        }
        j = j + 1;
    }
    Num::of(ZERO)
}

/// Whether a ladder has a gamma structure in which a flip can be looked for.
pub open spec fn has_structure(rows: Seq<StrikeExposure>) -> bool {
    &&& rows.len() >= MIN_UNIQUE_STRIKES_FOR_FLIP
    &&& !peak_cumulative(rows, rows.len()).fle(Num::of(ZERO))
}

/// The flip of a ladder: the one at its first crossing.
pub open spec fn is_flip(rows: Seq<StrikeExposure>, r: Option<Flip>) -> bool {
    match r {
        Some(f) => has_structure(rows) && exists|i: int|
            0 <= i < rows.len() && crosses(rows, i) && f == flip_at(
                rows,
                i,
                peak_cumulative(rows, rows.len()),
            ) && forall|j: int| 0 <= j < i ==> !#[trigger] crosses(rows, j),
        None => has_structure(rows) ==> forall|j: int|
            0 <= j < rows.len() ==> !#[trigger] crosses(rows, j),
    }
}

/// Zero crossing of the cumulative gamma; `None` without gamma structure or crossing.
pub fn gamma_flip(rows: &Vec<StrikeExposure>) -> (r: Option<Flip>)
    ensures
        is_flip(rows@, r),
{
    if rows.len() < MIN_UNIQUE_STRIKES_FOR_FLIP {
        return None;
    }
    let mut cums: Vec<Num> = Vec::new();
    let mut acc: Num = Num::of(ZERO);
    let mut peak: Num = Num::of(ZERO);
    let mut i: usize = 0;
    while i < rows.len()
        invariant
            i <= rows@.len(),
            cums@.len() == i,
            forall|k: int| 0 <= k < i ==> cums@[k] == cumulative(rows@, k),
            acc == cumulative(rows@, i - 1),
            peak == peak_cumulative(rows@, i as nat),
        decreases rows@.len() - i,
    {
        acc = acc + rows[i].gex;
        cums.push(acc);
        peak = peak.max(acc.abs());
        i = i + 1;
    }
    if peak <= Num::of(ZERO) {
        return None;
    }
    let zero = Num::of(ZERO);
    let mut before = zero;
    let mut i: usize = 0;
    while i < rows.len()
        invariant
            i <= rows@.len(),
            before == side_below(rows@, i as int),
            rows@.len() >= MIN_UNIQUE_STRIKES_FOR_FLIP,
            cums@.len() == rows@.len(),
            forall|k: int| 0 <= k < rows@.len() ==> cums@[k] == cumulative(rows@, k),
            peak == peak_cumulative(rows@, rows@.len()),
            has_structure(rows@),
            zero == Num::of(ZERO),
            forall|j: int| 0 <= j < i ==> !#[trigger] crosses(rows@, j),
        decreases rows@.len() - i,
    {
        let c = cums[i];
        if c == zero {
            if before.is_opposite(next_side(Ghost(rows@), &cums, i)) {
                let d = cums[i + 1];
                let quality = ((d - c).abs() / peak).clamp(zero, Num::of(ONE));
                let f = Flip { price: rows[i].strike, quality };
                proof {
                    assert(crosses(rows@, i as int));
                    assert(f == flip_at(rows@, i as int, peak));
                }
                return Some(f);
            }
        } else if i + 1 < rows.len() {
            let d = cums[i + 1];
            if c.is_opposite(d) {
                let x0 = rows[i].strike;
                let x1 = rows[i + 1].strike;
                let price = x0 - c * (x1 - x0) / (d - c);
                let quality = ((d - c).abs() / peak).clamp(zero, Num::of(ONE));
                let f = Flip { price, quality };
                proof {
                    assert(crosses(rows@, i as int));
                    assert(f == flip_at(rows@, i as int, peak));
                }
                return Some(f);
            }
        }
        proof {
            assert(!crosses(rows@, i as int));
        }
        if !(c == zero) {
            before = c;
        }
        i = i + 1;
    }
    None
}

/// The side before a row holds a cumulative gamma, or nothing.
proof fn lemma_side_below(rows: Seq<StrikeExposure>, i: int)
    ensures
        side_below(rows, i) == Num::of(ZERO) || exists|j: int|
            0 <= j < i && side_below(rows, i) == #[trigger] cumulative(rows, j),
    decreases i,
{
    if i > 0 {
        lemma_side_below(rows, i - 1);
        assert(cumulative(rows, i - 1) == cumulative(rows, i - 1));
    }
}

/// The side after a row holds a cumulative gamma, or nothing.
proof fn lemma_side_above(rows: Seq<StrikeExposure>, i: int)
    ensures
        side_above(rows, i) == Num::of(ZERO) || exists|j: int|
            i < j < rows.len() && side_above(rows, i) == #[trigger] cumulative(rows, j),
    decreases rows.len() - i,
{
    if i + 1 < rows.len() {
        lemma_side_above(rows, i + 1);
        assert(cumulative(rows, i + 1) == cumulative(rows, i + 1));
    }
}

/// A ladder whose cumulative gamma never changes sign has no flip.
pub proof fn law_no_sign_change_no_flip(rows: Seq<StrikeExposure>, r: Option<Flip>)
    requires
        is_flip(rows, r),
        (forall|i: int| 0 <= i < rows.len() ==> !(#[trigger] cumulative(rows, i)).flt(Num::of(ZERO)))
            || (forall|i: int|
            0 <= i < rows.len() ==> !Num::of(ZERO).flt(#[trigger] cumulative(rows, i))),
    ensures
        r is None,
{
    assert forall|i: int| 0 <= i < rows.len() implies !#[trigger] crosses(rows, i) by {
        lemma_side_below(rows, i);
        lemma_side_above(rows, i);
    }
}

/// The gamma that a row holds for one side.
pub open spec fn side_gex(row: StrikeExposure, side: WallSide) -> Num {
    match side {
        WallSide::Call => row.call_gex,
        WallSide::Put => row.put_gex,
    }
}

/// A row that can be the wall of a side: not beyond spot, and with gamma.
pub open spec fn wall_candidate(row: StrikeExposure, spot: Num, side: WallSide) -> bool {
    &&& match side {
        WallSide::Call => spot.fle(row.strike),
        WallSide::Put => row.strike.fle(spot),
    }
    &&& Num::of(ZERO).flt(side_gex(row, side).fabs())
}

/// Row `i` is the wall: no candidate has more absolute gamma, no later one as much.
pub open spec fn is_wall_row(rows: Seq<StrikeExposure>, spot: Num, side: WallSide, i: int) -> bool {
    &&& 0 <= i < rows.len()
    &&& wall_candidate(rows[i], spot, side)
    &&& forall|j: int|
        0 <= j < rows.len() && wall_candidate(#[trigger] rows[j], spot, side) ==> {
            &&& side_gex(rows[j], side).mag() <= side_gex(rows[i], side).mag()
            &&& j > i ==> side_gex(rows[j], side).mag() < side_gex(rows[i], side).mag()
        }
}

/// Share of the gross gamma that a wall holds, in [0, 1].
pub open spec fn dominance_score(gex: Num, gross_gex: Num) -> Num {
    if Num::of(ZERO).flt(gross_gex) {
        gex.fabs().fdiv(gross_gex).fclamp(Num::of(ZERO), Num::of(ONE))
    } else {
        Num::of(ZERO)
    }
}

/// The wall of a ladder on one side.
pub open spec fn is_wall(
    rows: Seq<StrikeExposure>,
    spot: Num,
    gross_gex: Num,
    side: WallSide,
    r: Option<Wall>,
) -> bool {
    match r {
        Some(w) => exists|i: int|
            #[trigger] is_wall_row(rows, spot, side, i) && w == (Wall {
                strike: rows[i].strike,
                gex: side_gex(rows[i], side),
                dominance: Readout::resolved_from(
                    wall_dominance_band(),
                    dominance_score(side_gex(rows[i], side), gross_gex),
                    BinaryState::Inactive,
                ),
            }),
        None => forall|j: int|
            0 <= j < rows.len() ==> !wall_candidate(#[trigger] rows[j], spot, side),
    }
}

/// Dominant wall on one side of spot; on ties the later row wins.
pub fn wall(rows: &Vec<StrikeExposure>, spot: Num, gross_gex: Num, side: WallSide) -> (r: Option<
    Wall,
>)
    ensures
        is_wall(rows@, spot, gross_gex, side, r),
{
    let mut best: Option<usize> = None;
    let mut i: usize = 0;
    while i < rows.len()
        invariant
            i <= rows@.len(),
            match best {
                Some(b) => is_wall_row(rows@.take(i as int), spot, side, b as int),
                None => forall|j: int|
                    0 <= j < i ==> !wall_candidate(#[trigger] rows@[j], spot, side),
            },
        decreases rows@.len() - i,
    {
        let row = rows[i];
        let (near, g) = match side {
            WallSide::Call => (row.strike >= spot, row.call_gex),
            WallSide::Put => (row.strike <= spot, row.put_gex),
        };
        let ghost before = rows@.take(i as int);
        let ghost after = rows@.take(i + 1);
        proof {
            assert forall|j: int| 0 <= j < i implies before[j] == after[j] && before[j]
                == rows@[j] by {}
            assert(after[i as int] == row);
        }
        if near && g.abs() > Num::of(ZERO) {
            let better = match best {
                Some(b) => {
                    let top = match side {
                        WallSide::Call => rows[b].call_gex,
                        WallSide::Put => rows[b].put_gex,
                    };
                    g.magnitude() >= top.magnitude()
                },
                None => true,
            };
            if better {
                best = Some(i);
            }
        }
        proof {
            if let Some(b) = best {
                assert forall|j: int|
                    0 <= j < after.len() && wall_candidate(#[trigger] after[j], spot, side) implies {
                    &&& side_gex(after[j], side).mag() <= side_gex(after[b as int], side).mag()
                    &&& j > b ==> side_gex(after[j], side).mag() < side_gex(
                        after[b as int],
                        side,
                    ).mag()
                } by {
                    if j < i {
                        assert(wall_candidate(before[j], spot, side));
                    }
                }
            }
        }
        i = i + 1;
    }
    proof {
        assert(rows@.take(i as int) =~= rows@);
    }
    match best {
        Some(b) => {
            let row = rows[b];
            let g = match side {
                WallSide::Call => row.call_gex,
                WallSide::Put => row.put_gex,
            };
            let score = if gross_gex > Num::of(ZERO) {
                (g.abs() / gross_gex).clamp(Num::of(ZERO), Num::of(ONE))
            } else {
                Num::of(ZERO)
            };
            let dominance = Readout::resolve(&wall_dominance_band(), score);
            Some(Wall { strike: row.strike, gex: g, dominance })
        },
        None => None,
    }
}

/// Stable tie-break ordinal: calls before puts.
#[verifier::allow_in_spec]
pub fn right_ord(r: OptionRight) -> u8
    returns
        (match r {
            OptionRight::Call => 0u8,
            OptionRight::Put => 1u8,
        }),
{
    match r {
        OptionRight::Call => 0,
        OptionRight::Put => 1,
    }
}

/// A quote whose implied vol can stand for the at-the-money vol.
pub open spec fn atm_candidate(q: OptionQuote) -> bool {
    usable_strike(q) && usable_iv(q)
}

/// `a` stands before `b`: nearer to spot, then lower strike, then call before put.
pub open spec fn nearer(a: OptionQuote, b: OptionQuote, spot: Num) -> bool {
    let da = a.strike.fsub(spot).fabs().rank();
    let db = b.strike.fsub(spot).fabs().rank();
    ||| da < db
    ||| da == db && a.strike.rank() < b.strike.rank()
    ||| da == db && a.strike.rank() == b.strike.rank() && right_ord(a.right) < right_ord(b.right)
}

/// Quote `i` is the first of the nearest candidates.
pub open spec fn is_atm_quote(quotes: Seq<OptionQuote>, spot: Num, i: int) -> bool {
    &&& 0 <= i < quotes.len()
    &&& atm_candidate(quotes[i])
    &&& forall|j: int|
        0 <= j < quotes.len() && atm_candidate(#[trigger] quotes[j]) ==> !nearer(
            quotes[j],
            quotes[i],
            spot,
        )
    &&& forall|j: int|
        0 <= j < i && atm_candidate(#[trigger] quotes[j]) ==> nearer(quotes[i], quotes[j], spot)
}

/// The at-the-money implied vol of a chain.
pub open spec fn is_atm_iv(quotes: Seq<OptionQuote>, spot: Num, r: Option<Num>) -> bool {
    match r {
        Some(iv) => exists|i: int|
            #[trigger] is_atm_quote(quotes, spot, i) && quotes[i].iv == Some(iv),
        None => forall|j: int| 0 <= j < quotes.len() ==> !atm_candidate(#[trigger] quotes[j]),
    }
}

fn is_nearer(a: &OptionQuote, b: &OptionQuote, spot: Num) -> (r: bool)
    ensures
        r == nearer(*a, *b, spot),
{
    let da = (a.strike - spot).abs();
    let db = (b.strike - spot).abs();
    if da.before(db) {
        return true;
    }
    if db.before(da) {
        return false;
    }
    if a.strike.before(b.strike) {
        return true;
    }
    if b.strike.before(a.strike) {
        return false;
    }
    right_ord(a.right) < right_ord(b.right)
}

/// Implied vol of the quote nearest spot; `None` when no quote carries one.
pub fn nearest_atm_iv(quotes: &Vec<OptionQuote>, spot: Num) -> (r: Option<Num>)
    ensures
        is_atm_iv(quotes@, spot, r),
{
    let mut best: Option<(usize, Num)> = None;
    let mut i: usize = 0;
    while i < quotes.len()
        invariant
            i <= quotes@.len(),
            match best {
                Some((b, iv)) => is_atm_quote(quotes@.take(i as int), spot, b as int)
                    && quotes@[b as int].iv == Some(iv),
                None => forall|j: int| 0 <= j < i ==> !atm_candidate(#[trigger] quotes@[j]),
            },
        decreases quotes@.len() - i,
    {
        let q = quotes[i];
        let ghost before = quotes@.take(i as int);
        let ghost after = quotes@.take(i + 1);
        let ghost old_best = best;
        proof {
            assert forall|j: int| 0 <= j < i implies before[j] == after[j] && before[j]
                == quotes@[j] by {}
            assert(after[i as int] == q);
        }
        if q.strike.is_finite() && q.strike > Num::of(ZERO) {
            if let Some(iv) = q.iv {
                if iv.is_finite() && iv >= Num::of(ZERO) {
                    let better = match best {
                        Some((b, _)) => is_nearer(&q, &quotes[b], spot),
                        None => true,
                    };
                    if better {
                        best = Some((i, iv));
                    }
                }
            }
        }
        proof {
            if let Some((b, _)) = best {
                assert forall|j: int|
                    0 <= j < after.len() && atm_candidate(#[trigger] after[j]) implies !nearer(
                    after[j],
                    after[b as int],
                    spot,
                ) by {
                    if j < i {
                        assert(atm_candidate(before[j]));
                    }
                }
                assert forall|j: int|
                    0 <= j < b && atm_candidate(#[trigger] after[j]) implies nearer(
                    after[b as int],
                    after[j],
                    spot,
                ) by {
                    if j < i {
                        assert(atm_candidate(before[j]));
                    }
                }
            }
        }
        i = i + 1;
    }
    proof {
        assert(quotes@.take(i as int) =~= quotes@);
    }
    match best {
        Some((_, iv)) => Some(iv),
        None => None,
    }
}

/// What is wrong with the inputs of `analyze`, in the order it is looked for.
pub open spec fn problem_of(chain: OptionChain, params: GexParams) -> Option<GexError> {
    if params.problem() is Some {
        params.problem()
    } else if !chain.spot.finite() || chain.spot.fle(Num::of(ZERO)) {
        Some(GexError::InvalidSpot(chain.spot))
    } else if !chain.multiplier.finite() || chain.multiplier.fle(Num::of(ZERO)) {
        Some(GexError::InvalidMultiplier(chain.multiplier))
    } else if chain.quotes@.len() == 0 {
        Some(GexError::EmptyChain)
    } else {
        None
    }
}

fn find_problem(chain: &OptionChain, params: &GexParams) -> (r: Option<GexError>)
    ensures
        r == problem_of(*chain, *params),
{
    if let Some(e) = params.validate() {
        return Some(e);
    }
    if !chain.spot.is_finite() || chain.spot <= Num::of(ZERO) {
        return Some(GexError::InvalidSpot(chain.spot));
    }
    if !chain.multiplier.is_finite() || chain.multiplier <= Num::of(ZERO) {
        return Some(GexError::InvalidMultiplier(chain.multiplier));
    }
    if chain.quotes.len() == 0 {
        return Some(GexError::EmptyChain);
    }
    None
}

/// The contract that the kernel prices for a quote, if the quote can use one.
pub open spec fn kernel_contract(q: OptionQuote, spot: Num, params: GexParams) -> Option<BsInputs> {
    if usable_strike(q) && usable_iv(q) {
        Some(
            BsInputs {
                spot,
                strike: q.strike,
                t_years: params.t_years,
                vol: q.iv->0,
                rate: params.rate,
                div_yield: params.div_yield,
            },
        )
    } else {
        None
    }
}

/// The kernel greeks of a quote: those of its contract, where it has one in
/// the kernel's domain.
pub open spec fn kernel_quote(
    q: OptionQuote,
    spot: Num,
    params: GexParams,
    terms: BsTerms,
) -> Option<BsGreeks> {
    match kernel_contract(q, spot, params) {
        Some(c) => if c.in_domain() {
            Some(BsGreeks::of_contract(c, q.right, terms))
        } else {
            None
        },
        None => None,
    }
}

/// The kernel greeks of every quote of a chain.
pub open spec fn kernel_chain(chain: OptionChain, params: GexParams, terms: Seq<BsTerms>) -> Seq<
    Option<BsGreeks>,
> {
    Seq::new(
        chain.quotes@.len(),
        |i: int| kernel_quote(chain.quotes@[i], chain.spot, params, terms[i]),
    )
}

/// The kernel greeks of every quote of a chain, for `analyze`.
///
/// `terms[i]` holds what the machine evaluated for the `kernel_inputs` of
/// quote `i`, anything where there are none.
pub fn kernel_greeks(chain: &OptionChain, params: &GexParams, terms: &Vec<BsTerms>) -> (r: Vec<
    Option<BsGreeks>,
>)
    requires
        terms@.len() == chain.quotes@.len(),
    ensures
        r@ == kernel_chain(*chain, *params, terms@),
{
    let mut out: Vec<Option<BsGreeks>> = Vec::new();
    let mut i: usize = 0;
    while i < chain.quotes.len()
        invariant
            i <= chain.quotes@.len() == terms@.len(),
            out@ == kernel_chain(*chain, *params, terms@).take(i as int),
        decreases chain.quotes@.len() - i,
    {
        let q = &chain.quotes[i];
        let g = match kernel_inputs(q, chain.spot, params) {
            Some(c) => match black_scholes::greeks(&c, q.right, &terms[i]) {
                Ok(g) => Some(g),
                Err(_) => None,
            },
            None => None,
        };
        let ghost all = kernel_chain(*chain, *params, terms@);
        out.push(g);
        proof {
            assert(out@ =~= all.take(i + 1));
        }
        i = i + 1;
    }
    proof {
        assert(out@ =~= kernel_chain(*chain, *params, terms@));
    }
    out
}

/// The contract that the kernel prices for a quote, if the quote can use one.
pub fn kernel_inputs(q: &OptionQuote, spot: Num, params: &GexParams) -> (r: Option<BsInputs>)
    ensures
        r == kernel_contract(*q, spot, *params),
{
    if !q.strike.is_finite() || q.strike <= Num::of(ZERO) {
        return None;
    }
    match q.iv {
        Some(iv) => if iv.is_finite() && iv >= Num::of(ZERO) {
            Some(
                BsInputs {
                    spot,
                    strike: q.strike,
                    t_years: params.t_years,
                    vol: iv,
                    rate: params.rate,
                    div_yield: params.div_yield,
                },
            )
        } else {
            None
        },
        None => None,
    }
}

fn scale_greek(greek: Option<Num>, oi: Num, factor: Num, sign: Num) -> (r: Option<Num>)
    ensures
        r == scaled(greek, oi, factor, sign),
{
    match greek {
        Some(g) => finite(Some(g * oi * factor * sign)),
        None => None,
    }
}

/// Keeps a value only when it is finite.
fn finite(v: Option<Num>) -> (r: Option<Num>)
    ensures
        r == finite_some(v),
{
    match v {
        Some(x) => if x.is_finite() {
            Some(x)
        } else {
            None
        },
        None => None,
    }
}

/// The exposures of a quote; `None` where it is excluded.  Says also whether
/// the kernel greeks took part.
fn quote_exposure(q: &OptionQuote, kernel: Option<BsGreeks>, spot: Num, mult: Num) -> (r: Option<
    (QuoteExposure, bool),
>)
    ensures
        match r {
            Some((e, with_kernel)) => {
                &&& included(*q, kernel)
                &&& e == exposure(*q, kernel, spot, mult)
                &&& with_kernel == (kernel_of(*q, kernel) is Some)
            },
            None => !included(*q, kernel),
        },
{
    if !q.strike.is_finite() || q.strike <= Num::of(ZERO) {
        return None;
    }
    let bs = match q.iv {
        Some(iv) => if iv.is_finite() && iv >= Num::of(ZERO) {
            kernel
        } else {
            None
        },
        None => None,
    };
    if q.greeks.is_none() && bs.is_none() {
        return None;
    }
    let oi = Num::from_u64(q.open_interest);
    let sign = match q.right {
        OptionRight::Call => Num::of(ONE),
        OptionRight::Put => Num::of(MINUS_ONE),
    };
    let pct = Num::of(PCT_MOVE_SCALE);
    let (delta, gamma) = match q.greeks {
        Some(g) => (Some(g.delta), Some(g.gamma)),
        None => match bs {
            Some(b) => (Some(b.delta), Some(b.gamma)),
            None => (None, None),
        },
    };
    let (vanna, charm) = match bs {
        Some(b) => (Some(b.vanna), Some(b.charm)),
        None => (None, None),
    };
    let e = QuoteExposure {
        gex: scale_greek(gamma, oi, mult * spot * spot * pct, sign),
        dex: scale_greek(delta, oi, mult * spot, sign),
        vex: scale_greek(vanna, oi, mult * spot * pct, sign),
        charm: scale_greek(charm, oi, mult, sign),
    };
    Some((e, bs.is_some()))
}

fn add_some(net: Num, gross: Num, v: Option<Num>) -> (r: (Num, Num))
    ensures
        r == (match v {
            Some(x) => (net.fadd(x), gross.fadd(x.fabs())),
            None => (net, gross),
        }),
{
    match v {
        Some(x) => (net + x, gross + x.abs()),
        None => (net, gross),
    }
}

fn value_or_zero(v: Option<Num>) -> (r: Num)
    ensures
        r == or_zero(v),
{
    match v {
        Some(x) => x,
        None => Num::of(ZERO),
    }
}

/// Finds the row of a strike, or where to put it.
fn locate(rows: &Vec<StrikeExposure>, strike: Num) -> (r: (usize, bool))
    requires
        strike.finite(),
        forall|i: int, j: int|
            0 <= i < j < rows@.len() ==> rows@[i].strike.flt(rows@[j].strike),
        forall|i: int|
            0 <= i < rows@.len() ==> Num::of(ZERO).flt(#[trigger] rows@[i].strike),
        Num::of(ZERO).flt(strike),
    ensures
        r.0 <= rows@.len(),
        r.1 ==> r.0 < rows@.len() && rows@[r.0 as int].strike == strike,
        !r.1 ==> (forall|i: int| 0 <= i < r.0 ==> (#[trigger] rows@[i]).strike.flt(strike)) && (
        forall|i: int| r.0 <= i < rows@.len() ==> strike.flt((#[trigger] rows@[i]).strike)),
{
    let mut i: usize = 0;
    while i < rows.len() && rows[i].strike < strike
        invariant
            i <= rows@.len(),
            forall|k: int| 0 <= k < i ==> (#[trigger] rows@[k]).strike.flt(strike),
        decreases rows@.len() - i,
    {
        i = i + 1;
    }
    if i < rows.len() && rows[i].strike == strike {
        (i, true)
    } else {
        proof {
            if i < rows@.len() {
                assert forall|k: int| i <= k < rows@.len() implies strike.flt(
                    (#[trigger] rows@[k]).strike,
                ) by {
                    let a = rows@[i as int].strike;
                    assert(!a.nan() && Num::of(ZERO).flt(a));
                    if k > i {
                        assert(a.flt(rows@[k].strike));
                    }
                }
            }
        }
        (i, false)
    }
}

/// Puts the exposures of one more quote onto the ladder.
fn add_to_ladder(
    rows: &mut Vec<StrikeExposure>,
    right: OptionRight,
    strike: Num,
    e: &QuoteExposure,
    chain: &OptionChain,
    kernel: &Vec<Option<BsGreeks>>,
    n: usize,
)
    requires
        n < chain.quotes@.len(),
        kernel@.len() == chain.quotes@.len(),
        is_ladder(old(rows)@, *chain, kernel@, n as nat),
        included(chain.quotes@[n as int], kernel@[n as int]),
        chain.quotes@[n as int].strike == strike,
        chain.quotes@[n as int].right == right,
        *e == exposure(
            chain.quotes@[n as int],
            kernel@[n as int],
            chain.spot,
            chain.multiplier,
        ),
    ensures
        is_ladder(final(rows)@, *chain, kernel@, (n + 1) as nat),
{
    let ghost was = rows@;
    proof {
        assert forall|i: int| 0 <= i < was.len() implies Num::of(ZERO).flt(
            #[trigger] was[i].strike,
        ) by {
            assert(strike_present(*chain, kernel@, was[i].strike, n as nat));
        }
    }
    let (at, found) = locate(rows, strike);
    if !found {
        proof {
            assert(!strike_present(*chain, kernel@, strike, n as nat)) by {
                if strike_present(*chain, kernel@, strike, n as nat) {
                    let i = choose|i: int|
                        0 <= i < n && included(#[trigger] chain.quotes@[i], kernel@[i])
                            && chain.quotes@[i].strike == strike;
                    let k = choose|k: int|
                        0 <= k < was.len() && (#[trigger] was[k]).strike == chain.quotes@[i].strike;
                    assert(was[k].strike == strike);
                }
            }
            lemma_row_blank(*chain, kernel@, strike, n as nat);
        }
        rows.insert(at, StrikeExposure::empty(strike));
    }
    let ghost mid = rows@;
    proof {
        assert(mid[at as int] == row_at(*chain, kernel@, strike, n as nat));
        assert forall|i: int, j: int| 0 <= i < j < mid.len() implies mid[i].strike.flt(
            mid[j].strike,
        ) by {
            if !found {
                let a = if i < at {
                    i
                } else {
                    i - 1
                };
                let b = if j < at {
                    j
                } else {
                    j - 1
                };
                if i != at && j != at {
                    assert(was[a].strike.flt(was[b].strike));
                }
            }
        }
    }
    let row = rows[at];
    let g = value_or_zero(e.gex);
    let (call_gex, put_gex) = match right {
        OptionRight::Call => (row.call_gex + g, row.put_gex),
        OptionRight::Put => (row.call_gex, row.put_gex + g),
    };
    let new_row = StrikeExposure {
        strike: row.strike,
        gex: row.gex + g,
        dex: row.dex + value_or_zero(e.dex),
        vex: row.vex + value_or_zero(e.vex),
        charm: row.charm + value_or_zero(e.charm),
        call_gex,
        put_gex,
    };
    rows.set(at, new_row);
    proof {
        let now = rows@;
        let m = (n + 1) as nat;
        assert(now[at as int] == row_at(*chain, kernel@, strike, m));
        assert(strike_present(*chain, kernel@, strike, m)) by {
            assert(included(chain.quotes@[n as int], kernel@[n as int]));
        }
        assert forall|i: int| 0 <= i < now.len() implies (#[trigger] now[i]) == row_at(
            *chain,
            kernel@,
            now[i].strike,
            m,
        ) && strike_present(*chain, kernel@, now[i].strike, m) by {
            if i != at {
                let a = if found || i < at {
                    i
                } else {
                    i - 1
                };
                assert(now[i] == was[a]);
                assert(now[i].strike != strike) by {
                    if i < at {
                        assert(mid[i].strike.flt(mid[at as int].strike));
                    } else {
                        assert(mid[at as int].strike.flt(mid[i].strike));
                    }
                }
                assert(strike_present(*chain, kernel@, was[a].strike, n as nat));
                let w = choose|w: int|
                    0 <= w < n && included(#[trigger] chain.quotes@[w], kernel@[w])
                        && chain.quotes@[w].strike == was[a].strike;
                assert(included(chain.quotes@[w], kernel@[w]));
            }
        }
        assert forall|i: int, j: int| 0 <= i < j < now.len() implies now[i].strike.flt(
            now[j].strike,
        ) by {
            assert(mid[i].strike.flt(mid[j].strike));
        }
        assert forall|i: int|
            0 <= i < m && included(#[trigger] chain.quotes@[i], kernel@[i]) implies exists|k: int|
            0 <= k < now.len() && (#[trigger] now[k]).strike == chain.quotes@[i].strike by {
            if i == n {
                assert(now[at as int].strike == strike);
            } else {
                let k = choose|k: int|
                    0 <= k < was.len() && (#[trigger] was[k]).strike == chain.quotes@[i].strike;
                let b = if found || k < at {
                    k
                } else {
                    k + 1
                };
                assert(now[b].strike == was[k].strike);
            }
        }
    }
}

/// A strike at which no quote takes part has an empty row.
proof fn lemma_row_blank(
    chain: OptionChain,
    kernel: Seq<Option<BsGreeks>>,
    strike: Num,
    n: nat,
)
    requires
        n <= chain.quotes@.len(),
        !strike_present(chain, kernel, strike, n),
    ensures
        row_at(chain, kernel, strike, n) == StrikeExposure::blank(strike),
    decreases n,
{
    if n > 0 {
        let m = (n - 1) as nat;
        assert(!strike_present(chain, kernel, strike, m)) by {
            if strike_present(chain, kernel, strike, m) {
                let i = choose|i: int|
                    0 <= i < m && included(#[trigger] chain.quotes@[i], kernel[i])
                        && chain.quotes@[i].strike == strike;
                assert(included(chain.quotes@[i], kernel[i]));
            }
        }
        lemma_row_blank(chain, kernel, strike, m);
        let q = chain.quotes@[n - 1];
        assert(!(included(q, kernel[n - 1]) && q.strike == strike));
    }
}

/// Ladder, totals and coverage of a chain.
struct Walk {
    rows: Vec<StrikeExposure>,
    totals: Totals,
    coverage: Coverage,
}

/// Walks the quotes once.
fn walk(chain: &OptionChain, kernel: &Vec<Option<BsGreeks>>) -> (w: Walk)
    requires
        kernel@.len() == chain.quotes@.len(),
    ensures
        is_ladder(w.rows@, *chain, kernel@, chain.quotes@.len()),
        w.totals == totals_of(exposures(*chain, kernel@)),
        is_coverage(w.coverage, *chain, kernel@, chain.quotes@.len()),
{
    let zero = Num::of(ZERO);
    let mut rows: Vec<StrikeExposure> = Vec::new();
    let mut t = Totals {
        net_gex: zero,
        gross_gex: zero,
        net_dex: zero,
        gross_dex: zero,
        net_vex: zero,
        gross_vex: zero,
        net_charm: zero,
        gross_charm: zero,
    };
    let mut c = Coverage { total: 0, resolved: 0, excluded: 0, vanna_resolved: 0 };
    let mut i: usize = 0;
    let ghost all = exposures(*chain, kernel@);
    proof {
        assert(all.take(0) =~= Seq::<QuoteExposure>::empty());
        lemma_totals_empty();
    }
    while i < chain.quotes.len()
        invariant
            i <= chain.quotes@.len(),
            kernel@.len() == chain.quotes@.len(),
            all == exposures(*chain, kernel@),
            is_ladder(rows@, *chain, kernel@, i as nat),
            t == totals_of(all.take(i as int)),
            is_coverage(c, *chain, kernel@, i as nat),
        decreases chain.quotes@.len() - i,
    {
        let q = chain.quotes[i];
        let k = kernel[i];
        proof {
            lemma_totals_step(all, i as int);
        }
        match quote_exposure(&q, k, chain.spot, chain.multiplier) {
            Some((e, with_kernel)) => {
                let (net_gex, gross_gex) = add_some(t.net_gex, t.gross_gex, e.gex);
                let (net_dex, gross_dex) = add_some(t.net_dex, t.gross_dex, e.dex);
                let (net_vex, gross_vex) = add_some(t.net_vex, t.gross_vex, e.vex);
                let (net_charm, gross_charm) = add_some(t.net_charm, t.gross_charm, e.charm);
                t = Totals {
                    net_gex,
                    gross_gex,
                    net_dex,
                    gross_dex,
                    net_vex,
                    gross_vex,
                    net_charm,
                    gross_charm,
                };
                add_to_ladder(&mut rows, q.right, q.strike, &e, chain, kernel, i);
                c = Coverage {
                    total: c.total + 1,
                    resolved: c.resolved + 1,
                    excluded: c.excluded,
                    vanna_resolved: if with_kernel {
                        c.vanna_resolved + 1
                    } else {
                        c.vanna_resolved
                    },
                };
            },
            None => {
                c = Coverage {
                    total: c.total + 1,
                    resolved: c.resolved,
                    excluded: c.excluded + 1,
                    vanna_resolved: c.vanna_resolved,
                };
                proof {
                    lemma_ladder_skip(rows@, *chain, kernel@, i as nat);
                }
            },
        }
        i = i + 1;
    }
    proof {
        assert(all.take(i as int) =~= all);
    }
    Walk { rows, totals: t, coverage: c }
}

proof fn lemma_totals_empty()
    ensures
        totals_of(Seq::empty()) == (Totals {
            net_gex: Num::of(ZERO),
            gross_gex: Num::of(ZERO),
            net_dex: Num::of(ZERO),
            gross_dex: Num::of(ZERO),
            net_vex: Num::of(ZERO),
            gross_vex: Num::of(ZERO),
            net_charm: Num::of(ZERO),
            gross_charm: Num::of(ZERO),
        }),
{
}

/// The totals after one more quote.
proof fn lemma_totals_step(all: Seq<QuoteExposure>, i: int)
    requires
        0 <= i < all.len(),
    ensures
        ({
            let t = totals_of(all.take(i));
            let e = all[i];
            let r = totals_of(all.take(i + 1));
            &&& (r.net_gex, r.gross_gex) == (match e.gex {
                Some(x) => (t.net_gex.fadd(x), t.gross_gex.fadd(x.fabs())),
                None => (t.net_gex, t.gross_gex),
            })
            &&& (r.net_dex, r.gross_dex) == (match e.dex {
                Some(x) => (t.net_dex.fadd(x), t.gross_dex.fadd(x.fabs())),
                None => (t.net_dex, t.gross_dex),
            })
            &&& (r.net_vex, r.gross_vex) == (match e.vex {
                Some(x) => (t.net_vex.fadd(x), t.gross_vex.fadd(x.fabs())),
                None => (t.net_vex, t.gross_vex),
            })
            &&& (r.net_charm, r.gross_charm) == (match e.charm {
                Some(x) => (t.net_charm.fadd(x), t.gross_charm.fadd(x.fabs())),
                None => (t.net_charm, t.gross_charm),
            })
        }),
{
    let (a, b) = (all.take(i), all.take(i + 1));
    let e = all[i];
    let g = |x: QuoteExposure| x.gex;
    let d = |x: QuoteExposure| x.dex;
    let v = |x: QuoteExposure| x.vex;
    let c = |x: QuoteExposure| x.charm;
    assert(b.map_values(g) =~= a.map_values(g).push(e.gex));
    assert(b.map_values(d) =~= a.map_values(d).push(e.dex));
    assert(b.map_values(v) =~= a.map_values(v).push(e.vex));
    assert(b.map_values(c) =~= a.map_values(c).push(e.charm));
    sums::lemma_sum_some_push(a.map_values(g), e.gex);
    sums::lemma_sum_some_push(a.map_values(d), e.dex);
    sums::lemma_sum_some_push(a.map_values(v), e.vex);
    sums::lemma_sum_some_push(a.map_values(c), e.charm);
}

/// A quote that takes no part leaves the ladder as it is.
proof fn lemma_ladder_skip(
    rows: Seq<StrikeExposure>,
    chain: OptionChain,
    kernel: Seq<Option<BsGreeks>>,
    n: nat,
)
    requires
        n < chain.quotes@.len(),
        is_ladder(rows, chain, kernel, n),
        !included(chain.quotes@[n as int], kernel[n as int]),
    ensures
        is_ladder(rows, chain, kernel, n + 1),
{
    assert forall|i: int| 0 <= i < rows.len() implies (#[trigger] rows[i]) == row_at(
        chain,
        kernel,
        rows[i].strike,
        n + 1,
    ) && strike_present(chain, kernel, rows[i].strike, n + 1) by {
        assert(strike_present(chain, kernel, rows[i].strike, n));
        let w = choose|w: int|
            0 <= w < n && included(#[trigger] chain.quotes@[w], kernel[w])
                && chain.quotes@[w].strike == rows[i].strike;
        assert(included(chain.quotes@[w], kernel[w]));
    }
}

/// Where an exposure ratio is to be scored; `None` without gross exposure.
pub open spec fn score_point(net: Num, gross: Num) -> Option<Num> {
    if Num::of(ZERO).flt(gross) {
        Some(Num::of(EXPOSURE_TANH_K).fmul(net).fdiv(gross))
    } else {
        None
    }
}

/// The sub-score: the machine's hyperbolic tangent, or zero without gross exposure.
pub open spec fn sub_score(gross: Num, tanh: Num) -> Num {
    if Num::of(ZERO).flt(gross) {
        tanh
    } else {
        Num::of(ZERO)
    }
}

fn score_arg(net: Num, gross: Num) -> (r: Option<Num>)
    ensures
        r == score_point(net, gross),
{
    if gross > Num::of(ZERO) {
        Some(Num::of(EXPOSURE_TANH_K) * net / gross)
    } else {
        None
    }
}

/// Sub-score of an exposure from the machine's hyperbolic tangent.
fn exposure_score(gross: Num, tanh: Num) -> (r: Num)
    ensures
        r == sub_score(gross, tanh),
{
    if gross > Num::of(ZERO) {
        tanh
    } else {
        Num::of(ZERO)
    }
}

/// The points at which `analyze` needs the hyperbolic tangent: gamma, delta, vanna.
pub fn exposure_args(chain: &OptionChain, params: &GexParams, kernel: &Vec<Option<BsGreeks>>) -> (r:
    Result<(Option<Num>, Option<Num>, Option<Num>), GexError>)
    requires
        kernel@.len() == chain.quotes@.len(),
    ensures
        match r {
            Ok(a) => {
                let t = totals_of(exposures(*chain, kernel@));
                &&& problem_of(*chain, *params) is None
                &&& a.0 == score_point(t.net_gex, t.gross_gex)
                &&& a.1 == score_point(t.net_dex, t.gross_dex)
                &&& a.2 == score_point(t.net_vex, t.gross_vex)
            },
            Err(e) => problem_of(*chain, *params) == Some(e),
        },
{
    if let Some(e) = find_problem(chain, params) {
        return Err(e);
    }
    let t = walk(chain, kernel).totals;
    Ok(
        (
            score_arg(t.net_gex, t.gross_gex),
            score_arg(t.net_dex, t.gross_dex),
            score_arg(t.net_vex, t.gross_vex),
        ),
    )
}

/// The expected move as a fraction of spot.
pub open spec fn expected_move(iv: Option<Num>, t_years: Num) -> Option<Num> {
    match iv {
        Some(v) => Some(
            v.fmul(t_years.fmax(Num::of(EM_TAU_FLOOR)).fsqrt()).fmax(Num::of(EM_PCT_FLOOR)),
        ),
        None => None,
    }
}

impl GexStructure {
    /// The structure of a chain, given the kernel greeks and the machine's scores.
    pub open spec fn is_structure_of(
        self,
        chain: OptionChain,
        params: GexParams,
        kernel: Seq<Option<BsGreeks>>,
        scores: ExposureScores,
    ) -> bool {
        let t = totals_of(exposures(chain, kernel));
        let n = chain.quotes@.len();
        &&& self.spot == chain.spot
        &&& self.net_gex == t.net_gex
        &&& self.gross_gex == t.gross_gex
        &&& self.net_dex == t.net_dex
        &&& self.gross_dex == t.gross_dex
        &&& self.net_vex == t.net_vex
        &&& self.gross_vex == t.gross_vex
        &&& self.net_charm == t.net_charm
        &&& self.gross_charm == t.gross_charm
        &&& is_ladder(self.profile@, chain, kernel, n)
        &&& exists|f: Option<Flip>|
            {
                &&& #[trigger] is_flip(self.profile@, f)
                &&& self.gamma_flip == (match f {
                    Some(x) => Some(x.price),
                    None => None,
                })
                &&& self.flip_readout == Readout::resolved_from(
                    flip_quality_band(),
                    match f {
                        Some(x) => x.quality,
                        None => Num::of(ZERO),
                    },
                    BinaryState::Inactive,
                )
            }
        &&& is_wall(self.profile@, chain.spot, t.gross_gex, WallSide::Call, self.call_wall)
        &&& is_wall(self.profile@, chain.spot, t.gross_gex, WallSide::Put, self.put_wall)
        &&& self.e_gex == sub_score(t.gross_gex, scores.gex)
        &&& self.e_dex == sub_score(t.gross_dex, scores.dex)
        &&& self.e_vex == sub_score(t.gross_vex, scores.vex)
        &&& self.dsi == Num::of(DSI_W_GEX).fmul(self.e_gex).fadd(
            Num::of(DSI_W_DEX).fmul(self.e_dex),
        ).fadd(Num::of(DSI_W_VEX).fmul(self.e_vex))
        &&& self.dealer01 == self.dsi.fadd(Num::of(ONE)).fdiv(Num::of(TWO))
        &&& exists|iv: Option<Num>|
            {
                &&& #[trigger] is_atm_iv(chain.quotes@, chain.spot, iv)
                &&& self.expected_move_pct == expected_move(iv, params.t_years)
            }
        &&& self.expected_move_points == (match self.expected_move_pct {
            Some(p) => Some(p.fmul(chain.spot)),
            None => None,
        })
        &&& is_coverage(self.coverage, chain, kernel, n)
    }
}

/// Resolves the full dealer-positioning structure of a chain.
///
/// `kernel[i]` holds the kernel greeks of quote `i` (see `kernel_greeks`), and
/// `scores` the hyperbolic tangents at the points of `exposure_args`.
pub fn analyze(
    chain: &OptionChain,
    params: &GexParams,
    kernel: &Vec<Option<BsGreeks>>,
    scores: &ExposureScores,
) -> (r: Result<GexStructure, GexError>)
    requires
        kernel@.len() == chain.quotes@.len(),
    ensures
        match r {
            Ok(g) => problem_of(*chain, *params) is None && g.is_structure_of(
                *chain,
                *params,
                kernel@,
                *scores,
            ),
            Err(e) => problem_of(*chain, *params) == Some(e),
        },
{
    if let Some(e) = find_problem(chain, params) {
        return Err(e);
    }
    let spot = chain.spot;
    let w = walk(chain, kernel);
    let t = w.totals;
    let flip = gamma_flip(&w.rows);
    let (gamma_flip_price, flip_score) = match flip {
        Some(f) => (Some(f.price), f.quality),
        None => (None, Num::of(ZERO)),
    };
    let flip_readout = Readout::resolve(&flip_quality_band(), flip_score);
    let call_wall = wall(&w.rows, spot, t.gross_gex, WallSide::Call);
    let put_wall = wall(&w.rows, spot, t.gross_gex, WallSide::Put);
    let e_gex = exposure_score(t.gross_gex, scores.gex);
    let e_dex = exposure_score(t.gross_dex, scores.dex);
    let e_vex = exposure_score(t.gross_vex, scores.vex);
    let dsi = Num::of(DSI_W_GEX) * e_gex + Num::of(DSI_W_DEX) * e_dex + Num::of(DSI_W_VEX) * e_vex;
    let dealer01 = (dsi + Num::of(ONE)) / Num::of(TWO);
    let atm_iv = nearest_atm_iv(&chain.quotes, spot);
    let expected_move_pct = match atm_iv {
        Some(iv) => Some(
            (iv * params.t_years.max(Num::of(EM_TAU_FLOOR)).sqrt()).max(Num::of(EM_PCT_FLOOR)),
        ),
        None => None,
    };
    let expected_move_points = match expected_move_pct {
        Some(p) => Some(p * spot),
        None => None,
    };
    let g = GexStructure {
        spot,
        net_gex: t.net_gex,
        gross_gex: t.gross_gex,
        net_dex: t.net_dex,
        gross_dex: t.gross_dex,
        net_vex: t.net_vex,
        gross_vex: t.gross_vex,
        net_charm: t.net_charm,
        gross_charm: t.gross_charm,
        profile: w.rows,
        gamma_flip: gamma_flip_price,
        flip_readout,
        call_wall,
        put_wall,
        e_gex,
        e_dex,
        e_vex,
        dsi,
        dealer01,
        expected_move_pct,
        expected_move_points,
        coverage: w.coverage,
    };
    proof {
        assert(is_flip(g.profile@, flip));
        assert(is_atm_iv(chain.quotes@, spot, atm_iv));
    }
    Ok(g)
}

/// Whatever the chain holds, no net exposure exceeds its gross in absolute
/// value, and none of them is NaN.
pub proof fn law_gross_dominates_absolute_net(chain: OptionChain, kernel: Seq<Option<BsGreeks>>)
    ensures
        ({
            let t = totals_of(exposures(chain, kernel));
            &&& t.net_gex.fabs().fle(t.gross_gex)
            &&& t.net_dex.fabs().fle(t.gross_dex)
            &&& t.net_vex.fabs().fle(t.gross_vex)
            &&& t.net_charm.fabs().fle(t.gross_charm)
        }),
{
    let e = exposures(chain, kernel);
    let g = |x: QuoteExposure| x.gex;
    let d = |x: QuoteExposure| x.dex;
    let v = |x: QuoteExposure| x.vex;
    let c = |x: QuoteExposure| x.charm;
    assert forall|i: int| 0 <= i < e.len() implies {
        &&& (#[trigger] e.map_values(g)[i] matches Some(x) ==> x.finite())
        &&& (e.map_values(d)[i] matches Some(x) ==> x.finite())
        &&& (e.map_values(v)[i] matches Some(x) ==> x.finite())
        &&& (e.map_values(c)[i] matches Some(x) ==> x.finite())
    } by {}
    sums::law_gross_dominates_net(e.map_values(g));
    sums::law_gross_dominates_net(e.map_values(d));
    sums::law_gross_dominates_net(e.map_values(v));
    sums::law_gross_dominates_net(e.map_values(c));
}

/// The sign of a finite product.
proof fn lemma_product_sign(a: Num, b: Num)
    requires
        !a.fmul(b).nan(),
    ensures
        !a.nan(),
        !b.nan(),
        a.fmul(b).negative() == (a.negative() != b.negative()),
{
    reveal(Num::fmul);
}

/// A chain of calls alone has a gamma exposure that is all positive, one of
/// puts alone one that is all negative: the net is the gross, up to its sign.
pub proof fn law_one_sided_chain_has_its_sign(
    chain: OptionChain,
    kernel: Seq<Option<BsGreeks>>,
    right: OptionRight,
)
    requires
        Num::of(ZERO).flt(chain.spot),
        Num::of(ZERO).flt(chain.multiplier),
        forall|i: int|
            0 <= i < chain.quotes@.len() ==> (#[trigger] chain.quotes@[i]).right == right && (
            gamma_of(chain.quotes@[i], kernel[i]) matches Some(g) ==> !g.negative()),
    ensures
        ({
            let t = totals_of(exposures(chain, kernel));
            match right {
                OptionRight::Call => t.net_gex == t.gross_gex && Num::of(ZERO).fle(t.net_gex),
                OptionRight::Put => t.net_gex.fabs() == t.gross_gex && t.net_gex.fle(
                    Num::of(ZERO),
                ),
            }
        }),
{
    let e = exposures(chain, kernel);
    let f = |x: QuoteExposure| x.gex;
    let s = e.map_values(f);
    assert forall|i: int| 0 <= i < s.len() implies (#[trigger] s[i] matches Some(v) ==> v.finite()
        && v.negative() == (right == OptionRight::Put)) by {
        let q = chain.quotes@[i];
        if s[i] is Some {
            let g = gamma_of(q, kernel[i]).unwrap();
            let oi = Num::whole(false, q.open_interest as nat);
            let (m, spot) = (chain.multiplier, chain.spot);
            let factor = m.fmul(spot).fmul(spot).fmul(Num::of(PCT_MOVE_SCALE));
            lemma_product_sign(g.fmul(oi).fmul(factor), sign_of(q.right));
            lemma_product_sign(g.fmul(oi), factor);
            integral::lemma_whole_order(q.open_interest as nat, q.open_interest as nat);
            lemma_product_sign(g, oi);
            lemma_product_sign(m.fmul(spot).fmul(spot), Num::of(PCT_MOVE_SCALE));
            lemma_product_sign(m.fmul(spot), spot);
            lemma_product_sign(m, spot);
        }
    }
    law_gross_dominates_absolute_net(chain, kernel);
    match right {
        OptionRight::Call => {
            sums::law_one_sign_nets_to_gross(s);
            sums::law_gross_dominates_net(s);
        },
        OptionRight::Put => {
            sums::law_negatives_net_to_gross(s);
        },
    }
}

/// Weighted sub-scores between -1 and 1 add up to an index between -1 and 1,
/// and the normalized index lies between 0 and 1.
pub proof fn law_dealer_index_bounded(
    g: GexStructure,
    chain: OptionChain,
    params: GexParams,
    kernel: Seq<Option<BsGreeks>>,
    scores: ExposureScores,
)
    requires
        g.is_structure_of(chain, params, kernel, scores),
        within_one(scores.gex),
        within_one(scores.dex),
        within_one(scores.vex),
    ensures
        within_one(g.dsi),
        Num::of(ZERO).fle(g.dealer01),
        g.dealer01.fle(Num::of(ONE)),
{
    let (one, two, zero) = (Num::of(ONE), Num::of(TWO), Num::of(ZERO));
    algebra::lemma_weighted(Num::of(DSI_W_GEX), g.e_gex);
    algebra::lemma_weighted(Num::of(DSI_W_DEX), g.e_dex);
    algebra::lemma_weighted(Num::of(DSI_W_VEX), g.e_vex);
    let a = Num::of(DSI_W_GEX).fmul(g.e_gex);
    let b = Num::of(DSI_W_DEX).fmul(g.e_dex);
    let c = Num::of(DSI_W_VEX).fmul(g.e_vex);
    lemma_weights_fill_one(a, b, c);
    algebra::lemma_one_size();
    algebra::lemma_add_is_number(g.dsi, one);
    algebra::lemma_add_is_number(one.fneg(), one);
    algebra::lemma_add_is_number(one, one);
    algebra::law_add_monotone(one.fneg(), g.dsi, one);
    algebra::law_add_monotone(g.dsi, one, one);
    algebra::law_sub_self(one);
    algebra::law_add_commutes(one, one.fneg());
    assert(two.size() == 2 * pow2(1074)) by {
        lemma2_to64();
        lemma2_to64_rest();
        lemma_pow2_adds(52, 1023);
        lemma_pow2_unfold(1075);
        assert(two.scale() == 1023);
        assert(two.significand() == pow2(52));
    }
    algebra::lemma_sum_below(one, one, two);
    algebra::law_div_monotone(zero, g.dsi.fadd(one), two);
    algebra::law_div_monotone(g.dsi.fadd(one), two, two);
    algebra::law_div_self(two);
    arith::lemma_zero_size(zero);
    algebra::lemma_zero_over(zero, two);
}

/// Between -1 and 1.
pub open spec fn within_one(v: Num) -> bool {
    Num::of(ONE).fneg().fle(v) && v.fle(Num::of(ONE))
}

/// A positive number in units of `p`.
proof fn lemma_units_in(v: Num, sig: nat, k: nat, p: nat)
    requires
        !v.negative(),
        v.significand() == sig,
        pow2(v.scale()) == k * p,
    ensures
        v.units() == (sig * k) * p,
{
    assert(sig * (k * p) == (sig * k) * p) by (nonlinear_arith);
}

/// Parts that do not exceed the three weights add up to at most one.
proof fn lemma_weights_fill_one(a: Num, b: Num, c: Num)
    requires
        a.finite(),
        b.finite(),
        c.finite(),
        a.mag() <= Num::of(DSI_W_GEX).mag(),
        b.mag() <= Num::of(DSI_W_DEX).mag(),
        c.mag() <= Num::of(DSI_W_VEX).mag(),
    ensures
        within_one(a.fadd(b).fadd(c)),
{
    let (x, y, z) = (Num::of(DSI_W_GEX), Num::of(DSI_W_DEX), Num::of(DSI_W_VEX));
    // 0.8, the sum of the first two weights.
    let (m, one) = (Num::of(0x3FE9_9999_9999_999A), Num::of(ONE));
    let p = pow2(1019);
    lemma_pow2_unfold(1020);
    lemma_pow2_unfold(1021);
    lemma_pow2_unfold(1022);
    assert(x.scale() == 1021 && y.scale() == 1020 && z.scale() == 1019);
    assert(m.scale() == 1021 && one.scale() == 1022);
    lemma_pow2_pos(1019);
    lemma2_to64();
    lemma_units_in(x, 0x10_0000_0000_0000, 4, p);
    lemma_units_in(y, 0x13_3333_3333_3333, 2, p);
    lemma_units_in(z, 0x19_9999_9999_999A, 1, p);
    lemma_units_in(m, 0x19_9999_9999_999A, 4, p);
    lemma_units_in(one, 0x10_0000_0000_0000, 8, p);
    assert(x.units() == 0x40_0000_0000_0000 * p);
    assert(y.units() == 0x26_6666_6666_6666 * p);
    assert(z.units() == 0x19_9999_9999_999A * p);
    assert(m.units() == 0x66_6666_6666_6668 * p);
    assert(one.units() == 0x80_0000_0000_0000 * p);
    algebra::lemma_sum_below(x, y, m);
    assert(pow2(one.scale()) == 8 * p);
    assert(2 * (m.units() + z.units() - one.units()) == 4 * p);
    algebra::lemma_sum_near(m, z, one);
    algebra::lemma_add_not_negative(x, y);
    algebra::lemma_bounded_sum(a, b, x, y);
    algebra::lemma_bounded_sum(a.fadd(b), c, m, z);
}

/// A ladder is determined by the chain: two ladders of the same chain are equal.
pub proof fn law_ladder_unique(
    a: Seq<StrikeExposure>,
    b: Seq<StrikeExposure>,
    chain: OptionChain,
    kernel: Seq<Option<BsGreeks>>,
)
    requires
        is_ladder(a, chain, kernel, chain.quotes@.len()),
        is_ladder(b, chain, kernel, chain.quotes@.len()),
    ensures
        a == b,
{
    lemma_ladder_prefix(a, b, chain, kernel, a.len());
    lemma_ladder_prefix(b, a, chain, kernel, b.len());
    assert(a =~= b);
}

/// The first `n` rows of one ladder are those of the other.
proof fn lemma_ladder_prefix(
    a: Seq<StrikeExposure>,
    b: Seq<StrikeExposure>,
    chain: OptionChain,
    kernel: Seq<Option<BsGreeks>>,
    n: nat,
)
    requires
        n <= a.len(),
        is_ladder(a, chain, kernel, chain.quotes@.len()),
        is_ladder(b, chain, kernel, chain.quotes@.len()),
    ensures
        n <= b.len(),
        forall|i: int| 0 <= i < n ==> a[i] == b[i],
    decreases n,
{
    if n > 0 {
        lemma_ladder_prefix(a, b, chain, kernel, (n - 1) as nat);
        let i = n - 1;
        let total = chain.quotes@.len();
        // The row of `a` at `i` has a partner in `b`, and the other way round.
        let k = lemma_partner(a, b, chain, kernel, i);
        if k < i {
            assert(a[k] == b[k]);
            assert(a[k].strike.flt(a[i].strike));
        }
        assert(k >= i);
        if k > i {
            let m = lemma_partner(b, a, chain, kernel, i);
            assert(b[i].strike.flt(b[k].strike));
            if m < i {
                assert(a[m] == b[m]);
                assert(b[m].strike.flt(b[i].strike));
            } else if m > i {
                assert(a[i].strike.flt(a[m].strike));
            }
            assert(false);
        }
        assert(a[i] == row_at(chain, kernel, a[i].strike, total));
        assert(b[i] == row_at(chain, kernel, b[i].strike, total));
    }
}

proof fn lemma_partner(
    a: Seq<StrikeExposure>,
    b: Seq<StrikeExposure>,
    chain: OptionChain,
    kernel: Seq<Option<BsGreeks>>,
    i: int,
) -> (k: int)
    requires
        0 <= i < a.len(),
        is_ladder(a, chain, kernel, chain.quotes@.len()),
        is_ladder(b, chain, kernel, chain.quotes@.len()),
    ensures
        0 <= k < b.len(),
        b[k].strike == a[i].strike,
{
    let n = chain.quotes@.len();
    assert(a[i] == row_at(chain, kernel, a[i].strike, n));
    assert(strike_present(chain, kernel, a[i].strike, n));
    let q = choose|q: int|
        0 <= q < n && included(#[trigger] chain.quotes@[q], kernel[q]) && chain.quotes@[q].strike
            == a[i].strike;
    choose|k: int| 0 <= k < b.len() && (#[trigger] b[k]).strike == chain.quotes@[q].strike
}

} // verus!
