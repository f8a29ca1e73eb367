//! The engine pipeline: market state of a symbol to its terminal snapshot.
//!
//! The candle engines run on every snapshot; the chain engines only when the
//! chain has changed, since their velocities are measured from chain to chain.
//! What the engines need of the past is kept per symbol in `EngineMemory`.

use crate::black_scholes::BsTerms;
use crate::calendar;
use crate::consts::{HUNDRED, NEG_ZERO, ONE, ZERO};
use crate::dealer::{
    self, BiasDirection, CharmBias, DealerDynamics, DealerDynamicsInput, DealerPrevStates,
    GammaDynamics, Migration, OiFlow, VannaFlow,
};
use crate::gex::{self, ExposureScores, GexParams, GexStructure, StrikeExposure, Wall};
use crate::market::{Candle, ExpiryDate, OptionChain, OptionQuote, OptionRight, Symbol, TsMillis};
use crate::num::Num;
use crate::realized_vol::{self, BarRatios};
use crate::regime::{self, RegimeLabel, RegimePrevStates, RegimeState, RegimeTerms};
use crate::rnd::{self, RndCurve, RndTerms};
use crate::state::{BinaryState, Readout};
use crate::sums;
use crate::thesis::{self, ScoreTerms, SystemScore, ThesisReadout};
use crate::vol_metrics::{self, IvMetrics};
use crate::wire::{
    self, DealerPanel, EngineStatus, FlowPanel, Metric, RegimePanel, StrikeRow, TerminalSnapshot,
    ThesisPanel, VolPanel, WallReadout, WIRE_VERSION,
};
use crate::zones::{
    self, GravityConfig, GravityStrikeInput, WallInput, WallKind, WallZone, ZoneInput,
};
use vstd::prelude::*;

verus! {

/// Risk-free rate of the chain engines (0.045).
pub const RATE: u64 = 0x3FA7_0A3D_70A3_D70A;

/// Dividend yield of the chain engines (0.0).
pub const DIV_YIELD: u64 = 0x0000_0000_0000_0000;

/// One-minute bars per year, 252 sessions of 390 (98280.0).
pub const MINUTE_BARS_PER_YEAR: u64 = 0x40F7_FE80_0000_0000;

/// Implied vols kept for rank and percentile.
pub const IV_HISTORY_CAP: usize = 480;

/// Charm magnitudes kept for the charm intensity.
pub const CHARM_HISTORY_CAP: usize = 20;

/// Candles below which no snapshot is composed.
pub const MIN_CANDLES: usize = 30;

/// True range of a series that is too short for one, a fraction of spot (0.01).
pub const ATR_FALLBACK_PCT: u64 = 0x3F84_7AE1_47AE_147B;

/// Tenor of a chain without an expiry, one day in years (1/365).
pub const DEFAULT_TENOR: u64 = 0x3F66_719F_3601_671A;

/// Strike keys per point (1000.0).
pub const KEY_SCALE: u64 = 0x408F_4000_0000_0000;

/// Milliseconds per minute (60000.0).
pub const MS_PER_MINUTE: u64 = 0x40ED_4C00_0000_0000;

/// Least time between chains, minutes (0.001).
pub const MIN_DT: u64 = 0x3F50_624D_D2F1_A9FC;

/// Least signed intensity (-1.0).
pub const MINUS_ONE: u64 = 0xBFF0_0000_0000_0000;

/// Dealer positioning without a chain (0.5).
pub const EVEN: u64 = 0x3FE0_0000_0000_0000;

/// A signed intensity kept in [-1, 1].
pub open spec fn unit_signed(v: Num) -> Num {
    v.fclamp(Num::of(MINUS_ONE), Num::of(ONE))
}

fn to_unit_signed(v: Num) -> (r: Num)
    ensures
        r == unit_signed(v),
{
    v.clamp(Num::of(MINUS_ONE), Num::of(ONE))
}

/// Open interest and volume of a strike, by side.
#[derive(Debug, Clone, Copy, PartialEq)]
pub struct OiAgg {
    /// Call open interest, contracts.
    pub call_oi: Num,
    /// Put open interest, contracts.
    pub put_oi: Num,
    /// Call volume, contracts.
    pub call_vol: Num,
    /// Put volume, contracts.
    pub put_vol: Num,
}

/// The key of a strike: thousandths of a point.
pub open spec fn key_of(strike: Num) -> i64 {
    strike.fmul(Num::of(KEY_SCALE)).fround().trunc_i64()
}

/// The key of a strike: thousandths of a point, so that strikes group by value.
pub fn strike_key(strike: Num) -> (r: i64)
    ensures
        r == key_of(strike),
{
    (strike * Num::of(KEY_SCALE)).round().to_i64()
}

impl OiAgg {
    /// Nothing.
    pub open spec fn blank() -> OiAgg {
        let zero = Num::of(ZERO);
        OiAgg { call_oi: zero, put_oi: zero, call_vol: zero, put_vol: zero }
    }

    /// With a quote.
    pub open spec fn plus(self, q: OptionQuote) -> OiAgg {
        let oi = Num::whole(false, q.open_interest as nat);
        let vol = Num::whole(false, q.volume as nat);
        match q.right {
            OptionRight::Call => OiAgg {
                call_oi: self.call_oi.fadd(oi),
                call_vol: self.call_vol.fadd(vol),
                ..self
            },
            OptionRight::Put => OiAgg {
                put_oi: self.put_oi.fadd(oi),
                put_vol: self.put_vol.fadd(vol),
                ..self
            },
        }
    }

    fn none() -> (r: OiAgg)
        ensures
            r == OiAgg::blank(),
    {
        let zero = Num::of(ZERO);
        OiAgg { call_oi: zero, put_oi: zero, call_vol: zero, put_vol: zero }
    }

    fn with(self, q: &OptionQuote) -> (r: OiAgg)
        ensures
            r == self.plus(*q),
    {
        let oi = Num::from_u64(q.open_interest);
        let vol = Num::from_u64(q.volume);
        match q.right {
            OptionRight::Call => OiAgg {
                call_oi: self.call_oi + oi,
                call_vol: self.call_vol + vol,
                put_oi: self.put_oi,
                put_vol: self.put_vol,
            },
            OptionRight::Put => OiAgg {
                put_oi: self.put_oi + oi,
                put_vol: self.put_vol + vol,
                call_oi: self.call_oi,
                call_vol: self.call_vol,
            },
        }
    }
}

/// The open interest and volume of the quotes of a key, summed in order.
pub open spec fn agg_at(quotes: Seq<OptionQuote>, key: i64) -> OiAgg
    decreases quotes.len(),
{
    if quotes.len() == 0 {
        OiAgg::blank()
    } else {
        let before = agg_at(quotes.drop_last(), key);
        if key_of(quotes.last().strike) == key {
            before.plus(quotes.last())
        } else {
            before
        }
    }
}

/// The keys of some quotes, in order of first appearance.
pub open spec fn keys_of(quotes: Seq<OptionQuote>) -> Seq<i64>
    decreases quotes.len(),
{
    if quotes.len() == 0 {
        Seq::empty()
    } else {
        let rest = keys_of(quotes.drop_last());
        let key = key_of(quotes.last().strike);
        if rest.contains(key) {
            rest
        } else {
            rest.push(key)
        }
    }
}

/// The open interest of all quotes: that of each key, summed.
pub open spec fn total_oi_of(quotes: Seq<OptionQuote>) -> Num {
    sums::sum(
        keys_of(quotes).map_values(
            |k: i64| agg_at(quotes, k).call_oi.fadd(agg_at(quotes, k).put_oi),
        ),
    )
}

/// Open interest and volume by strike.
#[derive(Debug, PartialEq)]
pub struct OiTable {
    /// Keys of the strikes.
    pub keys: Vec<i64>,
    /// What each key holds.
    pub aggs: Vec<OiAgg>,
}

impl OiTable {
    /// Whether this is the table of some quotes.
    pub open spec fn is_of(self, quotes: Seq<OptionQuote>) -> bool {
        &&& self.keys@ == keys_of(quotes)
        &&& self.aggs@ == keys_of(quotes).map_values(|k: i64| agg_at(quotes, k))
    }

    fn find(&self, key: i64) -> (r: Option<usize>)
        ensures
            match r {
                Some(i) => i < self.keys@.len() && self.keys@[i as int] == key,
                None => !self.keys@.contains(key),
            },
    {
        let mut i: usize = 0;
        while i < self.keys.len()
            invariant
                i <= self.keys@.len(),
                forall|k: int| 0 <= k < i ==> #[trigger] self.keys@[k] != key,
            decreases self.keys@.len() - i,
        {
            if self.keys[i] == key {
                return Some(i);
            }
            i = i + 1;
        }
        None
    }

    /// What a key holds; nothing where no quote has it.
    pub fn get(&self, key: i64, quotes: &Vec<OptionQuote>) -> (r: OiAgg)
        requires
            self.is_of(quotes@),
        ensures
            r == agg_at(quotes@, key),
    {
        match self.find(key) {
            Some(i) => self.aggs[i],
            None => {
                proof {
                    lemma_absent_key(quotes@, key);
                }
                OiAgg::none()
            },
        }
    }

    /// The open interest of all strikes.
    pub fn total(&self, quotes: &Vec<OptionQuote>) -> (r: Num)
        requires
            self.is_of(quotes@),
        ensures
            r == total_oi_of(quotes@),
    {
        let ghost all = keys_of(quotes@).map_values(
            |k: i64| agg_at(quotes@, k).call_oi.fadd(agg_at(quotes@, k).put_oi),
        );
        let mut sum = Num::of(NEG_ZERO);
        let mut i: usize = 0;
        proof {
            assert(all.take(0) =~= Seq::<Num>::empty());
        }
        while i < self.aggs.len()
            invariant
                self.is_of(quotes@),
                i <= self.aggs@.len() == all.len(),
                all == keys_of(quotes@).map_values(
                    |k: i64| agg_at(quotes@, k).call_oi.fadd(agg_at(quotes@, k).put_oi),
                ),
                sum == sums::sum(all.take(i as int)),
            decreases self.aggs@.len() - i,
        {
            proof {
                assert(all.take(i + 1).drop_last() =~= all.take(i as int));
                assert(all.take(i + 1).last() == all[i as int]);
            }
            sum = sum + (self.aggs[i].call_oi + self.aggs[i].put_oi);
            i = i + 1;
        }
        proof {
            assert(all.take(i as int) =~= all);
        }
        sum
    }
}

/// A key that no quote has holds nothing.
proof fn lemma_absent_key(quotes: Seq<OptionQuote>, key: i64)
    requires
        !keys_of(quotes).contains(key),
    ensures
        agg_at(quotes, key) == OiAgg::blank(),
    decreases quotes.len(),
{
    if quotes.len() > 0 {
        let rest = keys_of(quotes.drop_last());
        let k = key_of(quotes.last().strike);
        if !rest.contains(k) {
            assert(rest.push(k)[rest.len() as int] == k);
        }
        assert(k != key);
        if rest.contains(key) {
            let i = choose|i: int| 0 <= i < rest.len() && rest[i] == key;
            assert(keys_of(quotes)[i] == key);
        }
        lemma_absent_key(quotes.drop_last(), key);
    }
}

/// Each key stands once.
pub proof fn law_keys_are_distinct(quotes: Seq<OptionQuote>)
    ensures
        forall|i: int, j: int|
            0 <= i < j < keys_of(quotes).len() ==> keys_of(quotes)[i] != keys_of(quotes)[j],
    decreases quotes.len(),
{
    if quotes.len() > 0 {
        law_keys_are_distinct(quotes.drop_last());
        let rest = keys_of(quotes.drop_last());
        assert forall|i: int| 0 <= i < rest.len() implies rest.contains(#[trigger] rest[i]) by {}
    }
}

/// Open interest and volume by strike and side.
pub fn aggregate_oi(quotes: &Vec<OptionQuote>) -> (r: OiTable)
    ensures
        r.is_of(quotes@),
{
    let mut t = OiTable { keys: Vec::new(), aggs: Vec::new() };
    let mut i: usize = 0;
    proof {
        assert(quotes@.take(0) =~= Seq::<OptionQuote>::empty());
        assert(t.keys@ =~= keys_of(quotes@.take(0)));
        assert(t.aggs@ =~= keys_of(quotes@.take(0)).map_values(
            |k: i64| agg_at(quotes@.take(0), k),
        ));
    }
    while i < quotes.len()
        invariant
            i <= quotes@.len(),
            t.is_of(quotes@.take(i as int)),
        decreases quotes@.len() - i,
    {
        let q = quotes[i];
        let key: i64 = strike_key(q.strike);
        let ghost before = quotes@.take(i as int);
        let ghost after = quotes@.take(i + 1);
        let ghost was = t;
        proof {
            assert(after.drop_last() =~= before);
            assert(after.last() == q);
            law_keys_are_distinct(before);
        }
        match t.find(key) {
            Some(at) => {
                let agg = t.aggs[at].with(&q);
                t.aggs.set(at, agg);
                proof {
                    assert(keys_of(before).contains(key));
                    assert(t.aggs@ =~= keys_of(after).map_values(|k: i64| agg_at(after, k)));
                }
            },
            None => {
                t.keys.push(key);
                t.aggs.push(OiAgg::none().with(&q));
                proof {
                    lemma_absent_key(before, key);
                    assert forall|k: int| 0 <= k < was.keys@.len() implies #[trigger] was.keys@[k]
                        != key by {
                        assert(was.keys@.contains(was.keys@[k]));
                    }
                    assert(t.aggs@ =~= keys_of(after).map_values(|k: i64| agg_at(after, k)));
                }
            },
        }
        i = i + 1;
    }
    proof {
        assert(quotes@.take(i as int) =~= quotes@);
    }
    t
}

/// Gamma-weighted strikes and gamma weights of the first `n` rungs.
pub open spec fn gamma_moments(rows: Seq<StrikeExposure>, n: nat) -> (Num, Num)
    decreases n,
{
    if n == 0 {
        (Num::of(ZERO), Num::of(ZERO))
    } else {
        let (num, den) = gamma_moments(rows, (n - 1) as nat);
        let w = rows[n - 1].gex.fabs();
        (num.fadd(rows[n - 1].strike.fmul(w)), den.fadd(w))
    }
}

/// The gamma centre of mass; spot where there is no gamma.
pub open spec fn center_of(rows: Seq<StrikeExposure>, spot: Num) -> Num {
    let (num, den) = gamma_moments(rows, rows.len());
    if Num::of(ZERO).flt(den) {
        num.fdiv(den)
    } else {
        spot
    }
}

/// The gamma centre of mass; spot where there is no gamma.
pub fn gamma_center_of_mass(g: &GexStructure) -> (r: Num)
    ensures
        r == center_of(g.profile@, g.spot),
{
    let mut num = Num::of(ZERO);
    let mut den = Num::of(ZERO);
    let mut i: usize = 0;
    while i < g.profile.len()
        invariant
            i <= g.profile@.len(),
            (num, den) == gamma_moments(g.profile@, i as nat),
        decreases g.profile@.len() - i,
    {
        let w = g.profile[i].gex.abs();
        num = num + g.profile[i].strike * w;
        den = den + w;
        i = i + 1;
    }
    if den > Num::of(ZERO) {
        num / den
    } else {
        g.spot
    }
}

/// Distance from spot and implied vol of the nearest of the first `n` quotes
/// that carry one; of equals the first.
pub open spec fn nearest_vol(quotes: Seq<OptionQuote>, spot: Num, n: nat) -> Option<(Num, Num)>
    decreases n,
{
    if n == 0 {
        None
    } else {
        let best = nearest_vol(quotes, spot, (n - 1) as nat);
        let q = quotes[n - 1];
        match q.iv {
            Some(iv) => {
                let d = q.strike.fsub(spot).fabs();
                match best {
                    Some((b, _)) => if d.rank() < b.rank() {
                        Some((d, iv))
                    } else {
                        best
                    },
                    None => Some((d, iv)),
                }
            },
            None => best,
        }
    }
}

/// The implied vol at the money; 0 where no quote carries one.
pub open spec fn atm_vol(quotes: Seq<OptionQuote>, spot: Num) -> Num {
    match nearest_vol(quotes, spot, quotes.len()) {
        Some((_, iv)) => iv,
        None => Num::of(ZERO),
    }
}

/// The implied vol of the quote nearest spot; 0 where no quote carries one.
pub fn atm_iv(quotes: &Vec<OptionQuote>, spot: Num) -> (r: Num)
    ensures
        r == atm_vol(quotes@, spot),
{
    let mut best: Option<(Num, Num)> = None;
    let mut i: usize = 0;
    while i < quotes.len()
        invariant
            i <= quotes@.len(),
            best == nearest_vol(quotes@, spot, i as nat),
        decreases quotes@.len() - i,
    {
        let q = quotes[i];
        if let Some(iv) = q.iv {
            let d = (q.strike - spot).abs();
            let nearer: bool = match best {
                Some((b, _)) => d.before(b),
                None => true,
            };
            if nearer {
                best = Some((d, iv));
            }
        }
        i = i + 1;
    }
    match best {
        Some((_, iv)) => iv,
        None => Num::of(ZERO),
    }
}

/// Whether a date is earlier than another.
pub open spec fn earlier(a: ExpiryDate, b: ExpiryDate) -> bool {
    ||| a.year < b.year
    ||| a.year == b.year && a.month < b.month
    ||| a.year == b.year && a.month == b.month && a.day < b.day
}

/// The earliest expiry of the first `n` quotes.
pub open spec fn first_expiry(quotes: Seq<OptionQuote>, n: nat) -> Option<ExpiryDate>
    decreases n,
{
    if n == 0 {
        None
    } else {
        let e = quotes[n - 1].expiry;
        match first_expiry(quotes, (n - 1) as nat) {
            Some(b) => if earlier(e, b) {
                Some(e)
            } else {
                Some(b)
            },
            None => Some(e),
        }
    }
}

/// The earliest expiry of some quotes.
pub fn nearest_expiry(quotes: &Vec<OptionQuote>) -> (r: Option<ExpiryDate>)
    ensures
        r == first_expiry(quotes@, quotes@.len()),
{
    let mut best: Option<ExpiryDate> = None;
    let mut i: usize = 0;
    while i < quotes.len()
        invariant
            i <= quotes@.len(),
            best == first_expiry(quotes@, i as nat),
        decreases quotes@.len() - i,
    {
        let e = quotes[i].expiry;
        let sooner: bool = match best {
            Some(b) => e.year < b.year || (e.year == b.year && (e.month < b.month || (e.month
                == b.month && e.day < b.day))),
            None => true,
        };
        if sooner {
            best = Some(e);
        }
        i = i + 1;
    }
    best
}

/// No quote expires before the nearest expiry, and some quote has it.
pub proof fn law_nearest_expiry_is_first(quotes: Seq<OptionQuote>, n: nat)
    requires
        0 < n <= quotes.len(),
    ensures
        match first_expiry(quotes, n) {
            Some(e) => {
                &&& forall|i: int| 0 <= i < n ==> !earlier((#[trigger] quotes[i]).expiry, e)
                &&& exists|i: int| 0 <= i < n && (#[trigger] quotes[i]).expiry == e
            },
            None => false,
        },
    decreases n,
{
    if n > 1 {
        law_nearest_expiry_is_first(quotes, (n - 1) as nat);
        let e = first_expiry(quotes, (n - 1) as nat)->0;
        let i = choose|i: int| 0 <= i < n - 1 && (#[trigger] quotes[i]).expiry == e;
        assert(quotes[i].expiry == e);
    }
    assert(quotes[n - 1].expiry == quotes[n - 1].expiry);
}

/// The tenor of a chain: years to its earliest expiry.
pub open spec fn tenor_of(chain: OptionChain) -> Num {
    match first_expiry(chain.quotes@, chain.quotes@.len()) {
        Some(e) => calendar::tenor(chain.ts, e),
        None => Num::of(DEFAULT_TENOR),
    }
}

/// The tenor of a chain: years to its earliest expiry.
pub fn chain_tenor(chain: &OptionChain) -> (r: Num)
    ensures
        r == tenor_of(*chain),
{
    match nearest_expiry(&chain.quotes) {
        Some(e) => calendar::years_to_expiry(chain.ts, e),
        None => Num::of(DEFAULT_TENOR),
    }
}

/// The parameters of the chain engines.
pub open spec fn params_of(t_years: Num) -> GexParams {
    GexParams { t_years, rate: Num::of(RATE), div_yield: Num::of(DIV_YIELD) }
}

/// The parameters of the chain engines.
pub fn chain_params(t_years: Num) -> (r: GexParams)
    ensures
        r == params_of(t_years),
{
    GexParams::new(t_years, Num::of(RATE), Num::of(DIV_YIELD))
}

/// The true range of a series that is too short for one.
pub fn atr_fallback(spot: Num) -> (r: Num)
    ensures
        r == spot.fmul(Num::of(ATR_FALLBACK_PCT)),
{
    spot * Num::of(ATR_FALLBACK_PCT)
}

/// The signed intensity of a bias.
pub open spec fn intensity_of(bias: BiasDirection, intensity: Num) -> Num {
    let sign = match bias {
        BiasDirection::Bullish => Num::of(ONE),
        BiasDirection::Bearish => Num::of(MINUS_ONE),
        BiasDirection::Neutral => Num::of(ZERO),
    };
    unit_signed(sign.fmul(intensity))
}

/// The signed intensity of a bias, in [-1, 1].
pub fn signed_intensity(bias: BiasDirection, intensity: Num) -> (r: Num)
    ensures
        r == intensity_of(bias, intensity),
{
    let sign = match bias {
        BiasDirection::Bullish => Num::of(ONE),
        BiasDirection::Bearish => Num::of(MINUS_ONE),
        BiasDirection::Neutral => Num::of(ZERO),
    };
    to_unit_signed(sign * intensity)
}

/// A signed intensity that is a number lies between -1 and 1.
pub proof fn law_signed_intensity_bounded(bias: BiasDirection, intensity: Num)
    requires
        !intensity_of(bias, intensity).nan(),
    ensures
        Num::of(MINUS_ONE).fle(intensity_of(bias, intensity)),
        intensity_of(bias, intensity).fle(Num::of(ONE)),
{
}

/// What the machine evaluates for a chain.
#[derive(Debug, PartialEq)]
pub struct ChainTerms {
    /// Terms of the kernel contract of each quote (see `gex::kernel_inputs`).
    pub kernel: Vec<BsTerms>,
    /// Hyperbolic tangents of the exposures.
    pub scores: ExposureScores,
    /// Exponential at the `proximity_arg` of the strike of each quote.
    pub proximity: Vec<Num>,
    /// Terms along the implied-vol search of each quote (see `rnd::vol_wanted`).
    pub traces: Vec<Vec<BsTerms>>,
    /// Terms of the risk-neutral density.
    pub rnd: RndTerms,
}

impl ChainTerms {
    /// Whether there are terms for every quote of a chain.
    pub open spec fn fits(self, quotes: Seq<OptionQuote>, spot: Num, t_years: Num) -> bool {
        &&& self.kernel@.len() == quotes.len()
        &&& self.proximity@.len() == quotes.len()
        &&& self.traces@.len() == quotes.len()
        &&& self.rnd.fits(quotes, self.solved(quotes, spot, t_years))
    }

    /// What the implied-vol search found for each quote.
    pub open spec fn solved(self, quotes: Seq<OptionQuote>, spot: Num, t_years: Num) -> Seq<
        Option<Num>,
    > {
        rnd::solutions(quotes, spot, t_years, Num::of(RATE), self.traces@)
    }
}

/// The proximity of a strike: that of the last of the first `n` quotes at it.
pub open spec fn proximity_at(
    quotes: Seq<OptionQuote>,
    proximity: Seq<Num>,
    strike: Num,
    n: nat,
) -> Num
    decreases n,
{
    if n == 0 {
        Num::of(ZERO)
    } else if quotes[n - 1].strike == strike {
        proximity[n - 1]
    } else {
        proximity_at(quotes, proximity, strike, (n - 1) as nat)
    }
}

fn find_proximity(quotes: &Vec<OptionQuote>, proximity: &Vec<Num>, strike: Num) -> (r: Num)
    requires
        proximity@.len() == quotes@.len(),
    ensures
        r == proximity_at(quotes@, proximity@, strike, quotes@.len()),
{
    let mut best = Num::of(ZERO);
    let mut i: usize = 0;
    while i < quotes.len()
        invariant
            i <= quotes@.len() == proximity@.len(),
            best == proximity_at(quotes@, proximity@, strike, i as nat),
        decreases quotes@.len() - i,
    {
        if quotes[i].strike.bits == strike.bits {
            best = proximity[i];
        }
        i = i + 1;
    }
    best
}

/// The gravity inputs of a rung.
pub open spec fn gravity_row(row: StrikeExposure, quotes: Seq<OptionQuote>) -> GravityStrikeInput {
    let agg = agg_at(quotes, key_of(row.strike));
    GravityStrikeInput {
        strike: row.strike,
        net_gex: row.gex,
        call_oi: agg.call_oi,
        put_oi: agg.put_oi,
        call_volume: agg.call_vol,
        put_volume: agg.put_vol,
    }
}

/// The gravity inputs of a ladder.
pub open spec fn gravity_rows(rows: Seq<StrikeExposure>, quotes: Seq<OptionQuote>) -> Seq<
    GravityStrikeInput,
> {
    rows.map_values(|r: StrikeExposure| gravity_row(r, quotes))
}

/// The proximities of a ladder.
pub open spec fn ladder_proximity(
    rows: Seq<StrikeExposure>,
    quotes: Seq<OptionQuote>,
    proximity: Seq<Num>,
) -> Seq<Num> {
    rows.map_values(
        |r: StrikeExposure| proximity_at(quotes, proximity, r.strike, quotes.len()),
    )
}

/// The standard gravity configuration.
pub open spec fn gravity_config() -> GravityConfig {
    GravityConfig {
        w_gex: Num::of(zones::GRAVITY_W_GEX),
        w_oi: Num::of(zones::GRAVITY_W_OI),
        w_volume: Num::of(zones::GRAVITY_W_VOL),
        w_proximity: Num::of(zones::GRAVITY_W_PROX),
        top_n: zones::GRAVITY_TOP_N,
        proximity_scale: Num::of(zones::GRAVITY_PROXIMITY_SCALE),
    }
}

/// The strike of the greatest gravity of a ladder.
pub open spec fn magnet_of(
    rows: Seq<StrikeExposure>,
    quotes: Seq<OptionQuote>,
    proximity: Seq<Num>,
    spot: Num,
) -> Option<Num> {
    let inputs = gravity_rows(rows, quotes);
    let prox = ladder_proximity(rows, quotes, proximity);
    if zones::has_gravity(inputs, prox, spot) {
        Some(zones::ranking(inputs, prox, spot, gravity_config())[0].strike)
    } else {
        None
    }
}

/// The zone-state of a side: that of its wall, or of a wall without strength at spot.
pub open spec fn zone_of(kind: WallKind, w: Option<Wall>, spot: Num, prev: BinaryState) -> WallZone {
    match w {
        Some(w) => WallZone::of_wall(
            kind,
            spot,
            w.strike,
            w.dominance.score.fmul(Num::of(HUNDRED)),
            prev,
        ),
        None => WallZone::of_wall(kind, spot, spot, Num::of(ZERO), prev),
    }
}

fn wall_input(w: &Option<Wall>, spot: Num, previous_state: BinaryState) -> (r: WallInput)
    ensures
        r == (match *w {
            Some(w) => WallInput {
                strike: w.strike,
                strength_0_100: w.dominance.score.fmul(Num::of(HUNDRED)),
                previous_state,
            },
            None => WallInput { strike: spot, strength_0_100: Num::of(ZERO), previous_state },
        }),
{
    match w {
        Some(w) => WallInput {
            strike: w.strike,
            strength_0_100: w.dominance.score * Num::of(HUNDRED),
            previous_state,
        },
        None => WallInput { strike: spot, strength_0_100: Num::of(ZERO), previous_state },
    }
}

/// Not in force.
pub open spec fn inactive() -> Readout {
    Readout { state: BinaryState::Inactive, score: Num::of(ZERO) }
}

fn inactive_readout() -> (r: Readout)
    ensures
        r == inactive(),
{
    Readout { state: BinaryState::Inactive, score: Num::of(ZERO) }
}

/// The wire form of a wall.
pub open spec fn wall_of(w: Option<Wall>, zone: WallZone) -> WallReadout {
    WallReadout {
        strike: match w {
            Some(w) => Some(w.strike),
            None => None,
        },
        margin: zone.margin,
        strength: zone.strength_0_100,
        state: if w is Some {
            zone.readout
        } else {
            inactive()
        },
    }
}

/// The wire form of a wall: its zone-state where there is a wall.
pub fn map_wall(w: &Option<Wall>, zone: &WallZone) -> (r: WallReadout)
    ensures
        r == wall_of(*w, *zone),
{
    match w {
        Some(w) => WallReadout {
            strike: Some(w.strike),
            margin: zone.margin,
            strength: zone.strength_0_100,
            state: zone.readout,
        },
        None => WallReadout {
            strike: None,
            margin: zone.margin,
            strength: zone.strength_0_100,
            state: inactive_readout(),
        },
    }
}

/// The place of the rung nearest spot among the first `n`; of equals the first.
pub open spec fn nearest_rung(rows: Seq<StrikeExposure>, spot: Num, n: nat) -> int
    decreases n,
{
    if n <= 1 {
        0
    } else {
        let b = nearest_rung(rows, spot, (n - 1) as nat);
        if rows[n - 1].strike.fsub(spot).fabs().rank() < rows[b].strike.fsub(spot).fabs().rank() {
            n - 1
        } else {
            b
        }
    }
}

/// The rung marked at spot is one of the ladder's, and none is nearer.
pub proof fn law_marked_rung_is_nearest(rows: Seq<StrikeExposure>, spot: Num, n: nat)
    requires
        0 < n <= rows.len(),
    ensures
        0 <= nearest_rung(rows, spot, n) < n,
        forall|i: int|
            0 <= i < n ==> rows[nearest_rung(rows, spot, n)].strike.fsub(spot).fabs().rank() <= (
            #[trigger] rows[i]).strike.fsub(spot).fabs().rank(),
    decreases n,
{
    if n > 1 {
        law_marked_rung_is_nearest(rows, spot, (n - 1) as nat);
    }
}

fn find_nearest_rung(rows: &Vec<StrikeExposure>, spot: Num) -> (r: usize)
    ensures
        r == nearest_rung(rows@, spot, rows@.len()),
{
    let n: usize = rows.len();
    let mut best: usize = 0;
    let mut i: usize = 1;
    while i < n
        invariant
            n == rows@.len(),
            1 <= i,
            n > 0 ==> i <= n && best < n,
            n == 0 ==> i == 1 && best == 0,
            best == nearest_rung(rows@, spot, i as nat),
        decreases n - i,
    {
        if (rows[i].strike - spot).abs().before((rows[best].strike - spot).abs()) {
            best = i;
        }
        i = i + 1;
    }
    best
}

/// The wire form of a rung.
pub open spec fn rung_of(
    rows: Seq<StrikeExposure>,
    quotes: Seq<OptionQuote>,
    spot: Num,
    i: int,
) -> StrikeRow {
    let agg = agg_at(quotes, key_of(rows[i].strike));
    StrikeRow {
        strike: rows[i].strike,
        gex: rows[i].gex,
        dex: rows[i].dex,
        vex: rows[i].vex,
        open_interest: agg.call_oi.fadd(agg.put_oi).trunc_u64(),
        at_spot: i == nearest_rung(rows, spot, rows.len()),
    }
}

/// Whether a panel is that of a structure, its wall zones and its magnet.
pub open spec fn is_panel_of(
    d: DealerPanel,
    g: GexStructure,
    call: WallZone,
    put: WallZone,
    magnet: Option<Num>,
    quotes: Seq<OptionQuote>,
    spot: Num,
) -> bool {
    &&& d.net_gex == g.net_gex
    &&& d.gross_gex == g.gross_gex
    &&& d.net_dex == g.net_dex
    &&& d.net_vex == g.net_vex
    &&& d.net_charm == g.net_charm
    &&& d.dsi == g.dsi
    &&& d.dealer01 == g.dealer01
    &&& d.gamma_flip == g.gamma_flip
    &&& d.gamma_flip_state == g.flip_readout
    &&& d.call_wall == wall_of(g.call_wall, call)
    &&& d.put_wall == wall_of(g.put_wall, put)
    &&& d.expected_move_pct == (match g.expected_move_pct {
        Some(p) => p,
        None => Num::of(ZERO),
    })
    &&& d.magnet == magnet
    &&& d.ladder@ == Seq::new(
        g.profile@.len(),
        |i: int| rung_of(g.profile@, quotes, spot, i),
    )
    &&& d.excluded_quotes == g.coverage.excluded as u32
}

/// The dealer panel of a structure, its wall zones and its magnet.
pub fn map_dealer(
    g: &GexStructure,
    call: &WallZone,
    put: &WallZone,
    magnet: Option<Num>,
    table: &OiTable,
    quotes: &Vec<OptionQuote>,
    spot: Num,
) -> (r: DealerPanel)
    requires
        table.is_of(quotes@),
    ensures
        is_panel_of(r, *g, *call, *put, magnet, quotes@, spot),
{
    let nearest: usize = find_nearest_rung(&g.profile, spot);
    let mut ladder: Vec<StrikeRow> = Vec::new();
    let mut i: usize = 0;
    while i < g.profile.len()
        invariant
            i <= g.profile@.len(),
            table.is_of(quotes@),
            nearest == nearest_rung(g.profile@, spot, g.profile@.len()),
            ladder@ == Seq::new(i as nat, |k: int| rung_of(g.profile@, quotes@, spot, k)),
        decreases g.profile@.len() - i,
    {
        let row = g.profile[i];
        let agg = table.get(strike_key(row.strike), quotes);
        ladder.push(
            StrikeRow {
                strike: row.strike,
                gex: row.gex,
                dex: row.dex,
                vex: row.vex,
                open_interest: (agg.call_oi + agg.put_oi).to_u64(),
                at_spot: i == nearest,
            },
        );
        i = i + 1;
        proof {
            assert(ladder@ =~= Seq::new(
                i as nat,
                |k: int| rung_of(g.profile@, quotes@, spot, k),
            ));
        }
    }
    DealerPanel {
        net_gex: g.net_gex,
        gross_gex: g.gross_gex,
        net_dex: g.net_dex,
        net_vex: g.net_vex,
        net_charm: g.net_charm,
        dsi: g.dsi,
        dealer01: g.dealer01,
        gamma_flip: g.gamma_flip,
        gamma_flip_state: g.flip_readout,
        call_wall: map_wall(&g.call_wall, call),
        put_wall: map_wall(&g.put_wall, put),
        expected_move_pct: match g.expected_move_pct {
            Some(p) => p,
            None => Num::of(ZERO),
        },
        magnet,
        ladder,
        excluded_quotes: g.coverage.excluded as u32,
    }
}

/// Whether a panel is that before any chain: no exposure, no wall, no flip.
pub open spec fn is_empty_panel(d: DealerPanel) -> bool {
    let zero = Num::of(ZERO);
    let wall = WallReadout { strike: None, margin: zero, strength: zero, state: inactive() };
    &&& d.net_gex == zero
    &&& d.gross_gex == zero
    &&& d.net_dex == zero
    &&& d.net_vex == zero
    &&& d.net_charm == zero
    &&& d.dsi == zero
    &&& d.dealer01 == Num::of(EVEN)
    &&& d.gamma_flip is None
    &&& d.gamma_flip_state == inactive()
    &&& d.call_wall == wall
    &&& d.put_wall == wall
    &&& d.expected_move_pct == zero
    &&& d.magnet is None
    &&& d.ladder@.len() == 0
    &&& d.excluded_quotes == 0
}

/// The dealer panel before any chain.
pub fn empty_dealer_panel() -> (r: DealerPanel)
    ensures
        is_empty_panel(r),
{
    let zero = Num::of(ZERO);
    let wall = WallReadout {
        strike: None,
        margin: zero,
        strength: zero,
        state: inactive_readout(),
    };
    DealerPanel {
        net_gex: zero,
        gross_gex: zero,
        net_dex: zero,
        net_vex: zero,
        net_charm: zero,
        dsi: zero,
        dealer01: Num::of(EVEN),
        gamma_flip: None,
        gamma_flip_state: inactive_readout(),
        call_wall: wall,
        put_wall: wall,
        expected_move_pct: zero,
        magnet: None,
        ladder: Vec::new(),
        excluded_quotes: 0,
    }
}

/// The flow panel before any chain.
pub open spec fn empty_flow() -> FlowPanel {
    let zero = Num::of(ZERO);
    FlowPanel {
        vanna_flow: zero,
        charm_bias: zero,
        migration: zero,
        gamma_dynamics: inactive(),
        oi_flow: inactive(),
    }
}

/// The flow panel before any chain.
pub fn empty_flow_panel() -> (r: FlowPanel)
    ensures
        r == empty_flow(),
{
    let zero = Num::of(ZERO);
    FlowPanel {
        vanna_flow: zero,
        charm_bias: zero,
        migration: zero,
        gamma_dynamics: inactive_readout(),
        oi_flow: inactive_readout(),
    }
}

/// Whether a panel is the wire form of a thesis.
pub open spec fn is_thesis_panel(p: ThesisPanel, t: ThesisReadout) -> bool {
    let s = t.dominant;
    let m = p.sub_scores@;
    &&& p.long_score == Num::whole(false, t.long_score as nat)
    &&& p.short_score == Num::whole(false, t.short_score as nat)
    &&& p.direction == t.direction
    &&& p.engagement == t.engagement
    &&& m.len() == 6
    &&& m[0].is_of("Structure"@, Num::whole(false, s.structure_quality as nat), ""@)
    &&& m[1].is_of("Momentum"@, Num::whole(false, s.rsi_cascade as nat), ""@)
    &&& m[2].is_of("VWAP"@, Num::whole(false, s.vwap_alignment as nat), ""@)
    &&& m[3].is_of("Volume"@, Num::whole(false, s.volume_expansion as nat), ""@)
    &&& m[4].is_of("Liquidity"@, Num::whole(false, s.liquidity_sweep as nat), ""@)
    &&& m[5].is_of("Vol Regime"@, Num::whole(false, s.volatility_regime as nat), ""@)
}

fn score_metric(label: &str, score: u8) -> (r: Metric)
    ensures
        r.is_of(label@, Num::whole(false, score as nat), ""@),
{
    Metric::new(label, Num::from_u64(score as u64), "")
}

/// The wire form of a thesis.
pub fn map_thesis(t: &ThesisReadout) -> (r: ThesisPanel)
    ensures
        is_thesis_panel(r, *t),
{
    let s = t.dominant;
    let mut sub_scores: Vec<Metric> = Vec::new();
    sub_scores.push(score_metric("Structure", s.structure_quality));
    sub_scores.push(score_metric("Momentum", s.rsi_cascade));
    sub_scores.push(score_metric("VWAP", s.vwap_alignment));
    sub_scores.push(score_metric("Volume", s.volume_expansion));
    sub_scores.push(score_metric("Liquidity", s.liquidity_sweep));
    sub_scores.push(score_metric("Vol Regime", s.volatility_regime));
    ThesisPanel {
        long_score: Num::from_u64(t.long_score as u64),
        short_score: Num::from_u64(t.short_score as u64),
        direction: t.direction,
        engagement: t.engagement,
        sub_scores,
    }
}

/// The name of a regime.
pub open spec fn label_text(l: RegimeLabel) -> Seq<char> {
    match l {
        RegimeLabel::TrendExpansion => "TREND_EXPANSION"@,
        RegimeLabel::MeanReversion => "MEAN_REVERSION"@,
        RegimeLabel::TailRisk => "TAIL_RISK"@,
    }
}

/// The name of a regime.
pub fn regime_label(l: RegimeLabel) -> (r: String)
    ensures
        r@ == label_text(l),
{
    match l {
        RegimeLabel::TrendExpansion => "TREND_EXPANSION".to_owned(),
        RegimeLabel::MeanReversion => "MEAN_REVERSION".to_owned(),
        RegimeLabel::TailRisk => "TAIL_RISK".to_owned(),
    }
}

/// Whether a panel is the wire form of a regime.
pub open spec fn is_regime_panel(p: RegimePanel, s: RegimeState) -> bool {
    let c = s.classification;
    let m = p.probabilities@;
    &&& p.hurst == s.hurst
    &&& p.half_life_bars == s.half_life_bars
    &&& p.label@ == label_text(c.label)
    &&& m.len() == 3
    &&& m[0].is_of("Trend"@, c.probabilities.trend_expansion, ""@)
    &&& m[1].is_of("Revert"@, c.probabilities.mean_reversion, ""@)
    &&& m[2].is_of("Tail"@, c.probabilities.tail_risk, ""@)
    &&& p.confidence == c.confident
    &&& p.compression == s.compression
    &&& p.expansion == s.expansion
    &&& p.term_structure_slope == s.term_structure_slope
}

/// The wire form of a regime.
pub fn map_regime(s: &RegimeState) -> (r: RegimePanel)
    ensures
        is_regime_panel(r, *s),
{
    let p = s.classification.probabilities;
    let mut probabilities: Vec<Metric> = Vec::new();
    probabilities.push(Metric::new("Trend", p.trend_expansion, ""));
    probabilities.push(Metric::new("Revert", p.mean_reversion, ""));
    probabilities.push(Metric::new("Tail", p.tail_risk, ""));
    RegimePanel {
        hurst: s.hurst,
        half_life_bars: s.half_life_bars,
        label: regime_label(s.classification.label),
        probabilities,
        confidence: s.classification.confident,
        compression: s.compression,
        expansion: s.expansion,
        term_structure_slope: s.term_structure_slope,
    }
}

/// Whether these are the board entries of every engine.
pub open spec fn is_board(
    e: Seq<EngineStatus>,
    t: ThesisReadout,
    s: RegimeState,
    d: DealerPanel,
    f: FlowPanel,
) -> bool {
    &&& e.len() == 10
    &&& e[0].is_of("THESIS"@, t.engagement)
    &&& e[1].is_of("REGIME"@, s.classification.confident)
    &&& e[2].is_of("COMPRESSION"@, s.compression)
    &&& e[3].is_of("EXPANSION"@, s.expansion)
    &&& e[4].is_of("PERSISTENCE"@, s.persistence)
    &&& e[5].is_of("GAMMA FLIP"@, d.gamma_flip_state)
    &&& e[6].is_of("CALL WALL"@, d.call_wall.state)
    &&& e[7].is_of("PUT WALL"@, d.put_wall.state)
    &&& e[8].is_of("GAMMA DYN"@, f.gamma_dynamics)
    &&& e[9].is_of("OI FLOW"@, f.oi_flow)
}

/// The board: state and score of every engine.
pub fn engine_board(t: &ThesisReadout, s: &RegimeState, d: &DealerPanel, f: &FlowPanel) -> (r: Vec<
    EngineStatus,
>)
    ensures
        is_board(r@, *t, *s, *d, *f),
{
    let mut r: Vec<EngineStatus> = Vec::new();
    r.push(EngineStatus::new("THESIS", &t.engagement));
    r.push(EngineStatus::new("REGIME", &s.classification.confident));
    r.push(EngineStatus::new("COMPRESSION", &s.compression));
    r.push(EngineStatus::new("EXPANSION", &s.expansion));
    r.push(EngineStatus::new("PERSISTENCE", &s.persistence));
    r.push(EngineStatus::new("GAMMA FLIP", &d.gamma_flip_state));
    r.push(EngineStatus::new("CALL WALL", &d.call_wall.state));
    r.push(EngineStatus::new("PUT WALL", &d.put_wall.state));
    r.push(EngineStatus::new("GAMMA DYN", &f.gamma_dynamics));
    r.push(EngineStatus::new("OI FLOW", &f.oi_flow));
    r
}

/// A history after an observation: at full length the oldest leaves.
pub open spec fn bounded_push(h: Seq<Num>, v: Num, cap: usize) -> Seq<Num> {
    if h.len() == cap {
        h.skip(1).push(v)
    } else {
        h.push(v)
    }
}

fn push_bounded(h: &mut Vec<Num>, v: Num, cap: usize)
    requires
        cap > 0,
    ensures
        final(h)@ == bounded_push(old(h)@, v, cap),
{
    if h.len() == cap {
        h.remove(0);
        proof {
            assert(h@ =~= old(h)@.skip(1));
        }
    }
    h.push(v);
}

/// The implied-vol history after an observation; unusable ones are left out.
pub open spec fn vols_after(h: Seq<Num>, iv: Num) -> Seq<Num> {
    if rnd::usable(iv) {
        bounded_push(h, iv, IV_HISTORY_CAP)
    } else {
        h
    }
}

/// The charm history after a magnitude; those that are not finite are left out.
pub open spec fn charms_after(h: Seq<Num>, v: Num) -> Seq<Num> {
    if v.finite() {
        bounded_push(h, v, CHARM_HISTORY_CAP)
    } else {
        h
    }
}

/// The greatest of a history, at least 0.
pub open spec fn peak_of(h: Seq<Num>) -> Num
    decreases h.len(),
{
    if h.len() == 0 {
        Num::of(ZERO)
    } else {
        peak_of(h.drop_last()).fmax(h.last())
    }
}

/// What the chain engines keep from chain to chain.
#[derive(Debug, PartialEq)]
pub struct ChainMemory {
    /// States of the flow engines.
    pub dealer_prev_states: DealerPrevStates,
    /// State of the call wall.
    pub prev_call_wall_state: BinaryState,
    /// State of the put wall.
    pub prev_put_wall_state: BinaryState,
    /// Net gamma of the last chain.
    pub prev_net_gex: Option<Num>,
    /// Net gamma of the chain before the last.
    pub prev2_net_gex: Option<Num>,
    /// Net vanna of the last chain.
    pub prev_net_vanna: Option<Num>,
    /// Gamma centre of mass of the last chain.
    pub prev_gex_com: Option<Num>,
    /// Open interest of the last chain.
    pub prev_total_oi: Option<Num>,
    /// Time of the last chain that was analyzed.
    pub last_chain_ts: Option<TsMillis>,
    /// Implied vols at the money, oldest first.
    pub iv_history: Vec<Num>,
    /// Charm magnitudes, oldest first.
    pub charm_history: Vec<Num>,
}

impl ChainMemory {
    /// Whether the histories are bounded.
    pub open spec fn bounded(self) -> bool {
        self.iv_history@.len() <= IV_HISTORY_CAP && self.charm_history@.len() <= CHARM_HISTORY_CAP
    }

    /// Whether no chain has been seen.
    pub open spec fn is_cold(self) -> bool {
        let off = BinaryState::Inactive;
        &&& self.dealer_prev_states == (DealerPrevStates {
            vanna: off,
            charm: off,
            migration: off,
            gamma: off,
            oi_flow: off,
        })
        &&& self.prev_call_wall_state == off
        &&& self.prev_put_wall_state == off
        &&& self.prev_net_gex is None
        &&& self.prev2_net_gex is None
        &&& self.prev_net_vanna is None
        &&& self.prev_gex_com is None
        &&& self.prev_total_oi is None
        &&& self.last_chain_ts is None
        &&& self.iv_history@.len() == 0
        &&& self.charm_history@.len() == 0
    }

    fn cold() -> (r: ChainMemory)
        ensures
            r.is_cold(),
    {
        ChainMemory {
            dealer_prev_states: DealerPrevStates::default(),
            prev_call_wall_state: BinaryState::Inactive,
            prev_put_wall_state: BinaryState::Inactive,
            prev_net_gex: None,
            prev2_net_gex: None,
            prev_net_vanna: None,
            prev_gex_com: None,
            prev_total_oi: None,
            last_chain_ts: None,
            iv_history: Vec::new(),
            charm_history: Vec::new(),
        }
    }

    fn push_iv(&mut self, iv: Num)
        ensures
            final(self).iv_history@ == vols_after(old(self).iv_history@, iv),
            *final(self) == (ChainMemory { iv_history: final(self).iv_history, ..*old(self) }),
    {
        if iv.is_finite() && iv > Num::of(ZERO) {
            push_bounded(&mut self.iv_history, iv, IV_HISTORY_CAP);
        }
    }

    fn push_charm(&mut self, magnitude: Num)
        ensures
            final(self).charm_history@ == charms_after(old(self).charm_history@, magnitude),
            *final(self) == (ChainMemory {
                charm_history: final(self).charm_history,
                ..*old(self)
            }),
    {
        if magnitude.is_finite() {
            push_bounded(&mut self.charm_history, magnitude, CHARM_HISTORY_CAP);
        }
    }

    fn max_abs_charm(&self) -> (r: Num)
        ensures
            r == peak_of(self.charm_history@),
    {
        let mut peak = Num::of(ZERO);
        let mut i: usize = 0;
        proof {
            assert(self.charm_history@.take(0) =~= Seq::<Num>::empty());
        }
        while i < self.charm_history.len()
            invariant
                i <= self.charm_history@.len(),
                peak == peak_of(self.charm_history@.take(i as int)),
            decreases self.charm_history@.len() - i,
        {
            proof {
                let h = self.charm_history@;
                assert(h.take(i + 1).drop_last() =~= h.take(i as int));
            }
            peak = peak.max(self.charm_history[i]);
            i = i + 1;
        }
        proof {
            assert(self.charm_history@.take(i as int) =~= self.charm_history@);
        }
        peak
    }

    /// Minutes from the last chain to one at a time.
    pub open spec fn minutes_to(self, ts: TsMillis) -> Num {
        match self.last_chain_ts {
            Some(p) => Num::whole(
                false,
                (if ts.0 >= p.0 {
                    ts.0 - p.0
                } else {
                    0
                }) as nat,
            ).fdiv(Num::of(MS_PER_MINUTE)).fmax(Num::of(MIN_DT)),
            None => Num::of(ONE),
        }
    }

    /// The inputs of the flow engines for a chain.
    pub open spec fn flow_inputs(self, g: GexStructure, chain: OptionChain, spot: Num) ->
        DealerDynamicsInput {
        DealerDynamicsInput {
            spot,
            net_gex: g.net_gex,
            net_vanna: g.net_vex,
            net_charm: g.net_charm,
            gex_com: center_of(g.profile@, g.spot),
            total_oi: total_oi_of(chain.quotes@),
            prev_net_gex: self.prev_net_gex,
            prev2_net_gex: self.prev2_net_gex,
            prev_net_vanna: self.prev_net_vanna,
            prev_gex_com: self.prev_gex_com,
            prev_total_oi: self.prev_total_oi,
            prior_max_abs_charm: peak_of(self.charm_history@),
            dt_min: self.minutes_to(chain.ts),
            prev_states: self.dealer_prev_states,
        }
    }

    /// Whether this is `before` after a chain.
    pub open spec fn follows(
        self,
        before: ChainMemory,
        g: GexStructure,
        chain: OptionChain,
        spot: Num,
        d: DealerPanel,
    ) -> bool {
        let f = dynamics_of(before.flow_inputs(g, chain, spot));
        &&& self.dealer_prev_states == (DealerPrevStates {
            vanna: f.vanna.engaged.state,
            charm: f.charm.engaged.state,
            migration: f.migration.migrating.state,
            gamma: f.gamma.hedging_active.state,
            oi_flow: f.oi_flow.flowing.state,
        })
        &&& self.prev_call_wall_state == d.call_wall.state.state
        &&& self.prev_put_wall_state == d.put_wall.state.state
        &&& self.prev_net_gex == Some(g.net_gex)
        &&& self.prev2_net_gex == before.prev_net_gex
        &&& self.prev_net_vanna == Some(g.net_vex)
        &&& self.prev_gex_com == Some(center_of(g.profile@, g.spot))
        &&& self.prev_total_oi == Some(total_oi_of(chain.quotes@))
        &&& self.last_chain_ts == Some(chain.ts)
        &&& self.iv_history@ == vols_after(before.iv_history@, atm_vol(chain.quotes@, spot))
        &&& self.charm_history@ == charms_after(before.charm_history@, g.net_charm.fabs())
    }
}

/// The five flow engines of an input.
pub open spec fn dynamics_of(i: DealerDynamicsInput) -> DealerDynamics {
    DealerDynamics {
        vanna: VannaFlow::of_tick(i.net_vanna, i.prev_net_vanna, i.prev_states.vanna),
        charm: CharmBias::of_tick(i.net_charm, i.prior_max_abs_charm, i.prev_states.charm),
        migration: Migration::of_tick(i.gex_com, i.prev_gex_com, i.spot, i.prev_states.migration),
        gamma: GammaDynamics::of_tick(
            i.net_gex,
            i.prev_net_gex,
            i.prev2_net_gex,
            i.prev_states.gamma,
        ),
        oi_flow: OiFlow::of_tick(i.total_oi, i.prev_total_oi, i.dt_min, i.prev_states.oi_flow),
    }
}

/// The wire form of the flow engines.
pub open spec fn flow_of(f: DealerDynamics) -> FlowPanel {
    FlowPanel {
        vanna_flow: unit_signed(f.vanna.trend_score),
        charm_bias: intensity_of(f.charm.bias, f.charm.intensity),
        migration: unit_signed(f.migration.score),
        gamma_dynamics: f.gamma.hedging_active,
        oi_flow: f.oi_flow.flowing,
    }
}

/// The wire form of the flow engines.
pub fn map_flow(f: &DealerDynamics) -> (r: FlowPanel)
    ensures
        r == flow_of(*f),
{
    FlowPanel {
        vanna_flow: to_unit_signed(f.vanna.trend_score),
        charm_bias: signed_intensity(f.charm.bias, f.charm.intensity),
        migration: to_unit_signed(f.migration.score),
        gamma_dynamics: f.gamma.hedging_active,
        oi_flow: f.oi_flow.flowing,
    }
}

/// What a chain says of volatility.
#[derive(Debug, PartialEq)]
pub struct VolExtra {
    /// Implied vol at the money.
    pub implied_vol: Num,
    /// Its rank.
    pub iv_rank: Num,
    /// Its percentile.
    pub iv_percentile: Num,
    /// Percentiles of the risk-neutral density.
    pub rnd_percentiles: Vec<Metric>,
}

/// A value, or 0 where there is none.
pub open spec fn or_zero(v: Option<Num>) -> Num {
    match v {
        Some(x) => x,
        None => Num::of(ZERO),
    }
}

fn value_or_zero(v: Option<Num>) -> (r: Num)
    ensures
        r == or_zero(v),
{
    match v {
        Some(x) => x,
        None => Num::of(ZERO),
    }
}

/// Whether these are the percentiles of a density; none without one.
pub open spec fn is_percentile_row<E>(m: Seq<Metric>, r: Result<RndCurve, E>) -> bool {
    match r {
        Ok(c) => {
            let p = c.percentiles;
            &&& m.len() == 5
            &&& m[0].is_of("P05"@, p.p05, ""@)
            &&& m[1].is_of("P25"@, p.p25, ""@)
            &&& m[2].is_of("P50"@, p.p50, ""@)
            &&& m[3].is_of("P75"@, p.p75, ""@)
            &&& m[4].is_of("P95"@, p.p95, ""@)
        },
        Err(_) => m.len() == 0,
    }
}

fn percentile_row(c: &RndCurve) -> (r: Vec<Metric>)
    ensures
        is_percentile_row::<()>(r@, Ok(*c)),
{
    let p = c.percentiles;
    let mut r: Vec<Metric> = Vec::new();
    r.push(Metric::new("P05", p.p05, ""));
    r.push(Metric::new("P25", p.p25, ""));
    r.push(Metric::new("P50", p.p50, ""));
    r.push(Metric::new("P75", p.p75, ""));
    r.push(Metric::new("P95", p.p95, ""));
    r
}

impl VolExtra {
    /// Whether two read the same.
    pub open spec fn same(self, other: VolExtra) -> bool {
        &&& self.implied_vol == other.implied_vol
        &&& self.iv_rank == other.iv_rank
        &&& self.iv_percentile == other.iv_percentile
        &&& wire::same_metrics(self.rnd_percentiles@, other.rnd_percentiles@)
    }

    /// Whether there is nothing.
    pub open spec fn is_empty(self) -> bool {
        &&& self.implied_vol == Num::of(ZERO)
        &&& self.iv_rank == Num::of(ZERO)
        &&& self.iv_percentile == Num::of(ZERO)
        &&& self.rnd_percentiles@.len() == 0
    }

    /// Whether this is what a chain says, its implied vol held against the
    /// history before it.
    pub open spec fn is_of(
        self,
        before: ChainMemory,
        chain: OptionChain,
        spot: Num,
        t_years: Num,
        terms: ChainTerms,
    ) -> bool {
        let iv = atm_vol(chain.quotes@, spot);
        let m = IvMetrics::of_history(iv, before.iv_history@);
        &&& self.implied_vol == iv
        &&& self.iv_rank == or_zero(m.rank)
        &&& self.iv_percentile == or_zero(m.percentile)
        &&& exists|c: Result<RndCurve, crate::black_scholes::QuantError>|
            {
                &&& #[trigger] rnd::is_density_of(
                    c,
                    chain.quotes@,
                    spot,
                    t_years,
                    Num::of(RATE),
                    terms.solved(chain.quotes@, spot, t_years),
                    terms.rnd,
                )
                &&& is_percentile_row(self.rnd_percentiles@, c)
            }
    }
}

/// What a chain adds to a snapshot.
#[derive(Debug, PartialEq)]
pub struct ChainReadout {
    /// Dealer positioning.
    pub dealer: DealerPanel,
    /// Dealer flow.
    pub flow: FlowPanel,
    /// Volatility.
    pub vol: VolExtra,
    /// Nearest expiry.
    pub expiry: Option<ExpiryDate>,
}

impl ChainReadout {
    /// Whether two read the same.
    pub open spec fn same(self, other: ChainReadout) -> bool {
        &&& self.dealer.same(other.dealer)
        &&& self.flow == other.flow
        &&& self.vol.same(other.vol)
        &&& self.expiry == other.expiry
    }

    /// Whether there is nothing.
    pub open spec fn is_empty(self) -> bool {
        &&& is_empty_panel(self.dealer)
        &&& self.flow == empty_flow()
        &&& self.vol.is_empty()
        &&& self.expiry is None
    }

    fn empty() -> (r: ChainReadout)
        ensures
            r.is_empty(),
    {
        ChainReadout {
            dealer: empty_dealer_panel(),
            flow: empty_flow_panel(),
            vol: VolExtra {
                implied_vol: Num::of(ZERO),
                iv_rank: Num::of(ZERO),
                iv_percentile: Num::of(ZERO),
                rnd_percentiles: Vec::new(),
            },
            expiry: None,
        }
    }
}

impl Clone for ChainReadout {
    fn clone(&self) -> (r: ChainReadout)
        ensures
            r.same(*self),
    {
        ChainReadout {
            dealer: self.dealer.clone(),
            flow: self.flow,
            vol: VolExtra {
                implied_vol: self.vol.implied_vol,
                iv_rank: self.vol.iv_rank,
                iv_percentile: self.vol.iv_percentile,
                rnd_percentiles: wire::copy_metrics(&self.vol.rnd_percentiles),
            },
            expiry: self.expiry,
        }
    }
}

/// Whether a readout and a memory are what the chain engines make of a
/// structure.
pub open spec fn structured(
    before: ChainMemory,
    after: ChainMemory,
    g: GexStructure,
    chain: OptionChain,
    spot: Num,
    t_years: Num,
    terms: ChainTerms,
    out: ChainReadout,
) -> bool {
    let quotes = chain.quotes@;
    &&& is_panel_of(
        out.dealer,
        g,
        zone_of(WallKind::Call, g.call_wall, spot, before.prev_call_wall_state),
        zone_of(WallKind::Put, g.put_wall, spot, before.prev_put_wall_state),
        magnet_of(g.profile@, quotes, terms.proximity@, spot),
        quotes,
        spot,
    )
    &&& out.flow == flow_of(dynamics_of(before.flow_inputs(g, chain, spot)))
    &&& out.vol.is_of(before, chain, spot, t_years, terms)
    &&& out.expiry == first_expiry(quotes, quotes.len())
    &&& after.follows(before, g, chain, spot, out.dealer)
}

/// Whether a readout and a memory are what a chain gives; a chain that cannot
/// be analyzed gives nothing and leaves the memory as it was.
pub open spec fn chained(
    before: ChainMemory,
    after: ChainMemory,
    chain: OptionChain,
    spot: Num,
    t_years: Num,
    terms: ChainTerms,
    out: ChainReadout,
) -> bool {
    if gex::problem_of(chain, params_of(t_years)) is Some {
        out.is_empty() && after == before
    } else {
        exists|g: GexStructure|
            {
                &&& #[trigger] g.is_structure_of(
                    chain,
                    params_of(t_years),
                    gex::kernel_chain(chain, params_of(t_years), terms.kernel@),
                    terms.scores,
                )
                &&& structured(before, after, g, chain, spot, t_years, terms, out)
            }
    }
}

fn gravity_inputs(
    rows: &Vec<StrikeExposure>,
    table: &OiTable,
    quotes: &Vec<OptionQuote>,
    proximity: &Vec<Num>,
) -> (r: (Vec<GravityStrikeInput>, Vec<Num>))
    requires
        table.is_of(quotes@),
        proximity@.len() == quotes@.len(),
    ensures
        r.0@ == gravity_rows(rows@, quotes@),
        r.1@ == ladder_proximity(rows@, quotes@, proximity@),
{
    let mut inputs: Vec<GravityStrikeInput> = Vec::new();
    let mut prox: Vec<Num> = Vec::new();
    let mut i: usize = 0;
    proof {
        assert(inputs@ =~= gravity_rows(rows@, quotes@).take(0));
        assert(prox@ =~= ladder_proximity(rows@, quotes@, proximity@).take(0));
    }
    while i < rows.len()
        invariant
            i <= rows@.len(),
            table.is_of(quotes@),
            proximity@.len() == quotes@.len(),
            inputs@ == gravity_rows(rows@, quotes@).take(i as int),
            prox@ == ladder_proximity(rows@, quotes@, proximity@).take(i as int),
        decreases rows@.len() - i,
    {
        let row = rows[i];
        let agg = table.get(strike_key(row.strike), quotes);
        inputs.push(
            GravityStrikeInput {
                strike: row.strike,
                net_gex: row.gex,
                call_oi: agg.call_oi,
                put_oi: agg.put_oi,
                call_volume: agg.call_vol,
                put_volume: agg.put_vol,
            },
        );
        prox.push(find_proximity(quotes, proximity, row.strike));
        proof {
            let (a, b) = (
                gravity_rows(rows@, quotes@),
                ladder_proximity(rows@, quotes@, proximity@),
            );
            assert(a.take(i + 1) =~= a.take(i as int).push(a[i as int]));
            assert(b.take(i + 1) =~= b.take(i as int).push(b[i as int]));
        }
        i = i + 1;
    }
    proof {
        let (a, b) = (
            gravity_rows(rows@, quotes@),
            ladder_proximity(rows@, quotes@, proximity@),
        );
        assert(a.take(i as int) =~= a);
        assert(b.take(i as int) =~= b);
    }
    (inputs, prox)
}

/// Runs the chain engines on a chain and advances their memory.
pub fn compose_chain(
    mem: &mut ChainMemory,
    chain: &OptionChain,
    spot: Num,
    t_years: Num,
    terms: &ChainTerms,
) -> (r: ChainReadout)
    requires
        terms.fits(chain.quotes@, spot, t_years),
    ensures
        chained(*old(mem), *final(mem), *chain, spot, t_years, *terms, r),
{
    let ghost before = *mem;
    let params = chain_params(t_years);
    let kernel = gex::kernel_greeks(chain, &params, &terms.kernel);
    let g = match gex::analyze(chain, &params, &kernel, &terms.scores) {
        Ok(g) => g,
        Err(_) => return ChainReadout::empty(),
    };
    let table = aggregate_oi(&chain.quotes);
    let (strikes, prox) = gravity_inputs(&g.profile, &table, &chain.quotes, &terms.proximity);
    let zone_input = ZoneInput {
        spot,
        strikes,
        config: GravityConfig::default(),
        call_wall: wall_input(&g.call_wall, spot, mem.prev_call_wall_state),
        put_wall: wall_input(&g.put_wall, spot, mem.prev_put_wall_state),
    };
    let z = zones::zone_structure(&zone_input, &prox);
    let gex_com = gamma_center_of_mass(&g);
    let total_oi = table.total(&chain.quotes);
    let dt_min = match mem.last_chain_ts {
        Some(p) => (Num::from_u64(chain.ts.saturating_since(p)) / Num::of(MS_PER_MINUTE)).max(
            Num::of(MIN_DT),
        ),
        None => Num::of(ONE),
    };
    let flow = dealer::dealer_dynamics(
        &DealerDynamicsInput {
            spot,
            net_gex: g.net_gex,
            net_vanna: g.net_vex,
            net_charm: g.net_charm,
            gex_com,
            total_oi,
            prev_net_gex: mem.prev_net_gex,
            prev2_net_gex: mem.prev2_net_gex,
            prev_net_vanna: mem.prev_net_vanna,
            prev_gex_com: mem.prev_gex_com,
            prev_total_oi: mem.prev_total_oi,
            prior_max_abs_charm: mem.max_abs_charm(),
            dt_min,
            prev_states: mem.dealer_prev_states,
        },
    );
    let iv = atm_iv(&chain.quotes, spot);
    let metrics = vol_metrics::iv_metrics(iv, &mem.iv_history);
    mem.push_iv(iv);
    let solved = rnd::solved_vols(&chain.quotes, spot, t_years, Num::of(RATE), &terms.traces);
    let density = rnd::implied_rnd(
        &chain.quotes,
        spot,
        t_years,
        Num::of(RATE),
        &solved,
        &terms.rnd,
    );
    let ghost found = density;
    let rnd_percentiles = match &density {
        Ok(c) => percentile_row(c),
        Err(_) => Vec::new(),
    };
    let panel = map_dealer(
        &g,
        &z.call_wall,
        &z.put_wall,
        z.gravity.primary_magnet,
        &table,
        &chain.quotes,
        spot,
    );
    mem.push_charm(g.net_charm.abs());
    mem.prev2_net_gex = mem.prev_net_gex;
    mem.prev_net_gex = Some(g.net_gex);
    mem.prev_net_vanna = Some(g.net_vex);
    mem.prev_gex_com = Some(gex_com);
    mem.prev_total_oi = Some(total_oi);
    mem.last_chain_ts = Some(chain.ts);
    mem.prev_call_wall_state = panel.call_wall.state.state;
    mem.prev_put_wall_state = panel.put_wall.state.state;
    mem.dealer_prev_states = DealerPrevStates {
        vanna: flow.vanna.engaged.state,
        charm: flow.charm.engaged.state,
        migration: flow.migration.migrating.state,
        gamma: flow.gamma.hedging_active.state,
        oi_flow: flow.oi_flow.flowing.state,
    };
    let out = ChainReadout {
        dealer: panel,
        flow: map_flow(&flow),
        vol: VolExtra {
            implied_vol: iv,
            iv_rank: value_or_zero(metrics.rank),
            iv_percentile: value_or_zero(metrics.percentile),
            rnd_percentiles,
        },
        expiry: nearest_expiry(&chain.quotes),
    };
    proof {
        assert(flow == dynamics_of(before.flow_inputs(g, *chain, spot)));
        assert(rnd::is_density_of(
            found,
            chain.quotes@,
            spot,
            t_years,
            Num::of(RATE),
            terms.solved(chain.quotes@, spot, t_years),
            terms.rnd,
        ));
        assert(is_percentile_row(out.vol.rnd_percentiles@, found));
        assert(out.vol.is_of(before, *chain, spot, t_years, *terms));
        assert(z.gravity.primary_magnet == magnet_of(
            g.profile@,
            chain.quotes@,
            terms.proximity@,
            spot,
        ));
        assert(mem.follows(before, g, *chain, spot, out.dealer));
        assert(structured(before, *mem, g, *chain, spot, t_years, *terms, out));
        assert(g.is_structure_of(*chain, params_of(t_years), kernel@, terms.scores));
    }
    out
}

/// The histories stay bounded through every chain.
pub proof fn law_histories_stay_bounded(
    before: ChainMemory,
    after: ChainMemory,
    chain: OptionChain,
    spot: Num,
    t_years: Num,
    terms: ChainTerms,
    out: ChainReadout,
)
    requires
        before.bounded(),
        chained(before, after, chain, spot, t_years, terms, out),
    ensures
        after.bounded(),
{
}

/// What the engines keep of one symbol.
#[derive(Debug, PartialEq)]
pub struct EngineMemory {
    /// State of the thesis.
    pub prev_thesis_state: BinaryState,
    /// States of the regime.
    pub prev_regime_states: RegimePrevStates,
    /// Memory of the chain engines.
    pub chain: ChainMemory,
    /// What the last chain gave, used again while the chain is unchanged.
    pub chain_cache: Option<ChainReadout>,
}

impl EngineMemory {
    /// Whether the histories are bounded and what an analyzed chain gave is kept.
    pub open spec fn wf(self) -> bool {
        self.chain.bounded() && (self.chain.last_chain_ts is Some ==> self.chain_cache is Some)
    }

    /// Whether nothing has been seen.
    pub open spec fn is_cold(self) -> bool {
        &&& self.prev_thesis_state == BinaryState::Inactive
        &&& self.prev_regime_states == RegimePrevStates::cold()
        &&& self.chain.is_cold()
        &&& self.chain_cache is None
    }

    fn cold() -> (r: EngineMemory)
        ensures
            r.is_cold(),
            r.wf(),
    {
        EngineMemory {
            prev_thesis_state: BinaryState::Inactive,
            prev_regime_states: RegimePrevStates::cold(),
            chain: ChainMemory::cold(),
            chain_cache: None,
        }
    }
}

/// What the machine evaluates for a snapshot.
#[derive(Debug, PartialEq)]
pub struct ComposeTerms {
    /// Terms of the long thesis.
    pub long: ScoreTerms,
    /// Terms of the short thesis.
    pub short: ScoreTerms,
    /// Terms of the regime.
    pub regime: RegimeTerms,
    /// Terms of the chain, where it is analyzed.
    pub chain: Option<ChainTerms>,
}

/// Whether a chain is to be analyzed: it holds quotes and its time is not that
/// of the chain analyzed last.
pub open spec fn chain_is_new(m: EngineMemory, chain: Option<OptionChain>) -> bool {
    match chain {
        Some(c) => c.quotes@.len() > 0 && m.chain.last_chain_ts != Some(c.ts),
        None => false,
    }
}

impl ComposeTerms {
    /// Whether there are terms for all that a snapshot needs.
    pub open spec fn fits(
        self,
        candles: Seq<Candle>,
        chain: Option<OptionChain>,
        spot: Num,
        analyzed: bool,
    ) -> bool {
        &&& self.regime.fits(candles)
        &&& analyzed ==> self.chain is Some && (self.chain->0).fits(
            (chain->0).quotes@,
            spot,
            tenor_of(chain->0),
        )
    }
}

/// The thesis of a candle history.
pub open spec fn thesis_of(
    candles: Seq<Candle>,
    spot: Num,
    previous: BinaryState,
    t: ComposeTerms,
) -> ThesisReadout {
    let fallback = spot.fmul(Num::of(ATR_FALLBACK_PCT));
    ThesisReadout::of_scores(
        SystemScore::of_series(candles, Num::of(thesis::DIR_LONG), fallback, t.long),
        SystemScore::of_series(candles, Num::of(thesis::DIR_SHORT), fallback, t.short),
        previous,
    )
}

/// The realized volatility of a candle history; 0 where it cannot be estimated.
pub open spec fn realized_of(candles: Seq<Candle>, logs: Seq<BarRatios>) -> Num {
    if realized_vol::series_problem(candles, realized_vol::MIN_BARS_RETURNS) is None {
        realized_vol::yang_zhang_of(logs, Num::of(MINUTE_BARS_PER_YEAR))
    } else {
        Num::of(ZERO)
    }
}

/// The realized volatility of a candle history: by opens and closes, else by
/// closes alone; 0 where it cannot be estimated.
pub fn realized(candles: &Vec<Candle>, logs: &Vec<BarRatios>) -> (r: Num)
    requires
        logs@.len() == candles@.len(),
    ensures
        r == realized_of(candles@, logs@),
{
    match realized_vol::yang_zhang(candles, logs, Num::of(MINUTE_BARS_PER_YEAR)) {
        Ok(v) => v,
        Err(_) => match realized_vol::close_to_close(
            candles,
            logs,
            Num::of(MINUTE_BARS_PER_YEAR),
        ) {
            Ok(v) => v,
            Err(_) => Num::of(ZERO),
        },
    }
}

/// Whether a chain readout is the one of a snapshot: that of a new chain, which
/// is then kept; that kept of an unchanged chain; nothing without a chain.
pub open spec fn chain_part(
    before: EngineMemory,
    after: EngineMemory,
    chain: Option<OptionChain>,
    spot: Num,
    terms: Option<ChainTerms>,
    out: ChainReadout,
) -> bool {
    if chain_is_new(before, chain) {
        let c = chain->0;
        &&& chained(before.chain, after.chain, c, spot, tenor_of(c), terms->0, out)
        &&& after.chain_cache is Some
        &&& (after.chain_cache->0).same(out)
    } else {
        &&& after.chain == before.chain
        &&& after.chain_cache == before.chain_cache
        &&& if chain is Some && (chain->0).quotes@.len() > 0 && before.chain_cache is Some {
            out.same(before.chain_cache->0)
        } else {
            out.is_empty()
        }
    }
}

/// Whether a snapshot is put together from its parts.
pub open spec fn assembled(
    s: TerminalSnapshot,
    symbol: Seq<char>,
    spot: Num,
    ts: TsMillis,
    synthetic: bool,
    t: ThesisReadout,
    g: RegimeState,
    realized: Num,
    out: ChainReadout,
) -> bool {
    &&& s.wire_version == WIRE_VERSION
    &&& s.symbol@ == symbol
    &&& s.spot == spot
    &&& s.ts == ts
    &&& s.expiry == out.expiry
    &&& s.synthetic == synthetic
    &&& s.dealer == out.dealer
    &&& is_thesis_panel(s.thesis, t)
    &&& is_regime_panel(s.regime, g)
    &&& s.vol == (VolPanel {
        realized_vol: realized,
        implied_vol: out.vol.implied_vol,
        variance_risk_premium: out.vol.implied_vol.fsub(realized),
        iv_rank: out.vol.iv_rank,
        iv_percentile: out.vol.iv_percentile,
        rnd_percentiles: out.vol.rnd_percentiles,
    })
    &&& s.flow == out.flow
    &&& is_board(s.engines@, t, g, out.dealer, out.flow)
}

/// Whether a snapshot and a memory are what the engines make of a symbol.
#[verifier::opaque]
pub open spec fn composed(
    before: EngineMemory,
    after: EngineMemory,
    symbol: Seq<char>,
    candles: Seq<Candle>,
    chain: Option<OptionChain>,
    spot: Num,
    ts: TsMillis,
    synthetic: bool,
    terms: ComposeTerms,
    s: TerminalSnapshot,
) -> bool {
    let t = thesis_of(candles, spot, before.prev_thesis_state, terms);
    let g = RegimeState::of_history(candles, before.prev_regime_states, terms.regime);
    &&& exists|out: ChainReadout|
        {
            &&& #[trigger] chain_part(before, after, chain, spot, terms.chain, out)
            &&& assembled(
                s,
                symbol,
                spot,
                ts,
                synthetic,
                t,
                g,
                realized_of(candles, terms.regime.bars@),
                out,
            )
        }
    &&& after.prev_thesis_state == t.engagement.state
    &&& after.prev_regime_states == (RegimePrevStates {
        persistence: g.persistence.state,
        compression: g.compression.state,
        expansion: g.expansion.state,
        confident: g.classification.confident.state,
    })
}

impl EngineMemory {
    fn chain_readout(&mut self, chain: &Option<OptionChain>, spot: Num, terms: &Option<ChainTerms>)
        -> (r: ChainReadout)
        requires
            old(self).wf(),
            chain_is_new(*old(self), *chain) ==> *terms is Some && (terms->0).fits(
                (chain->0).quotes@,
                spot,
                tenor_of(chain->0),
            ),
        ensures
            chain_part(*old(self), *final(self), *chain, spot, *terms, r),
            final(self).wf(),
            final(self).prev_thesis_state == old(self).prev_thesis_state,
            final(self).prev_regime_states == old(self).prev_regime_states,
    {
        let c = match chain {
            Some(c) => c,
            None => return ChainReadout::empty(),
        };
        if c.quotes.len() == 0 {
            return ChainReadout::empty();
        }
        let seen: bool = match self.chain.last_chain_ts {
            Some(p) => p.0 == c.ts.0,
            None => false,
        };
        if seen {
            return match &self.chain_cache {
                Some(cache) => cache.clone(),
                None => ChainReadout::empty(),
            };
        }
        match terms {
            Some(t) => {
                let ghost before = self.chain;
                let out = compose_chain(&mut self.chain, c, spot, chain_tenor(c), t);
                proof {
                    law_histories_stay_bounded(
                        before,
                        self.chain,
                        *c,
                        spot,
                        tenor_of(*c),
                        *t,
                        out,
                    );
                }
                self.chain_cache = Some(out.clone());
                out
            },
            None => ChainReadout::empty(),
        }
    }

    /// Composes the snapshot of a symbol and advances its memory.
    pub fn compose(
        &mut self,
        symbol: &Symbol,
        candles: &Vec<Candle>,
        chain: &Option<OptionChain>,
        spot: Num,
        ts: TsMillis,
        synthetic: bool,
        terms: &ComposeTerms,
    ) -> (r: TerminalSnapshot)
        requires
            old(self).wf(),
            terms.fits(candles@, *chain, spot, chain_is_new(*old(self), *chain)),
        ensures
            final(self).wf(),
            composed(
                *old(self),
                *final(self),
                symbol@,
                candles@,
                *chain,
                spot,
                ts,
                synthetic,
                *terms,
                r,
            ),
    {
        let t = thesis::thesis_from(
            candles,
            atr_fallback(spot),
            &terms.long,
            &terms.short,
            self.prev_thesis_state,
        );
        let g = regime::analyze_regime_from(candles, self.prev_regime_states, &terms.regime);
        let rv = realized(candles, &terms.regime.bars);
        let out = self.chain_readout(chain, spot, &terms.chain);
        let ghost parts = out;
        let engines = engine_board(&t, &g, &out.dealer, &out.flow);
        self.prev_thesis_state = t.engagement.state;
        self.prev_regime_states = RegimePrevStates {
            persistence: g.persistence.state,
            compression: g.compression.state,
            expansion: g.expansion.state,
            confident: g.classification.confident.state,
        };
        let s = TerminalSnapshot {
            wire_version: WIRE_VERSION,
            symbol: symbol.as_str().to_owned(),
            spot,
            ts,
            expiry: out.expiry,
            synthetic,
            dealer: out.dealer,
            thesis: map_thesis(&t),
            regime: map_regime(&g),
            vol: VolPanel {
                realized_vol: rv,
                implied_vol: out.vol.implied_vol,
                variance_risk_premium: vol_metrics::vol_risk_premium(out.vol.implied_vol, rv),
                iv_rank: out.vol.iv_rank,
                iv_percentile: out.vol.iv_percentile,
                rnd_percentiles: out.vol.rnd_percentiles,
            },
            flow: out.flow,
            engines,
        };
        proof {
            reveal(composed);
            assert(chain_part(*old(self), *self, *chain, spot, terms.chain, parts));
            assert(assembled(
                s,
                symbol@,
                spot,
                ts,
                synthetic,
                t,
                g,
                realized_of(candles@, terms.regime.bars@),
                parts,
            ));
        }
        s
    }
}

/// Two snapshots in a row on the same chain show the same dealer panel, the
/// same flow and the same expiry, whatever came between them on the candles.
pub proof fn law_unchanged_chain_keeps_its_panels(
    m0: EngineMemory,
    m1: EngineMemory,
    m2: EngineMemory,
    symbol: Seq<char>,
    candles: (Seq<Candle>, Seq<Candle>),
    chain: OptionChain,
    spot: (Num, Num),
    ts: (TsMillis, TsMillis),
    synthetic: bool,
    terms: (ComposeTerms, ComposeTerms),
    s: (TerminalSnapshot, TerminalSnapshot),
)
    requires
        m0.wf(),
        chain.quotes@.len() > 0,
        gex::problem_of(chain, params_of(tenor_of(chain))) is None,
        composed(
            m0,
            m1,
            symbol,
            candles.0,
            Some(chain),
            spot.0,
            ts.0,
            synthetic,
            terms.0,
            s.0,
        ),
        composed(
            m1,
            m2,
            symbol,
            candles.1,
            Some(chain),
            spot.1,
            ts.1,
            synthetic,
            terms.1,
            s.1,
        ),
    ensures
        s.1.dealer.same(s.0.dealer),
        s.1.flow == s.0.flow,
        s.1.expiry == s.0.expiry,
        m2.chain == m1.chain,
{
    reveal(composed);
    let a = choose|out: ChainReadout|
        #[trigger] chain_part(m0, m1, Some(chain), spot.0, terms.0.chain, out) && s.0.dealer
            == out.dealer && s.0.flow == out.flow && s.0.expiry == out.expiry;
    let b = choose|out: ChainReadout|
        #[trigger] chain_part(m1, m2, Some(chain), spot.1, terms.1.chain, out) && s.1.dealer
            == out.dealer && s.1.flow == out.flow && s.1.expiry == out.expiry;
    assert(chain_part(m0, m1, Some(chain), spot.0, terms.0.chain, a));
    assert(chain_part(m1, m2, Some(chain), spot.1, terms.1.chain, b));
    assert(m1.chain.last_chain_ts == Some(chain.ts));
    assert(a.same(m1.chain_cache->0) || (m1.chain_cache->0).same(a));
    assert(b.same(m1.chain_cache->0));
}

/// Whether a snapshot and a memory are what the engines make of a symbol,
/// which starts cold where it has no memory.
pub open spec fn advanced(
    was: Option<EngineMemory>,
    now: EngineMemory,
    symbol: Seq<char>,
    candles: Seq<Candle>,
    chain: Option<OptionChain>,
    spot: Num,
    ts: TsMillis,
    synthetic: bool,
    terms: ComposeTerms,
    s: TerminalSnapshot,
) -> bool {
    match was {
        Some(m) => composed(m, now, symbol, candles, chain, spot, ts, synthetic, terms, s),
        None => exists|m: EngineMemory|
            m.is_cold() && #[trigger] composed(
                m,
                now,
                symbol,
                candles,
                chain,
                spot,
                ts,
                synthetic,
                terms,
                s,
            ),
    }
}

/// Memory of one symbol.
#[derive(Debug, PartialEq)]
struct Entry {
    symbol: Symbol,
    memory: EngineMemory,
}

/// Memories of all symbols.
#[derive(Debug, PartialEq)]
pub struct PipelineState {
    entries: Vec<Entry>,
}

spec fn place_of(entries: Seq<Entry>, symbol: Seq<char>) -> Option<int>
    decreases entries.len(),
{
    if entries.len() == 0 {
        None
    } else if entries.last().symbol@ == symbol {
        Some(entries.len() - 1)
    } else {
        place_of(entries.drop_last(), symbol)
    }
}

proof fn lemma_place(entries: Seq<Entry>, symbol: Seq<char>)
    ensures
        match place_of(entries, symbol) {
            Some(i) => 0 <= i < entries.len() && entries[i].symbol@ == symbol,
            None => forall|i: int|
                0 <= i < entries.len() ==> (#[trigger] entries[i]).symbol@ != symbol,
        },
    decreases entries.len(),
{
    if entries.len() > 0 && entries.last().symbol@ != symbol {
        lemma_place(entries.drop_last(), symbol);
        assert forall|i: int| 0 <= i < entries.len() - 1 implies #[trigger] entries[i]
            == entries.drop_last()[i] by {}
    }
}

proof fn lemma_place_is(entries: Seq<Entry>, symbol: Seq<char>, i: int)
    requires
        0 <= i < entries.len(),
        entries[i].symbol@ == symbol,
        forall|a: int, b: int|
            0 <= a < b < entries.len() ==> (#[trigger] entries[a]).symbol@ != (
            #[trigger] entries[b]).symbol@,
    ensures
        place_of(entries, symbol) == Some(i),
{
    lemma_place(entries, symbol);
    let k = place_of(entries, symbol);
    if k is None {
        assert(entries[i].symbol@ != symbol);
    } else if k->0 < i {
        assert(entries[k->0].symbol@ != entries[i].symbol@);
    } else if i < k->0 {
        assert(entries[i].symbol@ != entries[k->0].symbol@);
    }
}

proof fn lemma_same_places(a: Seq<Entry>, b: Seq<Entry>, s: Seq<char>)
    requires
        a.len() == b.len(),
        forall|k: int| 0 <= k < a.len() ==> (#[trigger] a[k]).symbol@ == b[k].symbol@,
    ensures
        place_of(a, s) == place_of(b, s),
    decreases a.len(),
{
    if a.len() > 0 {
        assert(a[a.len() - 1].symbol@ == b[a.len() - 1].symbol@);
        assert forall|k: int| 0 <= k < a.len() - 1 implies (#[trigger] a.drop_last()[k]).symbol@
            == b.drop_last()[k].symbol@ by {
            assert(a[k].symbol@ == b[k].symbol@);
        }
        lemma_same_places(a.drop_last(), b.drop_last(), s);
    }
}

impl PipelineState {
    /// Whether every symbol has one memory, which is well formed.
    pub closed spec fn wf(self) -> bool {
        &&& forall|a: int, b: int|
            0 <= a < b < self.entries@.len() ==> (#[trigger] self.entries@[a]).symbol@ != (
            #[trigger] self.entries@[b]).symbol@
        &&& forall|a: int| 0 <= a < self.entries@.len() ==> (#[trigger] self.entries@[a]).memory.wf()
    }

    /// The memory of a symbol.
    pub closed spec fn memory(self, symbol: Seq<char>) -> Option<EngineMemory> {
        match place_of(self.entries@, symbol) {
            Some(i) => Some(self.entries@[i].memory),
            None => None,
        }
    }

    /// Whether a chain is to be analyzed for a symbol.
    pub open spec fn needs_chain(self, symbol: Seq<char>, chain: Option<OptionChain>) -> bool {
        match self.memory(symbol) {
            Some(m) => chain_is_new(m, chain),
            None => chain is Some && (chain->0).quotes@.len() > 0,
        }
    }

    /// No memories.
    pub fn new() -> (r: PipelineState)
        ensures
            r.wf(),
            forall|s: Seq<char>| (#[trigger] r.memory(s)) is None,
    {
        PipelineState { entries: Vec::new() }
    }

    fn find(&self, symbol: &Symbol) -> (r: Option<usize>)
        requires
            self.wf(),
        ensures
            match r {
                Some(i) => {
                    &&& i < self.entries@.len()
                    &&& place_of(self.entries@, symbol@) == Some(i as int)
                },
                None => place_of(self.entries@, symbol@) is None,
            },
    {
        let mut i: usize = 0;
        while i < self.entries.len()
            invariant
                self.wf(),
                i <= self.entries@.len(),
                forall|k: int| 0 <= k < i ==> (#[trigger] self.entries@[k]).symbol@ != symbol@,
            decreases self.entries@.len() - i,
        {
            if self.entries[i].symbol.same(symbol) {
                proof {
                    lemma_place_is(self.entries@, symbol@, i as int);
                }
                return Some(i);
            }
            i = i + 1;
        }
        proof {
            lemma_place(self.entries@, symbol@);
        }
        None
    }

    /// Whether `compose` will analyze a chain for a symbol, and so needs its terms.
    pub fn wants_chain(&self, symbol: &Symbol, chain: &Option<OptionChain>) -> (r: bool)
        requires
            self.wf(),
        ensures
            r == self.needs_chain(symbol@, *chain),
    {
        let c = match chain {
            Some(c) => c,
            None => return false,
        };
        if c.quotes.len() == 0 {
            return false;
        }
        match self.find(symbol) {
            Some(i) => match self.entries[i].memory.chain.last_chain_ts {
                Some(p) => p.0 != c.ts.0,
                None => true,
            },
            None => true,
        }
    }

    /// Composes the snapshot of a symbol and advances its memory; none while
    /// the candle history is short.
    pub fn compose(
        &mut self,
        symbol: &Symbol,
        candles: &Vec<Candle>,
        chain: &Option<OptionChain>,
        spot: Num,
        ts: TsMillis,
        synthetic: bool,
        terms: &ComposeTerms,
    ) -> (r: Option<TerminalSnapshot>)
        requires
            old(self).wf(),
            candles@.len() >= MIN_CANDLES ==> terms.fits(
                candles@,
                *chain,
                spot,
                old(self).needs_chain(symbol@, *chain),
            ),
        ensures
            final(self).wf(),
            r is Some <==> candles@.len() >= MIN_CANDLES,
            r is None ==> *final(self) == *old(self),
            r is Some ==> final(self).memory(symbol@) is Some && advanced(
                old(self).memory(symbol@),
                final(self).memory(symbol@)->0,
                symbol@,
                candles@,
                *chain,
                spot,
                ts,
                synthetic,
                *terms,
                r->0,
            ),
            forall|s: Seq<char>|
                s != symbol@ ==> #[trigger] final(self).memory(s) == old(self).memory(s),
    {
        if candles.len() < MIN_CANDLES {
            return None;
        }
        let ghost entries = self.entries@;
        match self.find(symbol) {
            Some(i) => {
                let mut mem = EngineMemory::cold();
                std::mem::swap(&mut mem, &mut self.entries[i].memory);
                let ghost before = mem;
                proof {
                    lemma_place(entries, symbol@);
                    assert(old(self).memory(symbol@) == Some(before));
                }
                let s = mem.compose(symbol, candles, chain, spot, ts, synthetic, terms);
                std::mem::swap(&mut mem, &mut self.entries[i].memory);
                proof {
                    let after = self.entries@;
                    assert forall|k: int| 0 <= k < after.len() implies (
                    #[trigger] after[k]).symbol@ == entries[k].symbol@ && (k != i ==> after[k]
                        == entries[k]) && after[k].memory.wf() by {
                        assert(entries[k].memory.wf());
                    }
                    lemma_place_is(after, symbol@, i as int);
                    assert forall|t: Seq<char>| t != symbol@ implies #[trigger] self.memory(t)
                        == old(self).memory(t) by {
                        lemma_same_places(after, entries, t);
                        lemma_place(entries, t);
                    }
                    assert(self.memory(symbol@) == Some(after[i as int].memory));
                    assert(composed(
                        before,
                        self.memory(symbol@)->0,
                        symbol@,
                        candles@,
                        *chain,
                        spot,
                        ts,
                        synthetic,
                        *terms,
                        s,
                    ));
                }
                Some(s)
            },
            None => {
                let mut mem = EngineMemory::cold();
                let ghost before = mem;
                let s = mem.compose(symbol, candles, chain, spot, ts, synthetic, terms);
                self.entries.push(Entry { symbol: symbol.clone(), memory: mem });
                proof {
                    let after = self.entries@;
                    lemma_place(entries, symbol@);
                    assert(after.drop_last() =~= entries);
                    assert forall|t: Seq<char>| t != symbol@ implies #[trigger] self.memory(t)
                        == old(self).memory(t) by {
                        lemma_place(entries, t);
                    }
                    assert(self.memory(symbol@) == Some(after.last().memory));
                    assert(composed(
                        before,
                        self.memory(symbol@)->0,
                        symbol@,
                        candles@,
                        *chain,
                        spot,
                        ts,
                        synthetic,
                        *terms,
                        s,
                    ));
                }
                Some(s)
            },
        }
    }
}

} // verus!
