//! Deterministic synthetic market: a seeded random walk of spot with a
//! wandering volatility, and an options chain with a smile around it.
//!
//! All randomness comes from one stream per symbol, seeded from the master seed
//! and the ticker; simulated time advances in fixed steps.  The stream and the
//! machine's exponentials, logarithms and cosines are handed in.

use crate::algebra;
use crate::black_scholes::{
    self, BsGreeks, BsInputs, BsTerms, TAU, THETA_PER_DAY, VEGA_PER_VOL_POINT,
};
use crate::calendar;
use crate::consts::{HALF, HUNDRED, ONE, TWO, ZERO};
use crate::market::{
    self, BarInterval, Candle, EventData, ExpiryDate, Greeks, MarketEvent, OptionChain, OptionQuote,
    OptionRight, SpotQuote, Symbol, TsMillis,
};
use crate::num::Num;
use crate::text;
use vstd::prelude::*;

verus! {

/// Name of the feed.
pub const FEED_NAME: &'static str = "synthetic";

/// Events that may wait between a feed and the gateway.
pub const FEED_CHANNEL_DEPTH: usize = 1024;

/// Simulated milliseconds per bar.
pub const SIM_STEP_MS: u64 = 60_000;

/// Steps of the walk per bar.
pub const INTRA_STEPS_PER_BAR: usize = 24;

/// Bars per chain snapshot.
pub const TICKS_PER_CHAIN: u32 = 5;

/// Strikes on each side of spot.
pub const STRIKES_PER_SIDE: i64 = 15;

/// Strikes of a chain.
pub const STRIKES: usize = 31;

/// Days to expiry of a chain.
pub const CHAIN_DTE_DAYS: i64 = 5;

/// Milliseconds per day.
pub const MS_PER_DAY: u64 = 86_400_000;

/// Factor of the stream seed.
pub const SEED_FACTOR: u64 = 0x0100_0000_01b3;

/// Tenor of a chain, years (5/365).
pub const CHAIN_TENOR: u64 = 0x3F8C_0E07_0381_C0E0;

/// Risk-free rate of a chain (0.045).
pub const RATE: u64 = 0x3FA7_0A3D_70A3_D70A;

/// Implied over realized volatility at the money (1.08).
pub const IV_LIFT: u64 = 0x3FF1_47AE_147A_E148;

/// Smile curvature (1.5).
pub const SMILE_CURVATURE: u64 = 0x3FF8_0000_0000_0000;

/// Scale of the curvature (0.1).
pub const CURVATURE_SCALE: u64 = 0x3FB9_9999_9999_999A;

/// Unit of moneyness, a fraction of spot (0.1).
pub const MONEYNESS_UNIT: u64 = 0x3FB9_9999_9999_999A;

/// Put skew per unit of moneyness (0.1).
pub const PUT_SKEW: u64 = 0x3FB9_9999_9999_999A;

/// Least implied vol (0.03).
pub const IV_MIN: u64 = 0x3F9E_B851_EB85_1EB8;

/// Greatest implied vol (3.0).
pub const IV_MAX: u64 = 0x4008_0000_0000_0000;

/// Peak of the open-interest hump, contracts (18000.0).
pub const OI_PEAK: u64 = 0x40D1_9400_0000_0000;

/// Open interest of far strikes, contracts (150.0).
pub const OI_FLOOR: u64 = 0x4062_C000_0000_0000;

/// Width of the hump, strikes (5.0).
pub const OI_HUMP_WIDTH: u64 = 0x4014_0000_0000_0000;

/// Centre of the hump of the puts, strikes (-2.0).
pub const MINUS_TWO: u64 = 0xC000_0000_0000_0000;

/// Open interest at round strikes over others (2.0).
pub const ROUND_STRIKE_OI_BOOST: u64 = 0x4000_0000_0000_0000;

/// Volume over open interest at the money (0.6).
pub const ATM_TURNOVER: u64 = 0x3FE3_3333_3333_3333;

/// Factor of the turnover exponent (-0.5).
pub const MINUS_HALF: u64 = 0xBFE0_0000_0000_0000;

/// Half the spread, a fraction of the value (0.015).
pub const HALF_SPREAD_FRAC: u64 = 0x3F8E_B851_EB85_1EB8;

/// Least half spread, points (0.025).
pub const MIN_HALF_SPREAD: u64 = 0x3F99_9999_9999_999A;

/// Least bid, points (0.05).
pub const MIN_BID: u64 = 0x3FA9_9999_9999_999A;

/// Least distance of ask and bid, points (0.01).
pub const MIN_TICK: u64 = 0x3F84_7AE1_47AE_147B;

/// Volatility of the volatility (0.9).
pub const VOL_OF_VOL: u64 = 0x3FEC_CCCC_CCCC_CCCD;

/// Mean reversion of the volatility (0.06).
pub const VOL_MEAN_REVERT: u64 = 0x3FAE_B851_EB85_1EB8;

/// Least volatility (0.06).
pub const VOL_MIN: u64 = 0x3FAE_B851_EB85_1EB8;

/// Greatest volatility (0.9).
pub const VOL_MAX: u64 = 0x3FEC_CCCC_CCCC_CCCD;

/// Years per step of the walk (1/(252*390*24)).
pub const STEP_DT: u64 = 0x3E9C_738E_5557_1C8E;

/// Square root of the years per step (0.0006511211540812436).
pub const STEP_ROOT: u64 = 0x3F45_5600_0800_6AB0;

/// Square root of the years per bar (0.003189829176462303).
pub const BAR_ROOT: u64 = 0x3F6A_218E_7FC4_7654;

/// Volume of a quiet bar (1000.0).
pub const BAR_VOLUME: u64 = 0x408F_4000_0000_0000;

/// Steps of the walk per bar (24.0).
pub const STEPS_NUM: u64 = 0x4038_0000_0000_0000;

/// Least jitter of the open interest (0.85).
pub const JITTER_MIN: u64 = 0x3FEB_3333_3333_3333;

/// Bound of the jitter of the open interest (1.15).
pub const JITTER_MAX: u64 = 0x3FF2_6666_6666_6666;

/// Errors at the edge of a feed.
#[derive(Debug, PartialEq, Eq)]
pub enum FeedError {
    /// The universe is empty or holds nothing that the feed can serve.
    UnsupportedUniverse(String),
    /// The transport failed.
    Transport(String),
    /// A payload could not be normalized.
    Malformed(String),
    /// Credentials are missing or were rejected.
    Auth(String),
}

impl FeedError {
    /// What the error says.
    pub open spec fn detail(self) -> Seq<char> {
        match self {
            FeedError::UnsupportedUniverse(s) => s@,
            FeedError::Transport(s) => s@,
            FeedError::Malformed(s) => s@,
            FeedError::Auth(s) => s@,
        }
    }

    /// The message of an error.
    pub fn message(&self) -> (r: String)
        ensures
            r@ == (match *self {
                FeedError::UnsupportedUniverse(_) => "unsupported universe: "@,
                FeedError::Transport(_) => "transport: "@,
                FeedError::Malformed(_) => "malformed upstream payload: "@,
                FeedError::Auth(_) => "auth: "@,
            }) + self.detail(),
    {
        let mut r = match self {
            FeedError::UnsupportedUniverse(_) => "unsupported universe: ".to_owned(),
            FeedError::Transport(_) => "transport: ".to_owned(),
            FeedError::Malformed(_) => "malformed upstream payload: ".to_owned(),
            FeedError::Auth(_) => "auth: ".to_owned(),
        };
        match self {
            FeedError::UnsupportedUniverse(s) => r.push_str(s.as_str()),
            FeedError::Transport(s) => r.push_str(s.as_str()),
            FeedError::Malformed(s) => r.push_str(s.as_str()),
            FeedError::Auth(s) => r.push_str(s.as_str()),
        }
        r
    }
}

/// Parameters of a simulated symbol.
#[derive(Debug, PartialEq)]
pub struct SyntheticSymbol {
    /// Ticker.
    pub symbol: Symbol,
    /// First spot, points.
    pub spot: Num,
    /// First volatility, annualized; also its anchor.
    pub vol: Num,
    /// Distance of strikes, points.
    pub strike_step: Num,
}

impl SyntheticSymbol {
    /// Whether two are the same.
    pub open spec fn same(self, other: SyntheticSymbol) -> bool {
        &&& self.symbol@ == other.symbol@
        &&& self.spot == other.spot
        &&& self.vol == other.vol
        &&& self.strike_step == other.strike_step
    }
}

impl Clone for SyntheticSymbol {
    fn clone(&self) -> (r: SyntheticSymbol)
        ensures
            r.same(*self),
    {
        SyntheticSymbol {
            symbol: self.symbol.clone(),
            spot: self.spot,
            vol: self.vol,
            strike_step: self.strike_step,
        }
    }
}

/// Configuration of the feed.
#[derive(Debug, PartialEq)]
pub struct SyntheticConfig {
    /// Master seed.
    pub seed: u64,
    /// Simulated time of the first bar.
    pub start_ts: TsMillis,
    /// Milliseconds between live bars; 0 for no pause.
    pub tick_interval_ms: u64,
    /// Bars emitted at once on subscription.
    pub warmup_bars: usize,
    /// Symbols that can be simulated.
    pub symbols: Vec<SyntheticSymbol>,
}

/// A ticker that is normalized already.
fn ticker(s: &str) -> (r: Symbol)
    requires
        market::valid_ticker(s@),
    ensures
        r@ == s@,
{
    proof {
        lemma_ticker_is_normal(s@);
    }
    match Symbol::new(s) {
        Ok(t) => t,
        Err(_) => {
            proof {
                assert(false);
            }
            Symbol::new(s).unwrap()
        },
    }
}

proof fn lemma_ticker_is_normal(s: Seq<char>)
    requires
        market::valid_ticker(s),
    ensures
        market::normalized(s) == s,
{
    assert(market::ticker_char(s[0]) && market::ticker_char(s.last()));
    assert(text::trimmed(s) == s);
    assert forall|i: int| 0 <= i < s.len() implies text::upper(#[trigger] s[i]) == s[i] by {
        assert(market::ticker_char(s[i]));
    }
    assert(market::normalized(s) =~= s);
}

/// Whether a symbol is one of a universe.
pub open spec fn in_universe(universe: Seq<Symbol>, s: SyntheticSymbol) -> bool {
    exists|i: int| 0 <= i < universe.len() && (#[trigger] universe[i])@ == s.symbol@
}

/// The symbols of a configuration that are in a universe, in order.
pub open spec fn selected(symbols: Seq<SyntheticSymbol>, universe: Seq<Symbol>) -> Seq<
    SyntheticSymbol,
>
    decreases symbols.len(),
{
    if symbols.len() == 0 {
        Seq::empty()
    } else {
        let rest = selected(symbols.drop_last(), universe);
        if in_universe(universe, symbols.last()) {
            rest.push(symbols.last())
        } else {
            rest
        }
    }
}

/// The list of some tickers.
pub open spec fn universe_list(universe: Seq<Symbol>) -> Seq<char>
    decreases universe.len(),
{
    if universe.len() == 0 {
        Seq::empty()
    } else {
        let rest = universe_list(universe.drop_last());
        let one = "Symbol(\""@ + universe.last()@ + "\")"@;
        if universe.len() == 1 {
            one
        } else {
            rest + ", "@ + one
        }
    }
}

fn describe(universe: &Vec<Symbol>) -> (r: String)
    ensures
        r@ == "none of ["@ + universe_list(universe@)
            + "] are configured for the synthetic feed"@,
{
    let mut r = "none of [".to_owned();
    let mut i: usize = 0;
    proof {
        assert(universe@.take(0) =~= Seq::<Symbol>::empty());
        assert(r@ =~= "none of ["@ + universe_list(universe@.take(0)));
    }
    while i < universe.len()
        invariant
            i <= universe@.len(),
            r@ == "none of ["@ + universe_list(universe@.take(i as int)),
        decreases universe@.len() - i,
    {
        let ghost done = universe@.take(i as int);
        let ghost more = universe@.take(i + 1);
        proof {
            assert(more.drop_last() =~= done);
            assert(more.last() == universe@[i as int]);
        }
        if i > 0 {
            r.push_str(", ");
        }
        r.push_str("Symbol(\"");
        r.push_str(universe[i].as_str());
        r.push_str("\")");
        proof {
            assert(r@ =~= "none of ["@ + universe_list(more));
        }
        i = i + 1;
    }
    proof {
        assert(universe@.take(i as int) =~= universe@);
    }
    r.push_str("] are configured for the synthetic feed");
    r
}

impl SyntheticConfig {
    /// The demonstration universe: an index and a fund.
    pub fn demo(seed: u64) -> (r: SyntheticConfig)
        ensures
            r.seed == seed,
            r.start_ts == TsMillis(1_767_225_600_000),
            r.tick_interval_ms == 500,
            r.warmup_bars == 120,
            r.symbols@.len() == 2,
            r.symbols@[0].symbol@ == "SPX"@,
            r.symbols@[0].spot == Num::of(0x40BA_9000_0000_0000),
            r.symbols@[0].vol == Num::of(0x3FC1_EB85_1EB8_51EC),
            r.symbols@[0].strike_step == Num::of(0x4039_0000_0000_0000),
            r.symbols@[1].symbol@ == "QQQ"@,
            r.symbols@[1].spot == Num::of(0x4083_6000_0000_0000),
            r.symbols@[1].vol == Num::of(0x3FC8_51EB_851E_B852),
            r.symbols@[1].strike_step == Num::of(0x4014_0000_0000_0000),
    {
        proof {
            reveal_strlit("SPX");
            reveal_strlit("QQQ");
        }
        let mut symbols: Vec<SyntheticSymbol> = Vec::new();
        symbols.push(
            SyntheticSymbol {
                symbol: ticker("SPX"),
                spot: Num::of(0x40BA_9000_0000_0000),
                vol: Num::of(0x3FC1_EB85_1EB8_51EC),
                strike_step: Num::of(0x4039_0000_0000_0000),
            },
        );
        symbols.push(
            SyntheticSymbol {
                symbol: ticker("QQQ"),
                spot: Num::of(0x4083_6000_0000_0000),
                vol: Num::of(0x3FC8_51EB_851E_B852),
                strike_step: Num::of(0x4014_0000_0000_0000),
            },
        );
        SyntheticConfig {
            seed,
            start_ts: TsMillis(1_767_225_600_000),
            tick_interval_ms: 500,
            warmup_bars: 120,
            symbols,
        }
    }

    /// The symbols of a universe that can be simulated; an error where there
    /// is none.
    pub fn select(&self, universe: &Vec<Symbol>) -> (r: Result<Vec<SyntheticSymbol>, FeedError>)
        ensures
            match r {
                Ok(v) => {
                    let want = selected(self.symbols@, universe@);
                    &&& want.len() > 0
                    &&& v@.len() == want.len()
                    &&& forall|i: int| 0 <= i < v@.len() ==> (#[trigger] v@[i]).same(want[i])
                },
                Err(e) => {
                    &&& selected(self.symbols@, universe@).len() == 0
                    &&& e is UnsupportedUniverse
                    &&& e.detail() == "none of ["@ + universe_list(universe@)
                        + "] are configured for the synthetic feed"@
                },
            },
    {
        let mut r: Vec<SyntheticSymbol> = Vec::new();
        let mut i: usize = 0;
        proof {
            assert(self.symbols@.take(0) =~= Seq::<SyntheticSymbol>::empty());
        }
        while i < self.symbols.len()
            invariant
                i <= self.symbols@.len(),
                r@.len() == selected(self.symbols@.take(i as int), universe@).len(),
                forall|k: int|
                    0 <= k < r@.len() ==> (#[trigger] r@[k]).same(
                        selected(self.symbols@.take(i as int), universe@)[k],
                    ),
            decreases self.symbols@.len() - i,
        {
            proof {
                let all = self.symbols@;
                assert(all.take(i + 1).drop_last() =~= all.take(i as int));
            }
            let s = &self.symbols[i];
            if contains(universe, s) {
                r.push(s.clone());
            }
            i = i + 1;
        }
        proof {
            assert(self.symbols@.take(i as int) =~= self.symbols@);
        }
        if r.len() == 0 {
            return Err(FeedError::UnsupportedUniverse(describe(universe)));
        }
        Ok(r)
    }
}

fn contains(universe: &Vec<Symbol>, s: &SyntheticSymbol) -> (r: bool)
    ensures
        r == in_universe(universe@, *s),
{
    let mut i: usize = 0;
    while i < universe.len()
        invariant
            i <= universe@.len(),
            forall|k: int| 0 <= k < i ==> (#[trigger] universe@[k])@ != s.symbol@,
        decreases universe@.len() - i,
    {
        if universe[i].same(&s.symbol) {
            return true;
        }
        i = i + 1;
    }
    false
}

/// A seed after one more character, as a 64-bit number that wraps.
pub open spec fn seed_step(seed: u64, c: char) -> u64 {
    ((seed * SEED_FACTOR + c as int) % 0x1_0000_0000_0000_0000) as u64
}

/// The seed of a ticker's stream.
pub open spec fn seed_of(master: u64, ticker: Seq<char>) -> u64
    decreases ticker.len(),
{
    if ticker.len() == 0 {
        master
    } else {
        seed_step(seed_of(master, ticker.drop_last()), ticker.last())
    }
}

/// The seed of a ticker's stream: the master seed mixed with every character.
pub fn stream_seed(master: u64, symbol: &Symbol) -> (r: u64)
    ensures
        r == seed_of(master, symbol@),
{
    let s = symbol.as_str();
    let n: usize = s.unicode_len();
    let mut seed: u64 = master;
    let mut i: usize = 0;
    proof {
        assert(s@.take(0) =~= Seq::<char>::empty());
    }
    while i < n
        invariant
            i <= n == s@.len(),
            seed == seed_of(master, s@.take(i as int)),
        decreases n - i,
    {
        let c: char = s.get_char(i);
        proof {
            assert(s@.take(i + 1).drop_last() =~= s@.take(i as int));
        }
        let wide: u128 = seed as u128 * SEED_FACTOR as u128 + c as u128;
        seed = (wide % 0x1_0000_0000_0000_0000) as u64;
        i = i + 1;
    }
    proof {
        assert(s@.take(i as int) =~= s@);
    }
    seed
}

/// Tickers that differ in their last character alone have different streams.
pub proof fn law_last_character_counts(master: u64, head: Seq<char>, c: char, d: char)
    requires
        c != d,
    ensures
        seed_of(master, head.push(c)) != seed_of(master, head.push(d)),
{
    let s = seed_of(master, head);
    let (a, b) = (seed_step(s, c), seed_step(s, d));
    assert(head.push(c).drop_last() =~= head);
    assert(head.push(d).drop_last() =~= head);
    let x = s * SEED_FACTOR;
    if a == b {
        assert((x + c as int) % 0x1_0000_0000_0000_0000 == (x + d as int)
            % 0x1_0000_0000_0000_0000);
    }
}

/// The angle of a normal draw: a full turn times the second uniform.
pub fn normal_angle(u2: Num) -> (r: Num)
    ensures
        r == Num::of(TAU).fmul(u2),
{
    Num::of(TAU) * u2
}

/// A normal draw from the logarithm of the first uniform and the cosine of its
/// angle.
pub fn normal_draw(ln_u1: Num, cos: Num) -> (r: Num)
    ensures
        r == Num::of(MINUS_TWO).fmul(ln_u1).fsqrt().fmul(cos),
{
    (Num::of(MINUS_TWO) * ln_u1).sqrt() * cos
}

/// State of a simulated symbol.
#[derive(Debug, PartialEq)]
pub struct SymState {
    /// Parameters.
    pub params: SyntheticSymbol,
    /// Spot, points.
    pub spot: Num,
    /// Volatility, annualized.
    pub vol: Num,
    /// Open of the bar under way.
    pub bar_open: Num,
    /// High of the bar under way.
    pub bar_high: Num,
    /// Low of the bar under way.
    pub bar_low: Num,
    /// Volume of the bar under way.
    pub bar_volume: Num,
}

/// The exponent of a step of the walk.
pub open spec fn step_exponent(vol: Num, z: Num) -> Num {
    vol.fmul(Num::of(STEP_ROOT)).fmul(z).fsub(
        Num::of(HALF).fmul(vol).fmul(vol).fmul(Num::of(STEP_DT)),
    )
}

/// Spot after the first `n` steps.
pub open spec fn spot_after(spot: Num, growth: Seq<Num>, n: nat) -> Num
    decreases n,
{
    if n == 0 {
        spot
    } else {
        spot_after(spot, growth, (n - 1) as nat).fmul(growth[n - 1])
    }
}

/// The high after the first `n` steps.
pub open spec fn high_after(high: Num, spot: Num, growth: Seq<Num>, n: nat) -> Num
    decreases n,
{
    if n == 0 {
        high
    } else {
        high_after(high, spot, growth, (n - 1) as nat).fmax(spot_after(spot, growth, n))
    }
}

/// The low after the first `n` steps.
pub open spec fn low_after(low: Num, spot: Num, growth: Seq<Num>, n: nat) -> Num
    decreases n,
{
    if n == 0 {
        low
    } else {
        low_after(low, spot, growth, (n - 1) as nat).fmin(spot_after(spot, growth, n))
    }
}

/// The summed size of the first `n` draws.
pub open spec fn path_after(normals: Seq<Num>, n: nat) -> Num
    decreases n,
{
    if n == 0 {
        Num::of(ZERO)
    } else {
        path_after(normals, (n - 1) as nat).fadd(normals[n - 1].fabs())
    }
}

/// The volatility of the next bar.
pub open spec fn vol_after(vol: Num, anchor: Num, vz: Num) -> Num {
    vol.fadd(Num::of(VOL_OF_VOL).fmul(Num::of(BAR_ROOT)).fmul(vz).fmul(vol)).fadd(
        Num::of(VOL_MEAN_REVERT).fmul(anchor.fsub(vol)).fmul(Num::of(BAR_ROOT)),
    ).fclamp(Num::of(VOL_MIN), Num::of(VOL_MAX))
}

/// The volume of a bar.
pub open spec fn volume_of(normals: Seq<Num>) -> Num {
    Num::of(BAR_VOLUME).fmul(
        Num::of(ONE).fadd(
            path_after(normals, INTRA_STEPS_PER_BAR as nat).fdiv(Num::of(STEPS_NUM)),
        ),
    )
}

impl SymState {
    /// The first state of a symbol.
    pub open spec fn first(params: SyntheticSymbol) -> SymState {
        SymState {
            params,
            spot: params.spot,
            vol: params.vol,
            bar_open: params.spot,
            bar_high: params.spot,
            bar_low: params.spot,
            bar_volume: Num::of(ZERO),
        }
    }

    /// The first state of a symbol.
    pub fn new(params: SyntheticSymbol) -> (r: SymState)
        ensures
            r == SymState::first(params),
    {
        let spot = params.spot;
        let vol = params.vol;
        SymState {
            params,
            spot,
            vol,
            bar_open: spot,
            bar_high: spot,
            bar_low: spot,
            bar_volume: Num::of(ZERO),
        }
    }

    /// The points at which a bar needs the exponential, one for each normal draw.
    pub fn step_exponents(&self, normals: &Vec<Num>) -> (r: Vec<Num>)
        ensures
            r@ == normals@.map_values(|z: Num| step_exponent(self.vol, z)),
    {
        let mut r: Vec<Num> = Vec::new();
        let mut i: usize = 0;
        while i < normals.len()
            invariant
                i <= normals@.len(),
                r@.len() == i,
                forall|k: int|
                    0 <= k < i ==> #[trigger] r@[k] == step_exponent(self.vol, normals@[k]),
            decreases normals@.len() - i,
        {
            r.push(
                self.vol * Num::of(STEP_ROOT) * normals[i] - Num::of(HALF) * self.vol * self.vol
                    * Num::of(STEP_DT),
            );
            i = i + 1;
        }
        proof {
            assert(r@ =~= normals@.map_values(|z: Num| step_exponent(self.vol, z)));
        }
        r
    }

    /// The state one bar on.
    pub open spec fn stepped(self, normals: Seq<Num>, growth: Seq<Num>, vz: Num) -> SymState {
        let n = INTRA_STEPS_PER_BAR as nat;
        SymState {
            params: self.params,
            spot: spot_after(self.spot, growth, n),
            vol: vol_after(self.vol, self.params.vol, vz),
            bar_open: self.bar_open,
            bar_high: high_after(self.bar_high, self.spot, growth, n),
            bar_low: low_after(self.bar_low, self.spot, growth, n),
            bar_volume: self.bar_volume.fadd(volume_of(normals)),
        }
    }

    /// Advances one bar.
    ///
    /// `normals` holds the draws of the steps, `growth` the exponentials at
    /// `step_exponents`, `vz` the draw of the volatility.
    pub fn step(&mut self, normals: &Vec<Num>, growth: &Vec<Num>, vz: Num)
        requires
            normals@.len() == INTRA_STEPS_PER_BAR,
            growth@.len() == INTRA_STEPS_PER_BAR,
        ensures
            *final(self) == old(self).stepped(normals@, growth@, vz),
    {
        let mut path = Num::of(ZERO);
        let mut i: usize = 0;
        while i < INTRA_STEPS_PER_BAR
            invariant
                i <= INTRA_STEPS_PER_BAR,
                normals@.len() == INTRA_STEPS_PER_BAR,
                growth@.len() == INTRA_STEPS_PER_BAR,
                path == path_after(normals@, i as nat),
                self.params == old(self).params,
                self.vol == old(self).vol,
                self.bar_open == old(self).bar_open,
                self.bar_volume == old(self).bar_volume,
                self.spot == spot_after(old(self).spot, growth@, i as nat),
                self.bar_high == high_after(
                    old(self).bar_high,
                    old(self).spot,
                    growth@,
                    i as nat,
                ),
                self.bar_low == low_after(old(self).bar_low, old(self).spot, growth@, i as nat),
            decreases INTRA_STEPS_PER_BAR - i,
        {
            self.spot = self.spot * growth[i];
            self.bar_high = self.bar_high.max(self.spot);
            self.bar_low = self.bar_low.min(self.spot);
            path = path + normals[i].abs();
            i = i + 1;
        }
        self.vol = (self.vol + Num::of(VOL_OF_VOL) * Num::of(BAR_ROOT) * vz * self.vol + Num::of(
            VOL_MEAN_REVERT,
        ) * (self.params.vol - self.vol) * Num::of(BAR_ROOT)).clamp(
            Num::of(VOL_MIN),
            Num::of(VOL_MAX),
        );
        self.bar_volume = self.bar_volume + Num::of(BAR_VOLUME) * (Num::of(ONE) + path / Num::of(
            STEPS_NUM,
        ));
    }

    /// The bar under way.
    pub open spec fn bar(self, ts: TsMillis) -> Candle {
        Candle {
            ts,
            open: self.bar_open,
            high: self.bar_high,
            low: self.bar_low,
            close: self.spot,
            volume: self.bar_volume,
        }
    }

    /// This state with a fresh bar.
    pub open spec fn with_fresh_bar(self) -> SymState {
        SymState {
            bar_open: self.spot,
            bar_high: self.spot,
            bar_low: self.spot,
            bar_volume: Num::of(ZERO),
            ..self
        }
    }

    /// Closes the bar under way and starts the next one.
    pub fn close_candle(&mut self, ts: TsMillis) -> (r: Candle)
        ensures
            r == old(self).bar(ts),
            *final(self) == old(self).with_fresh_bar(),
    {
        let candle = Candle {
            ts,
            open: self.bar_open,
            high: self.bar_high,
            low: self.bar_low,
            close: self.spot,
            volume: self.bar_volume,
        };
        self.bar_open = self.spot;
        self.bar_high = self.spot;
        self.bar_low = self.spot;
        self.bar_volume = Num::of(ZERO);
        candle
    }
}

/// A new bar is sane: its high is at or above, its low at or below, its open
/// and its close, as long as spot is not negative and the growth of every step
/// is positive.
pub proof fn law_bars_are_sane(spot: Num, growth: Seq<Num>, n: nat)
    requires
        !spot.nan() && !spot.negative(),
        n <= growth.len(),
        forall|i: int| 0 <= i < n ==> Num::of(ZERO).flt(#[trigger] growth[i]) && growth[i].finite(),
    ensures
        ({
            let (high, low) = (
                high_after(spot, spot, growth, n),
                low_after(spot, spot, growth, n),
            );
            let close = spot_after(spot, growth, n);
            &&& spot.fle(high)
            &&& close.fle(high)
            &&& low.fle(spot)
            &&& low.fle(close)
            &&& !close.nan() && !close.negative()
        }),
    decreases n,
{
    if n > 0 {
        law_bars_are_sane(spot, growth, (n - 1) as nat);
        algebra::lemma_mul_not_negative(
            spot_after(spot, growth, (n - 1) as nat),
            growth[n - 1],
        );
    }
}

/// The volatility stays within its bounds.
pub proof fn law_volatility_is_bounded(vol: Num, anchor: Num, vz: Num)
    ensures
        ({
            let v = vol_after(vol, anchor, vz);
            !v.nan() ==> Num::of(VOL_MIN).fle(v) && v.fle(Num::of(VOL_MAX))
        }),
{
}

/// What the machine evaluates for a quote, and its draw.
#[derive(Debug, Clone, Copy, PartialEq)]
pub struct QuoteTerms {
    /// Kernel terms of `SymState::quote_inputs`.
    pub bs: BsTerms,
    /// Exponential at `SymState::hump_exponent`.
    pub hump: Num,
    /// Exponential at `SymState::turnover_exponent`.
    pub turnover: Num,
    /// Draw of the jitter, from `JITTER_MIN` to below `JITTER_MAX`.
    pub jitter: Num,
}

/// The open-interest centre of a side, in strikes from spot.
pub open spec fn hump_center(right: OptionRight) -> Num {
    match right {
        OptionRight::Call => Num::of(TWO),
        OptionRight::Put => Num::of(MINUS_TWO),
    }
}

/// The distance of a strike from the open-interest centre of its side.
pub open spec fn hump_distance(offset: int, right: OptionRight) -> Num {
    calendar::signed_num(offset).fsub(hump_center(right)).fdiv(Num::of(OI_HUMP_WIDTH))
}

/// Whether a strike is a multiple of five steps.
pub open spec fn is_round(strike: Num, step: Num) -> bool {
    strike.fdiv(step).fround().trunc_i64() as int % 5 == 0
}

fn is_round_strike(strike: Num, step: Num) -> (r: bool)
    ensures
        r == is_round(strike, step),
{
    let steps: i64 = (strike / step).round().to_i64();
    if steps >= 0 {
        steps % 5 == 0
    } else {
        let up: i64 = -1 - steps;
        up % 5 == 4
    }
}

/// The two sides of a market around a value: a bid of at least its floor, and
/// an ask at least a tick above.
pub open spec fn market_of(theo: Num) -> (Num, Num) {
    let half = theo.fmul(Num::of(HALF_SPREAD_FRAC)).fmax(Num::of(MIN_HALF_SPREAD));
    let bid = theo.fsub(half).fmax(Num::of(MIN_BID));
    (bid, theo.fadd(half).fmax(bid.fadd(Num::of(MIN_TICK))))
}

fn two_sides(theo: Num) -> (r: (Num, Num))
    ensures
        r == market_of(theo),
{
    let half = (theo * Num::of(HALF_SPREAD_FRAC)).max(Num::of(MIN_HALF_SPREAD));
    let bid = (theo - half).max(Num::of(MIN_BID));
    (bid, (theo + half).max(bid + Num::of(MIN_TICK)))
}

/// A quoted market is never crossed and never free, whatever the value: the
/// ask clears the bid by at least one tick.
pub proof fn law_market_is_not_crossed(theo: Num)
    ensures
        ({
            let (bid, ask) = market_of(theo);
            &&& Num::of(MIN_BID).fle(bid)
            &&& bid.fle(ask)
            &&& bid.fadd(Num::of(MIN_TICK)).fle(ask)
        }),
{
    let (bid, ask) = market_of(theo);
    let (zero, tick) = (Num::of(ZERO), Num::of(MIN_TICK));
    if bid.finite() {
        algebra::lemma_add_is_number(bid, tick);
        algebra::lemma_add_is_number(bid, zero);
        algebra::law_add_commutes(bid, tick);
        algebra::law_add_commutes(bid, zero);
        algebra::law_add_monotone(zero, tick, bid);
        algebra::law_add_zero(bid);
    } else {
        reveal(Num::fadd);
    }
}

impl SymState {
    /// The strike nearest spot.
    pub open spec fn center(self) -> Num {
        self.spot.fdiv(self.params.strike_step).fround().fmul(self.params.strike_step)
    }

    /// The strike that is `offset` steps from the nearest.
    pub open spec fn strike_at(self, offset: int) -> Num {
        self.center().fused(offset, self.params.strike_step)
    }

    /// Moneyness in units of a tenth of spot.
    pub open spec fn moneyness(self, strike: Num) -> Num {
        strike.fsub(self.spot).fdiv(Num::of(MONEYNESS_UNIT).fmul(self.spot))
    }

    /// The implied vol of a strike: curved, with a skew of the puts.
    pub open spec fn smile(self, m: Num, right: OptionRight) -> Num {
        let skew = match right {
            OptionRight::Call => Num::of(ZERO),
            OptionRight::Put => Num::of(PUT_SKEW).fmul(m.fneg().fmax(Num::of(ZERO))),
        };
        self.vol.fmul(Num::of(IV_LIFT)).fmul(
            Num::of(ONE).fadd(
                Num::of(SMILE_CURVATURE).fmul(m).fmul(m).fmul(Num::of(CURVATURE_SCALE)),
            ),
        ).fadd(skew).fclamp(Num::of(IV_MIN), Num::of(IV_MAX))
    }

    /// The contract of an offset and a side.
    pub open spec fn contract(self, offset: int, right: OptionRight) -> BsInputs {
        let strike = self.strike_at(offset);
        BsInputs {
            spot: self.spot,
            strike,
            t_years: Num::of(CHAIN_TENOR),
            vol: self.smile(self.moneyness(strike), right),
            rate: Num::of(RATE),
            div_yield: Num::of(ZERO),
        }
    }

    /// Whether a quote is made: its strike is positive and the contract can be
    /// priced.
    pub open spec fn is_quoted(self, offset: int, right: OptionRight) -> bool {
        !self.strike_at(offset).fle(Num::of(ZERO)) && self.contract(offset, right).in_domain()
    }

    /// The quote of an offset and a side.
    pub open spec fn quote(
        self,
        offset: int,
        right: OptionRight,
        expiry: ExpiryDate,
        t: QuoteTerms,
    ) -> OptionQuote {
        let i = self.contract(offset, right);
        let g = BsGreeks::of_contract(i, right, t.bs);
        let boost = if is_round(i.strike, self.params.strike_step) {
            Num::of(ROUND_STRIKE_OI_BOOST)
        } else {
            Num::of(ONE)
        };
        let oi = Num::of(OI_PEAK).fmul(t.hump).fadd(Num::of(OI_FLOOR)).fmul(boost).fmul(
            t.jitter,
        ).fround();
        let volume = oi.fmul(Num::of(ATM_TURNOVER).fmul(t.turnover)).fround();
        let (bid, ask) = market_of(i.value(right, t.bs));
        OptionQuote {
            strike: i.strike,
            right,
            expiry,
            bid: Some(bid),
            ask: Some(ask),
            volume: volume.trunc_u64(),
            open_interest: oi.trunc_u64(),
            iv: Some(i.vol),
            greeks: Some(
                Greeks {
                    delta: g.delta,
                    gamma: g.gamma,
                    theta: g.theta.fdiv(Num::of(THETA_PER_DAY)),
                    vega: g.vega.fdiv(Num::of(VEGA_PER_VOL_POINT)),
                },
            ),
        }
    }

    fn find_strike(&self, offset: i64) -> (r: Num)
        requires
            -STRIKES_PER_SIDE <= offset <= STRIKES_PER_SIDE,
        ensures
            r == self.strike_at(offset as int),
    {
        let step = self.params.strike_step;
        ((self.spot / step).round() * step).add_multiple(offset, step)
    }

    fn find_moneyness(&self, strike: Num) -> (r: Num)
        ensures
            r == self.moneyness(strike),
    {
        (strike - self.spot) / (Num::of(MONEYNESS_UNIT) * self.spot)
    }

    fn find_smile(&self, m: Num, right: OptionRight) -> (r: Num)
        ensures
            r == self.smile(m, right),
    {
        let skew = match right {
            OptionRight::Call => Num::of(ZERO),
            OptionRight::Put => Num::of(PUT_SKEW) * m.neg().max(Num::of(ZERO)),
        };
        (self.vol * Num::of(IV_LIFT) * (Num::of(ONE) + Num::of(SMILE_CURVATURE) * m * m * Num::of(
            CURVATURE_SCALE,
        )) + skew).clamp(Num::of(IV_MIN), Num::of(IV_MAX))
    }

    /// The contract of an offset and a side; none where no quote is made.
    pub fn quote_inputs(&self, offset: i64, right: OptionRight) -> (r: Option<BsInputs>)
        requires
            -STRIKES_PER_SIDE <= offset <= STRIKES_PER_SIDE,
        ensures
            r == (if self.is_quoted(offset as int, right) {
                Some(self.contract(offset as int, right))
            } else {
                None
            }),
    {
        let strike = self.find_strike(offset);
        if strike <= Num::of(ZERO) {
            return None;
        }
        let inputs = BsInputs {
            spot: self.spot,
            strike,
            t_years: Num::of(CHAIN_TENOR),
            vol: self.find_smile(self.find_moneyness(strike), right),
            rate: Num::of(RATE),
            div_yield: Num::of(ZERO),
        };
        match inputs.validate() {
            Ok(_) => Some(inputs),
            Err(_) => None,
        }
    }

    /// The point at which the open interest of a quote needs the exponential.
    pub fn hump_exponent(offset: i64, right: OptionRight) -> (r: Num)
        requires
            -STRIKES_PER_SIDE <= offset <= STRIKES_PER_SIDE,
        ensures
            r == hump_distance(offset as int, right).fneg().fmul(
                hump_distance(offset as int, right),
            ),
    {
        let center = match right {
            OptionRight::Call => Num::of(TWO),
            OptionRight::Put => Num::of(MINUS_TWO),
        };
        let x = (Num::from_i64(offset) - center) / Num::of(OI_HUMP_WIDTH);
        x.neg() * x
    }

    /// The point at which the volume of a quote needs the exponential.
    pub fn turnover_exponent(&self, offset: i64) -> (r: Num)
        requires
            -STRIKES_PER_SIDE <= offset <= STRIKES_PER_SIDE,
        ensures
            ({
                let m = self.moneyness(self.strike_at(offset as int));
                r == Num::of(MINUS_HALF).fmul(m).fmul(m)
            }),
    {
        let m = self.find_moneyness(self.find_strike(offset));
        Num::of(MINUS_HALF) * m * m
    }

    fn make_quote(
        &self,
        inputs: &BsInputs,
        offset: i64,
        right: OptionRight,
        expiry: ExpiryDate,
        t: &QuoteTerms,
    ) -> (r: OptionQuote)
        requires
            self.is_quoted(offset as int, right),
            *inputs == self.contract(offset as int, right),
        ensures
            r == self.quote(offset as int, right, expiry, *t),
    {
        let theo = match black_scholes::price(inputs, right, &t.bs) {
            Ok(p) => p,
            Err(_) => Num::of(ZERO),
        };
        let greeks = match black_scholes::greeks(inputs, right, &t.bs) {
            Ok(g) => Some(
                Greeks {
                    delta: g.delta,
                    gamma: g.gamma,
                    theta: g.theta / Num::of(THETA_PER_DAY),
                    vega: g.vega / Num::of(VEGA_PER_VOL_POINT),
                },
            ),
            Err(_) => None,
        };
        let boost = if is_round_strike(inputs.strike, self.params.strike_step) {
            Num::of(ROUND_STRIKE_OI_BOOST)
        } else {
            Num::of(ONE)
        };
        let oi = ((Num::of(OI_PEAK) * t.hump + Num::of(OI_FLOOR)) * boost * t.jitter).round();
        let volume = (oi * (Num::of(ATM_TURNOVER) * t.turnover)).round();
        let (bid, ask) = two_sides(theo);
        OptionQuote {
            strike: inputs.strike,
            right,
            expiry,
            bid: Some(bid),
            ask: Some(ask),
            volume: volume.to_u64(),
            open_interest: oi.to_u64(),
            iv: Some(inputs.vol),
            greeks,
        }
    }

    /// The quotes of the first `n` places: strikes ascending, call before put.
    pub open spec fn quotes(self, expiry: ExpiryDate, t: Seq<QuoteTerms>, n: nat) -> Seq<OptionQuote>
        decreases n,
    {
        if n == 0 {
            Seq::empty()
        } else {
            let rest = self.quotes(expiry, t, (n - 1) as nat);
            let (offset, right) = place(n - 1);
            if self.is_quoted(offset, right) {
                rest.push(self.quote(offset, right, expiry, t[n - 1]))
            } else {
                rest
            }
        }
    }

    /// Whether this is the chain of the state.
    pub open spec fn is_chain(self, c: OptionChain, ts: TsMillis, t: Seq<QuoteTerms>) -> bool {
        &&& c.underlying@ == self.params.symbol@
        &&& c.spot == self.spot
        &&& c.ts == ts
        &&& c.multiplier == Num::of(HUNDRED)
        &&& c.quotes@ == self.quotes(chain_expiry(ts), t, 2 * STRIKES as nat)
    }

    /// The chain around spot; `terms` holds the terms of every place, in the
    /// order of `quotes`.
    pub fn chain(&self, ts: TsMillis, terms: &Vec<QuoteTerms>) -> (r: OptionChain)
        requires
            terms@.len() == 2 * STRIKES,
        ensures
            self.is_chain(r, ts, terms@),
    {
        let expiry = expiry_of(ts);
        let mut quotes: Vec<OptionQuote> = Vec::new();
        let mut k: usize = 0;
        proof {
            assert(quotes@ =~= self.quotes(expiry, terms@, 0));
        }
        while k < 2 * STRIKES
            invariant
                k <= 2 * STRIKES == terms@.len(),
                expiry == chain_expiry(ts),
                quotes@ == self.quotes(expiry, terms@, k as nat),
            decreases 2 * STRIKES - k,
        {
            let offset: i64 = (k / 2) as i64 - STRIKES_PER_SIDE;
            let right = if k % 2 == 0 {
                OptionRight::Call
            } else {
                OptionRight::Put
            };
            if let Some(inputs) = self.quote_inputs(offset, right) {
                quotes.push(self.make_quote(&inputs, offset, right, expiry, &terms[k]));
            }
            k = k + 1;
        }
        OptionChain {
            underlying: self.params.symbol.clone(),
            spot: self.spot,
            ts,
            multiplier: Num::of(HUNDRED),
            quotes,
        }
    }
}

/// The offset and the side of a place in a chain.
pub open spec fn place(k: int) -> (int, OptionRight) {
    (
        k / 2 - STRIKES_PER_SIDE,
        if k % 2 == 0 {
            OptionRight::Call
        } else {
            OptionRight::Put
        },
    )
}

/// The expiry of a chain: its tenor after the day of the snapshot.
pub open spec fn chain_expiry(ts: TsMillis) -> ExpiryDate {
    let (y, m, d) = calendar::civil((ts.0 / MS_PER_DAY) as int + CHAIN_DTE_DAYS);
    ExpiryDate { year: (y % 0x1_0000) as u16, month: m as u8, day: d as u8 }
}

fn expiry_of(ts: TsMillis) -> (r: ExpiryDate)
    ensures
        r == chain_expiry(ts),
{
    let day: i64 = (ts.0 / MS_PER_DAY) as i64;
    calendar::civil_from_days(day + CHAIN_DTE_DAYS)
}

/// One bar of the schedule.
#[derive(Debug, Clone, Copy, PartialEq, Eq, Structural)]
pub struct Beat {
    /// Simulated time of the bar.
    pub ts: TsMillis,
    /// Whether it is paced; warmup bars are not.
    pub live: bool,
    /// Whether a chain goes with it.
    pub chain: bool,
}

/// The schedule of a simulation.
#[derive(Debug, Clone, Copy, PartialEq, Eq, Structural)]
pub struct Schedule {
    /// Simulated time.
    pub sim_ts: TsMillis,
    /// Warmup bars to come.
    pub warmup_left: usize,
    /// Live bars so far, as a 32-bit count that wraps.
    pub tick: u32,
}

impl Schedule {
    /// The schedule of a configuration.
    pub open spec fn first(config: SyntheticConfig) -> Schedule {
        Schedule { sim_ts: config.start_ts, warmup_left: config.warmup_bars, tick: 0 }
    }

    /// The schedule of a configuration.
    pub fn new(config: &SyntheticConfig) -> (r: Schedule)
        ensures
            r == Schedule::first(*config),
    {
        Schedule { sim_ts: config.start_ts, warmup_left: config.warmup_bars, tick: 0 }
    }

    /// The next count of live bars.
    pub open spec fn next_tick(self) -> u32 {
        if self.tick == u32::MAX {
            0
        } else {
            (self.tick + 1) as u32
        }
    }

    /// The next bar: warmup bars from the start time on, then live bars, every
    /// fifth of them with a chain.
    pub open spec fn beat(self) -> Beat {
        if self.warmup_left > 0 {
            Beat { ts: self.sim_ts, live: false, chain: false }
        } else {
            Beat {
                ts: self.following().sim_ts,
                live: true,
                chain: self.next_tick() % TICKS_PER_CHAIN == 0,
            }
        }
    }

    /// The schedule after the next bar.
    pub open spec fn following(self) -> Schedule {
        Schedule {
            sim_ts: TsMillis((self.sim_ts.0 + SIM_STEP_MS) as u64),
            warmup_left: if self.warmup_left > 0 {
                (self.warmup_left - 1) as usize
            } else {
                0
            },
            tick: if self.warmup_left > 0 {
                self.tick
            } else {
                self.next_tick()
            },
        }
    }

    /// Takes the next bar.
    pub fn next(&mut self) -> (r: Beat)
        requires
            old(self).sim_ts.0 + SIM_STEP_MS <= u64::MAX,
        ensures
            r == old(self).beat(),
            *final(self) == old(self).following(),
    {
        let before = self.sim_ts;
        self.sim_ts = TsMillis(self.sim_ts.0 + SIM_STEP_MS);
        if self.warmup_left > 0 {
            self.warmup_left = self.warmup_left - 1;
            return Beat { ts: before, live: false, chain: false };
        }
        self.tick = if self.tick == u32::MAX {
            0
        } else {
            self.tick + 1
        };
        Beat { ts: self.sim_ts, live: true, chain: self.tick % TICKS_PER_CHAIN == 0 }
    }
}

impl SymState {
    /// What the events of a bar say, after its `step`: on a live bar spot, then
    /// in any case the candle, then the chain where one goes with the bar.
    pub open spec fn bar_events(self, beat: Beat, terms: Seq<QuoteTerms>) -> Seq<EventData> {
        let symbol = self.params.symbol@;
        let ts = beat.ts;
        let spot = seq![EventData::Spot { symbol, price: self.spot, ts }];
        let interval = BarInterval::Min1;
        let candle = seq![EventData::Candle { symbol, interval, candle: self.bar(ts) }];
        let chain = seq![
            EventData::Chain {
                symbol,
                spot: self.spot,
                ts,
                multiplier: Num::of(HUNDRED),
                quotes: self.with_fresh_bar().quotes(chain_expiry(ts), terms, 2 * STRIKES as nat),
            },
        ];
        let none = Seq::<EventData>::empty();
        (if beat.live {
            spot
        } else {
            none
        }) + candle + (if beat.chain {
            chain
        } else {
            none
        })
    }

    /// The events of a bar.
    pub fn events(&mut self, beat: &Beat, terms: &Vec<QuoteTerms>) -> (r: Vec<MarketEvent>)
        requires
            beat.chain ==> terms@.len() == 2 * STRIKES,
        ensures
            *final(self) == old(self).with_fresh_bar(),
            r@.map_values(|e: MarketEvent| e.data()) == old(self).bar_events(*beat, terms@),
    {
        let mut r: Vec<MarketEvent> = Vec::new();
        if beat.live {
            r.push(
                MarketEvent::Spot(
                    SpotQuote {
                        symbol: self.params.symbol.clone(),
                        price: self.spot,
                        ts: beat.ts,
                    },
                ),
            );
        }
        let candle = self.close_candle(beat.ts);
        r.push(
            MarketEvent::Candle {
                symbol: self.params.symbol.clone(),
                interval: BarInterval::Min1,
                candle,
            },
        );
        if beat.chain {
            r.push(MarketEvent::Chain(self.chain(beat.ts, terms)));
        }
        proof {
            assert(r@.map_values(|e: MarketEvent| e.data()) =~= old(self).bar_events(
                *beat,
                terms@,
            ));
        }
        r
    }
}

} // verus!
