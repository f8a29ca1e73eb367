//! Market regime: Hurst persistence, mean-reversion half-life, a three-state
//! classifier, and volatility compression, expansion and term structure.
//!
//! The rescaled range of each window is held against its expectation under
//! independence, so that short series are not read as persistent.  The host
//! machine takes logarithms and exponentials; `return_ratios`, `hurst_points`,
//! `ou_phi` and `regime_exponents` name the points.

use crate::algebra;
use crate::arith;
use crate::closeness;
use crate::consts::{HALF, INFINITY, NEG_INFINITY, ONE, ZERO};
use crate::decimal::{self, decimal};
use crate::exact;
use crate::market::Candle;
use crate::num::Num;
use crate::realized_vol::{self, BarRatios, MIN_BARS_RETURNS};
use crate::risk;
use crate::state::{BinaryState, HysteresisBand, Readout};
use crate::stats;
use crate::sums;
use vstd::arithmetic::div_mod::*;
use vstd::arithmetic::mul::*;
use vstd::arithmetic::power2::*;
use vstd::prelude::*;

verus! {

/// Fewest log returns of a Hurst estimate.
pub const HURST_MIN_RETURNS: usize = 32;

/// Smallest window, returns per chunk.
pub const HURST_BASE_WINDOW: u64 = 8;

/// Fewest points of the slope fit.
pub const HURST_MIN_WINDOW_POINTS: usize = 2;

/// Fewest usable prices of a half-life.
pub const OU_MIN_POINTS: usize = 20;

/// Window of the trailing mean.
pub const OU_MEAN_WINDOW: usize = 20;

/// Fewest log returns of the classifier.
pub const REGIME_MIN_RETURNS: usize = 10;

/// Recent window of the classifier, returns.
pub const REGIME_RECENT_WINDOW: usize = 30;

/// Period of the Bollinger band, bars.
pub const BB_PERIOD: usize = 20;

/// Lookback of the bandwidth percentile, bars.
pub const VOL_ENGINE_LOOKBACK: usize = 100;

/// Fewest closes of a bandwidth percentile.
pub const VOL_ENGINE_MIN_CANDLES: usize = 5;

/// Near window of the term structure, bars.
pub const RV_NEAR_WINDOW: usize = 10;

/// Far window of the term structure, bars.
pub const RV_FAR_WINDOW: usize = 40;

/// Growth of the window ladder (1.6).
pub const HURST_WINDOW_GROWTH: u64 = 0x3FF9_9999_9999_999A;

/// Standard deviation at or below which a chunk is discarded (1e-12).
pub const HURST_STD_FLOOR: u64 = 0x3D71_9799_812D_EA11;

/// Hurst exponent of a random walk (0.5).
pub const HURST_RANDOM_WALK: u64 = 0x3FE0_0000_0000_0000;

/// Hurst exponent of a series too short (0.5).
pub const HURST_FALLBACK: u64 = 0x3FE0_0000_0000_0000;

/// Hurst exponent at which persistence activates (0.55).
pub const HURST_PERSIST_ACTIVATE: u64 = 0x3FE1_9999_9999_999A;

/// Hurst exponent at which persistence deactivates (0.45).
pub const HURST_PERSIST_DEACTIVATE: u64 = 0x3FDC_CCCC_CCCC_CCCD;

/// Half of pi (1.5707963267948966).
pub const FRAC_PI_2: u64 = 0x3FF9_21FB_5444_2D18;

/// Slope at or above which a series does not revert (-0.0001).
pub const NEG_OU_B_THRESHOLD: u64 = 0xBF1A_36E2_EB1C_432D;

/// Minus the logarithm of two (-0.6931471805599453).
pub const NEG_LN_2: u64 = 0xBFE6_2E42_FEFA_39EF;

/// Energy gain of the Hurst exponent (6.0).
pub const REGIME_HURST_GAIN: u64 = 0x4018_0000_0000_0000;

/// Trend energy gain of the vol ratio (1.2).
pub const REGIME_TREND_VOL_GAIN: u64 = 0x3FF3_3333_3333_3333;

/// Reversion energy gain of the vol ratio (1.5).
pub const REGIME_REVERT_VOL_GAIN: u64 = 0x3FF8_0000_0000_0000;

/// Prior energy of mean reversion (0.4).
pub const REGIME_REVERT_PRIOR: u64 = 0x3FD9_9999_9999_999A;

/// Kurtosis from which tail energy accrues (4.0).
pub const REGIME_KURT_THRESHOLD: u64 = 0x4010_0000_0000_0000;

/// Tail energy gain of kurtosis (0.5).
pub const REGIME_TAIL_KURT_GAIN: u64 = 0x3FE0_0000_0000_0000;

/// Vol ratio from which tail energy accrues (1.6).
pub const REGIME_TAIL_VOL_THRESHOLD: u64 = 0x3FF9_9999_9999_999A;

/// Tail energy gain of the vol ratio (2.0).
pub const REGIME_TAIL_VOL_GAIN: u64 = 0x4000_0000_0000_0000;

/// Vol ratio of a vol at its baseline (1.0).
pub const VOL_RATIO_NEUTRAL: u64 = 0x3FF0_0000_0000_0000;

/// Kurtosis of a series without vol (3.0).
pub const GAUSSIAN_KURTOSIS: u64 = 0x4008_0000_0000_0000;

/// Flat prior of trend (0.33).
pub const REGIME_FLAT_TREND: u64 = 0x3FD5_1EB8_51EB_851F;

/// Flat prior of mean reversion (0.34).
pub const REGIME_FLAT_REVERT: u64 = 0x3FD5_C28F_5C28_F5C3;

/// Flat prior of tail risk (0.33).
pub const REGIME_FLAT_TAIL: u64 = 0x3FD5_1EB8_51EB_851F;

/// Posterior at which a classification is confident (0.55).
pub const REGIME_CONFIDENT_ACTIVATE: u64 = 0x3FE1_9999_9999_999A;

/// Posterior at which it no longer is (0.45).
pub const REGIME_CONFIDENT_DEACTIVATE: u64 = 0x3FDC_CCCC_CCCC_CCCD;

/// Width of the Bollinger band, standard deviations (4.0).
pub const BB_WIDTH_MULT: u64 = 0x4010_0000_0000_0000;

/// Percentile without data (0.5).
pub const NEUTRAL_PERCENTILE: u64 = 0x3FE0_0000_0000_0000;

/// Percentile at which expansion activates (0.7).
pub const EXPANSION_ACTIVATE: u64 = 0x3FE6_6666_6666_6666;

/// Percentile at which expansion deactivates (0.6).
pub const EXPANSION_DEACTIVATE: u64 = 0x3FE3_3333_3333_3333;

/// Inverted percentile at which compression activates (0.7).
pub const COMPRESSION_ACTIVATE: u64 = 0x3FE6_6666_6666_6666;

/// Inverted percentile at which compression deactivates (0.6).
pub const COMPRESSION_DEACTIVATE: u64 = 0x3FE3_3333_3333_3333;

/// Band of trend persistence, on the Hurst exponent.
#[verifier::allow_in_spec]
pub fn persistence_band() -> HysteresisBand
    returns
        (HysteresisBand {
            activate_at: Num::of(HURST_PERSIST_ACTIVATE),
            deactivate_at: Num::of(HURST_PERSIST_DEACTIVATE),
        }),
{
    HysteresisBand { activate_at: Num::of(HURST_PERSIST_ACTIVATE), deactivate_at: Num::of(HURST_PERSIST_DEACTIVATE) }
}

/// Band of confidence, on the greatest posterior.
#[verifier::allow_in_spec]
pub fn confident_band() -> HysteresisBand
    returns
        (HysteresisBand {
            activate_at: Num::of(REGIME_CONFIDENT_ACTIVATE),
            deactivate_at: Num::of(REGIME_CONFIDENT_DEACTIVATE),
        }),
{
    HysteresisBand { activate_at: Num::of(REGIME_CONFIDENT_ACTIVATE), deactivate_at: Num::of(REGIME_CONFIDENT_DEACTIVATE) }
}

/// Band of expansion, on the bandwidth percentile.
#[verifier::allow_in_spec]
pub fn expansion_band() -> HysteresisBand
    returns
        (HysteresisBand {
            activate_at: Num::of(EXPANSION_ACTIVATE),
            deactivate_at: Num::of(EXPANSION_DEACTIVATE),
        }),
{
    HysteresisBand { activate_at: Num::of(EXPANSION_ACTIVATE), deactivate_at: Num::of(EXPANSION_DEACTIVATE) }
}

/// Band of compression, on one less the bandwidth percentile.
#[verifier::allow_in_spec]
pub fn compression_band() -> HysteresisBand
    returns
        (HysteresisBand {
            activate_at: Num::of(COMPRESSION_ACTIVATE),
            deactivate_at: Num::of(COMPRESSION_DEACTIVATE),
        }),
{
    HysteresisBand { activate_at: Num::of(COMPRESSION_ACTIVATE), deactivate_at: Num::of(COMPRESSION_DEACTIVATE) }
}

/// The bands of this module are in order.
pub proof fn law_regime_bands_are_well_formed()
    ensures
        persistence_band().wf(),
        confident_band().wf(),
        expansion_band().wf(),
        compression_band().wf(),
{
}

/// A regime, as data.
#[derive(Debug, Clone, Copy, PartialEq, Eq, Structural)]
pub enum RegimeLabel {
    /// Persistent, expanding market.
    TrendExpansion,
    /// Mean-reverting market.
    MeanReversion,
    /// Fat tails or a volatility shock.
    TailRisk,
}

/// Posteriors of the three regimes.
#[derive(Debug, Clone, Copy, PartialEq)]
pub struct RegimeProbabilities {
    /// Of trend expansion.
    pub trend_expansion: Num,
    /// Of mean reversion.
    pub mean_reversion: Num,
    /// Of tail risk.
    pub tail_risk: Num,
}

/// Result of the classifier.
#[derive(Debug, Clone, Copy, PartialEq)]
pub struct RegimeClassification {
    /// Posteriors.
    pub probabilities: RegimeProbabilities,
    /// The most likely regime; of equals the first.
    pub label: RegimeLabel,
    /// Whether the classification is confident; the score is the greatest posterior.
    pub confident: Readout,
}

/// Regime of a candle history.
#[derive(Debug, Clone, Copy, PartialEq)]
pub struct RegimeState {
    /// Hurst exponent.
    pub hurst: Num,
    /// Trend persistence.
    pub persistence: Readout,
    /// Half-life of mean reversion, bars.
    pub half_life_bars: Option<Num>,
    /// Classification.
    pub classification: RegimeClassification,
    /// Volatility compression.
    pub compression: Readout,
    /// Volatility expansion.
    pub expansion: Readout,
    /// Near over far realized vol, less one.
    pub term_structure_slope: Num,
}

/// States that the readouts had before.
#[derive(Debug, Clone, Copy, PartialEq, Eq, Structural)]
pub struct RegimePrevStates {
    /// Trend persistence.
    pub persistence: BinaryState,
    /// Compression.
    pub compression: BinaryState,
    /// Expansion.
    pub expansion: BinaryState,
    /// Confidence.
    pub confident: BinaryState,
}

impl RegimePrevStates {
    /// Nothing in force.
    #[verifier::allow_in_spec]
    pub fn cold() -> RegimePrevStates
        returns
            (RegimePrevStates {
                persistence: BinaryState::Inactive,
                compression: BinaryState::Inactive,
                expansion: BinaryState::Inactive,
                confident: BinaryState::Inactive,
            }),
    {
        RegimePrevStates {
            persistence: BinaryState::Inactive,
            compression: BinaryState::Inactive,
            expansion: BinaryState::Inactive,
            confident: BinaryState::Inactive,
        }
    }
}

impl Default for RegimePrevStates {
    fn default() -> (r: RegimePrevStates)
        ensures
            r == RegimePrevStates::cold(),
    {
        RegimePrevStates::cold()
    }
}

/// Positive and finite.
pub open spec fn usable(v: Num) -> bool {
    Num::of(ZERO).flt(v) && v.finite()
}

fn is_usable(v: Num) -> (r: bool)
    ensures
        r == usable(v),
{
    v > Num::of(ZERO) && v.is_finite()
}

/// The mean of some values; 0 of none.
pub open spec fn mean_or_zero(xs: Seq<Num>) -> Num {
    if xs.len() == 0 {
        Num::of(ZERO)
    } else {
        stats::mean_of(xs)
    }
}

fn mean(xs: &Vec<Num>) -> (r: Num)
    ensures
        r == mean_or_zero(xs@),
{
    if xs.len() == 0 {
        Num::of(ZERO)
    } else {
        stats::sample_mean(xs)
    }
}

/// Sample standard deviation; 0 of fewer than two.
pub open spec fn std_of(xs: Seq<Num>) -> Num {
    if xs.len() < 2 {
        Num::of(ZERO)
    } else {
        stats::variance_of(xs).fsqrt()
    }
}

fn sample_std(xs: &Vec<Num>) -> (r: Num)
    ensures
        r == std_of(xs@),
{
    if xs.len() < 2 {
        Num::of(ZERO)
    } else {
        stats::sample_variance(xs).sqrt()
    }
}

fn slice_of(v: &Vec<Num>, lo: usize, hi: usize) -> (r: Vec<Num>)
    requires
        lo <= hi <= v@.len(),
    ensures
        r@ == v@.subrange(lo as int, hi as int),
{
    let mut r: Vec<Num> = Vec::new();
    let mut i: usize = lo;
    while i < hi
        invariant
            lo <= i <= hi <= v@.len(),
            r@ == v@.subrange(lo as int, i as int),
        decreases hi - i,
    {
        r.push(v[i]);
        i = i + 1;
        proof {
            assert(r@ =~= v@.subrange(lo as int, i as int));
        }
    }
    r
}

/// The closes of some candles.
pub open spec fn closes_of(candles: Seq<Candle>) -> Seq<Num> {
    candles.map_values(|c: Candle| c.close)
}

/// The closes of some candles.
pub fn closes(candles: &Vec<Candle>) -> (r: Vec<Num>)
    ensures
        r@ == closes_of(candles@),
{
    let mut r: Vec<Num> = Vec::new();
    let mut i: usize = 0;
    while i < candles.len()
        invariant
            i <= candles@.len(),
            r@ == closes_of(candles@.take(i as int)),
        decreases candles@.len() - i,
    {
        r.push(candles[i].close);
        i = i + 1;
        proof {
            assert(r@ =~= closes_of(candles@.take(i as int)));
        }
    }
    proof {
        assert(candles@.take(i as int) =~= candles@);
    }
    r
}

/// The ratios of consecutive usable prices among the first `n`.
pub open spec fn ratios_of(prices: Seq<Num>, n: nat) -> Seq<Num>
    decreases n,
{
    if n <= 1 {
        Seq::empty()
    } else {
        let rest = ratios_of(prices, (n - 1) as nat);
        let (a, b) = (prices[n - 2], prices[n - 1]);
        if usable(a) && usable(b) {
            rest.push(b.fdiv(a))
        } else {
            rest
        }
    }
}

/// The ratios of consecutive usable prices: their logarithms are the log
/// returns.
pub fn return_ratios(prices: &Vec<Num>) -> (r: Vec<Num>)
    ensures
        r@ == ratios_of(prices@, prices@.len()),
{
    let mut r: Vec<Num> = Vec::new();
    if prices.len() == 0 {
        return r;
    }
    let mut i: usize = 1;
    while i < prices.len()
        invariant
            1 <= i <= prices@.len(),
            r@ == ratios_of(prices@, i as nat),
        decreases prices@.len() - i,
    {
        let (a, b) = (prices[i - 1], prices[i]);
        if is_usable(a) && is_usable(b) {
            r.push(b / a);
        }
        i = i + 1;
    }
    r
}

/// Deviations from `m` accumulated, with their least and greatest, over `n` values.
pub open spec fn excursion(chunk: Seq<Num>, m: Num, n: nat) -> (Num, Num, Num)
    decreases n,
{
    if n == 0 {
        (Num::of(ZERO), Num::of(INFINITY), Num::of(NEG_INFINITY))
    } else {
        let (cum, lo, hi) = excursion(chunk, m, (n - 1) as nat);
        let next = cum.fadd(chunk[n - 1].fsub(m));
        (next, lo.fmin(next), hi.fmax(next))
    }
}

/// Rescaled range of a chunk; none without spread.
pub open spec fn chunk_rs(chunk: Seq<Num>) -> Option<Num> {
    let (_, lo, hi) = excursion(chunk, mean_or_zero(chunk), chunk.len());
    let range = hi.fsub(lo);
    let s = std_of(chunk);
    if Num::of(HURST_STD_FLOOR).flt(s) && Num::of(ZERO).flt(range) {
        Some(range.fdiv(s))
    } else {
        None
    }
}

fn rescaled_range(chunk: &Vec<Num>) -> (r: Option<Num>)
    ensures
        r == chunk_rs(chunk@),
{
    let m = mean(chunk);
    let mut cum = Num::of(ZERO);
    let mut lo = Num::of(INFINITY);
    let mut hi = Num::of(NEG_INFINITY);
    let mut i: usize = 0;
    while i < chunk.len()
        invariant
            i <= chunk@.len(),
            (cum, lo, hi) == excursion(chunk@, m, i as nat),
        decreases chunk@.len() - i,
    {
        cum = cum + (chunk[i] - m);
        lo = lo.min(cum);
        hi = hi.max(cum);
        i = i + 1;
    }
    let range = hi - lo;
    let s = sample_std(chunk);
    if s > Num::of(HURST_STD_FLOOR) && range > Num::of(ZERO) {
        Some(range / s)
    } else {
        None
    }
}

/// Sum and number of the rescaled ranges of the whole chunks up to `end`.
pub open spec fn rs_sums(log_rets: Seq<Num>, w: int, end: int) -> (Num, nat)
    decreases end,
{
    if w <= 0 || end < w {
        (Num::of(ZERO), 0)
    } else {
        let (acc, count) = rs_sums(log_rets, w, end - w);
        match chunk_rs(log_rets.subrange(end - w, end)) {
            Some(v) => (acc.fadd(v), count + 1),
            None => (acc, count),
        }
    }
}

/// The end of the last whole chunk.
pub open spec fn chunks_end(n: int, w: int) -> int {
    n - n % w
}

/// Mean rescaled range of the chunks of length `w`.
pub open spec fn window_rs(log_rets: Seq<Num>, w: int) -> Option<Num> {
    let (acc, count) = rs_sums(log_rets, w, chunks_end(log_rets.len() as int, w));
    if count == 0 {
        None
    } else {
        Some(acc.fdiv(Num::whole(false, count)))
    }
}

fn window_rescaled_range(log_rets: &Vec<Num>, w: usize) -> (r: Option<Num>)
    requires
        0 < w <= log_rets@.len(),
    ensures
        r == window_rs(log_rets@, w as int),
{
    let n: usize = log_rets.len();
    let last: usize = n - n % w;
    proof {
        lemma_fundamental_div_mod(n as int, w as int);
        lemma_mod_multiples_basic((n / w) as int, w as int);
        lemma_mul_is_commutative((n / w) as int, w as int);
    }
    let mut acc = Num::of(ZERO);
    let mut count: u64 = 0;
    let mut end: usize = 0;
    while last - end >= w
        invariant
            0 < w <= n,
            n == log_rets@.len(),
            last == chunks_end(n as int, w as int),
            end <= last <= n,
            count <= end,
            (last - end) as int % w as int == 0,
            (acc, count as nat) == rs_sums(log_rets@, w as int, end as int),
        decreases last - end,
    {
        let chunk = slice_of(log_rets, end, end + w);
        if let Some(v) = rescaled_range(&chunk) {
            acc = acc + v;
            count = count + 1;
        }
        proof {
            lemma_mod_sub_multiples_vanish((last - end) as int, w as int);
        }
        end = end + w;
    }
    proof {
        lemma_small_mod((last - end) as nat, w as nat);
    }
    if count == 0 {
        None
    } else {
        Some(acc / Num::from_u64(count))
    }
}

/// The sum of the expected rescaled range over the first `i` terms.
pub open spec fn expected_sum(n: Num, i: nat) -> Num
    decreases i,
{
    if i == 0 {
        Num::of(ZERO)
    } else {
        let k = Num::whole(false, i);
        expected_sum(n, (i - 1) as nat).fadd(n.fsub(k).fdiv(k).fsqrt())
    }
}

/// Expected rescaled range of `n` independent values.
pub open spec fn expected_rs(n: nat) -> Num {
    let nf = Num::whole(false, n);
    let front = nf.fsub(Num::of(HALF)).fdiv(nf);
    let norm = Num::of(ONE).fdiv(nf.fmul(Num::of(FRAC_PI_2)).fsqrt());
    front.fmul(norm).fmul(expected_sum(nf, (n - 1) as nat))
}

fn expected_rescaled_range(n: u64) -> (r: Num)
    requires
        n > 0,
    ensures
        r == expected_rs(n as nat),
{
    let nf = Num::from_u64(n);
    let front = (nf - Num::of(HALF)) / nf;
    let norm = Num::of(ONE) / (nf * Num::of(FRAC_PI_2)).sqrt();
    let mut sum = Num::of(ZERO);
    let mut i: u64 = 1;
    while i < n
        invariant
            1 <= i <= n,
            nf == Num::whole(false, n as nat),
            sum == expected_sum(nf, (i - 1) as nat),
        decreases n - i,
    {
        let k = Num::from_u64(i);
        sum = sum + ((nf - k) / k).sqrt();
        i = i + 1;
    }
    front * norm * sum
}

/// A window with its observed and expected rescaled range, or their logarithms.
#[derive(Debug, Clone, Copy, PartialEq)]
pub struct HurstPoint {
    /// Window length.
    pub window: Num,
    /// Observed rescaled range.
    pub observed: Num,
    /// Expected rescaled range.
    pub expected: Num,
}

/// The window after `w` on the ladder.
pub open spec fn next_window(w: u64) -> int {
    let next = Num::whole(false, w as nat).fmul(Num::of(HURST_WINDOW_GROWTH)).ffloor().trunc_u64();
    if next > w {
        next as int
    } else {
        w + 1
    }
}

/// The points of the ladder from window `w` on.
pub open spec fn points_from(log_rets: Seq<Num>, w: int) -> Seq<HurstPoint>
    decreases
            (if w <= log_rets.len() {
                log_rets.len() - w + 1
            } else {
                0
            }),
{
    if 0 < w <= log_rets.len() / 2 && w <= u64::MAX {
        let rest = points_from(log_rets, next_window(w as u64));
        match window_rs(log_rets, w) {
            Some(observed) => {
                let expected = expected_rs(w as nat);
                if Num::of(ZERO).flt(observed) && Num::of(ZERO).flt(expected) {
                    seq![HurstPoint { window: Num::whole(false, w as nat), observed, expected }]
                        + rest
                } else {
                    rest
                }
            },
            None => rest,
        }
    } else {
        Seq::empty()
    }
}

/// The points of a series of log returns.
pub open spec fn hurst_points_of(log_rets: Seq<Num>) -> Seq<HurstPoint> {
    points_from(log_rets, HURST_BASE_WINDOW as int)
}

/// The windows of the ladder with their rescaled ranges: the machine takes the
/// logarithm of each.
pub fn hurst_points(log_rets: &Vec<Num>) -> (r: Vec<HurstPoint>)
    ensures
        r@ == hurst_points_of(log_rets@),
{
    let n: usize = log_rets.len();
    let max_window: u64 = (n / 2) as u64;
    let mut r: Vec<HurstPoint> = Vec::new();
    let mut w: u64 = HURST_BASE_WINDOW;
    proof {
        assert(r@ + points_from(log_rets@, w as int) =~= hurst_points_of(log_rets@));
    }
    while w <= max_window
        invariant
            n == log_rets@.len(),
            max_window == n / 2,
            w > 0,
            r@ + points_from(log_rets@, w as int) == hurst_points_of(log_rets@),
        decreases
                (if w <= max_window {
                    max_window - w + 1
                } else {
                    0
                }),
    {
        let ghost was = r@;
        let ghost rest = points_from(log_rets@, next_window(w));
        if let Some(observed) = window_rescaled_range(log_rets, w as usize) {
            let expected = expected_rescaled_range(w);
            if observed > Num::of(ZERO) && expected > Num::of(ZERO) {
                r.push(HurstPoint { window: Num::from_u64(w), observed, expected });
            }
        }
        proof {
            assert(r@ + rest =~= was + points_from(log_rets@, w as int));
        }
        let next: u64 = (Num::from_u64(w) * Num::of(HURST_WINDOW_GROWTH)).floor().to_u64();
        w = if next > w {
            next
        } else {
            w + 1
        };
    }
    proof {
        assert(points_from(log_rets@, w as int) =~= Seq::<HurstPoint>::empty());
        assert(r@ =~= r@ + points_from(log_rets@, w as int));
    }
    r
}

/// Sums of squares and products of the deviations of the first `n` pairs.
pub open spec fn ols_sums(xs: Seq<Num>, ys: Seq<Num>, xbar: Num, ybar: Num, n: nat) -> (Num, Num)
    decreases n,
{
    if n == 0 {
        (Num::of(ZERO), Num::of(ZERO))
    } else {
        let (sxx, sxy) = ols_sums(xs, ys, xbar, ybar, (n - 1) as nat);
        let dx = xs[n - 1].fsub(xbar);
        (sxx.fadd(dx.fmul(dx)), sxy.fadd(dx.fmul(ys[n - 1].fsub(ybar))))
    }
}

/// Least-squares slope; none of fewer than two points or without spread.
pub open spec fn slope_of_points(xs: Seq<Num>, ys: Seq<Num>) -> Option<Num> {
    let (sxx, sxy) = ols_sums(xs, ys, mean_or_zero(xs), mean_or_zero(ys), xs.len());
    if xs.len() >= 2 && Num::of(ZERO).flt(sxx) {
        Some(sxy.fdiv(sxx))
    } else {
        None
    }
}

fn ols_slope(xs: &Vec<Num>, ys: &Vec<Num>) -> (r: Option<Num>)
    requires
        xs@.len() == ys@.len(),
    ensures
        r == slope_of_points(xs@, ys@),
{
    if xs.len() < 2 {
        return None;
    }
    let xbar = mean(xs);
    let ybar = mean(ys);
    let mut sxx = Num::of(ZERO);
    let mut sxy = Num::of(ZERO);
    let mut i: usize = 0;
    while i < xs.len()
        invariant
            i <= xs@.len() == ys@.len(),
            (sxx, sxy) == ols_sums(xs@, ys@, xbar, ybar, i as nat),
        decreases xs@.len() - i,
    {
        let dx = xs[i] - xbar;
        sxx = sxx + dx * dx;
        sxy = sxy + dx * (ys[i] - ybar);
        i = i + 1;
    }
    if sxx > Num::of(ZERO) {
        Some(sxy / sxx)
    } else {
        None
    }
}

/// The abscissas of the slope fit.
pub open spec fn log_windows(logs: Seq<HurstPoint>) -> Seq<Num> {
    logs.map_values(|l: HurstPoint| l.window)
}

/// The ordinates of the slope fit: observed less expected.
pub open spec fn log_excess(logs: Seq<HurstPoint>) -> Seq<Num> {
    logs.map_values(|l: HurstPoint| l.observed.fsub(l.expected))
}

/// Hurst exponent of `n` log returns from the logarithms of its points.
pub open spec fn hurst_of(n: nat, logs: Seq<HurstPoint>) -> Num {
    if n < HURST_MIN_RETURNS || logs.len() < HURST_MIN_WINDOW_POINTS {
        Num::of(HURST_FALLBACK)
    } else {
        match slope_of_points(log_windows(logs), log_excess(logs)) {
            Some(slope) => Num::of(HURST_RANDOM_WALK).fadd(slope).fclamp(
                Num::of(ZERO),
                Num::of(ONE),
            ),
            None => Num::of(HURST_FALLBACK),
        }
    }
}

/// Hurst exponent by rescaled-range analysis; that of a random walk where the
/// series is too short.
///
/// `logs` holds the machine's logarithms of the parts of each of `hurst_points`.
pub fn hurst_exponent(log_rets: &Vec<Num>, logs: &Vec<HurstPoint>) -> (r: Num)
    requires
        logs@.len() == hurst_points_of(log_rets@).len(),
    ensures
        r == hurst_of(log_rets@.len(), logs@),
{
    if log_rets.len() < HURST_MIN_RETURNS || logs.len() < HURST_MIN_WINDOW_POINTS {
        return Num::of(HURST_FALLBACK);
    }
    let mut xs: Vec<Num> = Vec::new();
    let mut ys: Vec<Num> = Vec::new();
    let mut i: usize = 0;
    while i < logs.len()
        invariant
            i <= logs@.len(),
            xs@ == log_windows(logs@.take(i as int)),
            ys@ == log_excess(logs@.take(i as int)),
        decreases logs@.len() - i,
    {
        xs.push(logs[i].window);
        ys.push(logs[i].observed - logs[i].expected);
        i = i + 1;
        proof {
            assert(xs@ =~= log_windows(logs@.take(i as int)));
            assert(ys@ =~= log_excess(logs@.take(i as int)));
        }
    }
    proof {
        assert(logs@.take(i as int) =~= logs@);
    }
    match ols_slope(&xs, &ys) {
        Some(slope) => (Num::of(HURST_RANDOM_WALK) + slope).clamp(Num::of(ZERO), Num::of(ONE)),
        None => Num::of(HURST_FALLBACK),
    }
}

/// A Hurst exponent that is a number lies between 0 and 1.
pub proof fn law_hurst_bounded(n: nat, logs: Seq<HurstPoint>)
    requires
        !hurst_of(n, logs).nan(),
    ensures
        Num::of(ZERO).fle(hurst_of(n, logs)),
        hurst_of(n, logs).fle(Num::of(ONE)),
{
}

/// The usable prices of a series.
pub open spec fn usable_prices(series: Seq<Num>) -> Seq<Num>
    decreases series.len(),
{
    if series.len() == 0 {
        Seq::empty()
    } else {
        let rest = usable_prices(series.drop_last());
        if usable(series.last()) {
            rest.push(series.last())
        } else {
            rest
        }
    }
}

/// Window of the trailing mean over `len` prices.
pub open spec fn mean_window(len: nat) -> nat {
    if len <= OU_MEAN_WINDOW {
        (len - 1) as nat
    } else {
        OU_MEAN_WINDOW as nat
    }
}

/// Trailing mean at `t`.
pub open spec fn trailing_mean(px: Seq<Num>, w: nat, t: int) -> Num {
    mean_or_zero(
        px.subrange(
            if t + 1 < w {
                0
            } else {
                t + 1 - w
            },
            t + 1,
        ),
    )
}

/// Deviations of each price but the last from its trailing mean.
pub open spec fn deviations(px: Seq<Num>) -> Seq<Num> {
    Seq::new(
        (px.len() - 1) as nat,
        |t: int| px[t].fsub(trailing_mean(px, mean_window(px.len()), t)),
    )
}

/// Changes of the price.
pub open spec fn changes(px: Seq<Num>) -> Seq<Num> {
    Seq::new((px.len() - 1) as nat, |t: int| px[t + 1].fsub(px[t]))
}

/// The autoregressive coefficient of a mean-reverting series.
pub open spec fn phi_of(series: Seq<Num>) -> Option<Num> {
    let px = usable_prices(series);
    if px.len() < OU_MIN_POINTS {
        None
    } else {
        match slope_of_points(deviations(px), changes(px)) {
            None => None,
            Some(b) => {
                let phi = Num::of(ONE).fadd(b);
                if Num::of(NEG_OU_B_THRESHOLD).fle(b) || phi.fle(Num::of(ZERO)) || Num::of(ONE).fle(
                    phi,
                ) {
                    None
                } else {
                    Some(phi)
                }
            },
        }
    }
}

/// The autoregressive coefficient of a mean-reverting series: the machine takes
/// its logarithm.  None where the series is too short, does not revert or
/// overshoots.
pub fn ou_phi(series: &Vec<Num>) -> (r: Option<Num>)
    ensures
        r == phi_of(series@),
{
    let mut px: Vec<Num> = Vec::new();
    let mut i: usize = 0;
    proof {
        assert(series@.take(0) =~= Seq::<Num>::empty());
    }
    while i < series.len()
        invariant
            i <= series@.len(),
            px@ == usable_prices(series@.take(i as int)),
        decreases series@.len() - i,
    {
        proof {
            assert(series@.take(i + 1).drop_last() =~= series@.take(i as int));
        }
        if is_usable(series[i]) {
            px.push(series[i]);
        }
        i = i + 1;
    }
    proof {
        assert(series@.take(i as int) =~= series@);
    }
    let len: usize = px.len();
    if len < OU_MIN_POINTS {
        return None;
    }
    let w: usize = if len <= OU_MEAN_WINDOW {
        len - 1
    } else {
        OU_MEAN_WINDOW
    };
    let mut dev: Vec<Num> = Vec::new();
    let mut dxs: Vec<Num> = Vec::new();
    let mut t: usize = 0;
    while t < len - 1
        invariant
            OU_MIN_POINTS <= len == px@.len(),
            w == mean_window(len as nat),
            t <= len - 1,
            dev@ == Seq::new(
                t as nat,
                |t: int| px@[t].fsub(trailing_mean(px@, mean_window(px@.len()), t)),
            ),
            dxs@ == Seq::new(t as nat, |t: int| px@[t + 1].fsub(px@[t])),
        decreases len - 1 - t,
    {
        let start: usize = if t + 1 < w {
            0
        } else {
            t + 1 - w
        };
        let window = slice_of(&px, start, t + 1);
        dev.push(px[t] - mean(&window));
        dxs.push(px[t + 1] - px[t]);
        t = t + 1;
    }
    proof {
        assert(dev@ =~= deviations(px@));
        assert(dxs@ =~= changes(px@));
    }
    let b = match ols_slope(&dev, &dxs) {
        Some(b) => b,
        None => return None,
    };
    if b >= Num::of(NEG_OU_B_THRESHOLD) {
        return None;
    }
    let phi = Num::of(ONE) + b;
    if phi <= Num::of(ZERO) || phi >= Num::of(ONE) {
        return None;
    }
    Some(phi)
}

/// Half-life of a series, from the logarithm of its coefficient.
pub open spec fn half_life_of(series: Seq<Num>, ln_phi: Num) -> Option<Num> {
    let h = Num::of(NEG_LN_2).fdiv(ln_phi);
    if phi_of(series) is Some && usable(h) {
        Some(h)
    } else {
        None
    }
}

/// Half-life of mean reversion in bars; none where there is no smooth one.
///
/// `ln_phi` is the machine's logarithm at `ou_phi`.
pub fn ou_half_life(series: &Vec<Num>, ln_phi: Num) -> (r: Option<Num>)
    ensures
        r == half_life_of(series@, ln_phi),
{
    if ou_phi(series).is_none() {
        return None;
    }
    let h = Num::of(NEG_LN_2) / ln_phi;
    if is_usable(h) {
        Some(h)
    } else {
        None
    }
}

/// A half-life is positive and finite, and only a reverting series has one.
pub proof fn law_half_life_is_sound(series: Seq<Num>, ln_phi: Num)
    ensures
        half_life_of(series, ln_phi) matches Some(h) ==> usable(h) && phi_of(series) is Some,
        phi_of(series) matches Some(phi) ==> Num::of(ZERO).flt(phi) && phi.flt(Num::of(ONE))
            || phi.nan(),
{
}

/// Start of the recent window of `n` log returns.
pub open spec fn recent_start(n: nat) -> nat {
    if n < REGIME_RECENT_WINDOW {
        0
    } else {
        (n - REGIME_RECENT_WINDOW) as nat
    }
}

/// Fourth powers of the standardized values.
pub open spec fn fourth_powers(xs: Seq<Num>, m: Num, vol: Num) -> Seq<Num> {
    xs.map_values(
        |r: Num|
            {
                let z = r.fsub(m).fdiv(vol);
                z.fmul(z).fmul(z).fmul(z)
            },
    )
}

/// Kurtosis of some returns; that of a normal distribution without vol.
pub open spec fn kurtosis_of(xs: Seq<Num>) -> Num {
    let vol = std_of(xs);
    if Num::of(ZERO).flt(vol) {
        sums::sum(fourth_powers(xs, mean_or_zero(xs), vol)).fdiv(Num::whole(false, xs.len()))
    } else {
        Num::of(GAUSSIAN_KURTOSIS)
    }
}

/// Baseline vol: over the returns before the recent ones, else over all.
pub open spec fn baseline_of(log_rets: Seq<Num>) -> Num {
    let base = log_rets.take(recent_start(log_rets.len()) as int);
    if base.len() >= 2 && Num::of(ZERO).flt(std_of(base)) {
        std_of(base)
    } else if Num::of(ZERO).flt(std_of(log_rets)) {
        std_of(log_rets)
    } else {
        Num::of(VOL_RATIO_NEUTRAL)
    }
}

/// Energies of the three regimes.
pub open spec fn energies_of(log_rets: Seq<Num>, hurst: Num) -> (Num, Num, Num) {
    let zero = Num::of(ZERO);
    let recent = log_rets.skip(recent_start(log_rets.len()) as int);
    let vol_ratio = if zero.flt(baseline_of(log_rets)) {
        std_of(recent).fdiv(baseline_of(log_rets))
    } else {
        Num::of(VOL_RATIO_NEUTRAL)
    };
    let walk = Num::of(HURST_RANDOM_WALK);
    let neutral = Num::of(VOL_RATIO_NEUTRAL);
    (
        hurst.fsub(walk).fmul(Num::of(REGIME_HURST_GAIN)).fmax(zero).fadd(
            vol_ratio.fsub(neutral).fmul(Num::of(REGIME_TREND_VOL_GAIN)).fmax(zero),
        ),
        walk.fsub(hurst).fmul(Num::of(REGIME_HURST_GAIN)).fmax(zero).fadd(
            neutral.fsub(vol_ratio).fmul(Num::of(REGIME_REVERT_VOL_GAIN)).fmax(zero),
        ).fadd(Num::of(REGIME_REVERT_PRIOR)),
        kurtosis_of(recent).fsub(Num::of(REGIME_KURT_THRESHOLD)).fmul(
            Num::of(REGIME_TAIL_KURT_GAIN),
        ).fmax(zero).fadd(
            vol_ratio.fsub(Num::of(REGIME_TAIL_VOL_THRESHOLD)).fmul(
                Num::of(REGIME_TAIL_VOL_GAIN),
            ).fmax(zero),
        ),
    )
}

fn energies(log_rets: &Vec<Num>, hurst: Num) -> (r: (Num, Num, Num))
    ensures
        r == energies_of(log_rets@, hurst),
{
    let zero = Num::of(ZERO);
    let n: usize = log_rets.len();
    let start: usize = if n < REGIME_RECENT_WINDOW {
        0
    } else {
        n - REGIME_RECENT_WINDOW
    };
    let recent = slice_of(log_rets, start, n);
    let base = slice_of(log_rets, 0, start);
    proof {
        assert(recent@ =~= log_rets@.skip(start as int));
        assert(base@ =~= log_rets@.take(start as int));
    }
    let vol = sample_std(&recent);
    let m = mean(&recent);
    let kurt = if vol > zero {
        let mut powers: Vec<Num> = Vec::new();
        let mut i: usize = 0;
        while i < recent.len()
            invariant
                i <= recent@.len(),
                powers@ == fourth_powers(recent@.take(i as int), m, vol),
            decreases recent@.len() - i,
        {
            let z = (recent[i] - m) / vol;
            powers.push(z * z * z * z);
            i = i + 1;
            proof {
                assert(powers@ =~= fourth_powers(recent@.take(i as int), m, vol));
            }
        }
        proof {
            assert(recent@.take(i as int) =~= recent@);
        }
        sums::total(&powers) / Num::from_u64(recent.len() as u64)
    } else {
        Num::of(GAUSSIAN_KURTOSIS)
    };
    let s = sample_std(&base);
    let baseline = if base.len() >= 2 && s > zero {
        s
    } else {
        let full = sample_std(log_rets);
        if full > zero {
            full
        } else {
            Num::of(VOL_RATIO_NEUTRAL)
        }
    };
    let vol_ratio = if baseline > zero {
        vol / baseline
    } else {
        Num::of(VOL_RATIO_NEUTRAL)
    };
    let walk = Num::of(HURST_RANDOM_WALK);
    let neutral = Num::of(VOL_RATIO_NEUTRAL);
    let trend = ((hurst - walk) * Num::of(REGIME_HURST_GAIN)).max(zero) + ((vol_ratio - neutral)
        * Num::of(REGIME_TREND_VOL_GAIN)).max(zero);
    let revert = ((walk - hurst) * Num::of(REGIME_HURST_GAIN)).max(zero) + ((neutral - vol_ratio)
        * Num::of(REGIME_REVERT_VOL_GAIN)).max(zero) + Num::of(REGIME_REVERT_PRIOR);
    let tail = ((kurt - Num::of(REGIME_KURT_THRESHOLD)) * Num::of(REGIME_TAIL_KURT_GAIN)).max(zero)
        + ((vol_ratio - Num::of(REGIME_TAIL_VOL_THRESHOLD)) * Num::of(REGIME_TAIL_VOL_GAIN)).max(
        zero,
    );
    (trend, revert, tail)
}

/// Energies less the greatest of them.
pub open spec fn exponents_of(e: (Num, Num, Num)) -> (Num, Num, Num) {
    let max = Num::of(NEG_INFINITY).fmax(e.0).fmax(e.1).fmax(e.2);
    (e.0.fsub(max), e.1.fsub(max), e.2.fsub(max))
}

/// An energy less the greatest.
proof fn lemma_gap(e: Num, max: Num)
    requires
        e.finite() && exact::rabs(e.exact()) <= 0x100_0000_0000int as real,
        max.finite() && exact::rabs(max.exact()) <= 0x100_0000_0000int as real,
        e.exact() <= max.exact(),
    ensures
        ({
            let (x, gap) = (e.fsub(max), max.exact() - e.exact());
            &&& x.finite()
            &&& exact::rabs(x.exact() + gap) <= exact::eps() * gap
            &&& x.exact() <= 0real
        }),
{
    let t = 0x100_0000_0000int as real;
    lemma2_to64_rest();
    lemma_pow2_strictly_increases(53, 400);
    exact::lemma_units_positive();
    closeness::lemma_close_self(e, t);
    closeness::lemma_close_self(max, t);
    closeness::lemma_sum(e, e.exact(), max, max.exact(), 0real, t, t);
    exact::lemma_exact_neg(max);
    exact::lemma_exact_add(e, max.fneg());
    exact::lemma_times(exact::eps(), 1real, max.exact() - e.exact());
}

/// Each exponent is how far its energy lies below the greatest, relatively to a
/// rounding: none is above zero, and that of the greatest energy is zero.
pub proof fn law_exponents_are_the_gaps(e: (Num, Num, Num))
    requires
        e.0.finite() && exact::rabs(e.0.exact()) <= 0x100_0000_0000int as real,
        e.1.finite() && exact::rabs(e.1.exact()) <= 0x100_0000_0000int as real,
        e.2.finite() && exact::rabs(e.2.exact()) <= 0x100_0000_0000int as real,
    ensures
        ({
            let x = exponents_of(e);
            let (a, b, c) = (e.0.exact(), e.1.exact(), e.2.exact());
            let top = if a >= b && a >= c {
                a
            } else if b >= c {
                b
            } else {
                c
            };
            &&& x.0.finite() && x.0.exact() <= 0real
            &&& x.1.finite() && x.1.exact() <= 0real
            &&& x.2.finite() && x.2.exact() <= 0real
            &&& exact::rabs(x.0.exact() - (a - top)) <= exact::eps() * (top - a)
            &&& exact::rabs(x.1.exact() - (b - top)) <= exact::eps() * (top - b)
            &&& exact::rabs(x.2.exact() - (c - top)) <= exact::eps() * (top - c)
        }),
{
    let first = Num::of(NEG_INFINITY).fmax(e.0);
    assert(first == e.0);
    let second = first.fmax(e.1);
    let max = second.fmax(e.2);
    exact::lemma_exact_order(e.0, e.1);
    exact::lemma_exact_order(second, e.2);
    lemma_gap(e.0, max);
    lemma_gap(e.1, max);
    lemma_gap(e.2, max);
}

/// The exponents of the classifier: energies less the greatest; none below the
/// least number of log returns.
pub fn regime_exponents(log_rets: &Vec<Num>, hurst: Num) -> (r: Option<(Num, Num, Num)>)
    ensures
        r == (if log_rets@.len() < REGIME_MIN_RETURNS {
            None
        } else {
            Some(exponents_of(energies_of(log_rets@, hurst)))
        }),
{
    if log_rets.len() < REGIME_MIN_RETURNS {
        return None;
    }
    let (a, b, c) = energies(log_rets, hurst);
    let max = Num::of(NEG_INFINITY).max(a).max(b).max(c);
    Some((a - max, b - max, c - max))
}

/// The flat prior.
pub open spec fn flat_prior() -> RegimeProbabilities {
    RegimeProbabilities {
        trend_expansion: Num::of(REGIME_FLAT_TREND),
        mean_reversion: Num::of(REGIME_FLAT_REVERT),
        tail_risk: Num::of(REGIME_FLAT_TAIL),
    }
}

impl RegimeProbabilities {
    /// The shares of three exponentials; the flat prior where they do not add up.
    pub open spec fn of_exps(e: (Num, Num, Num)) -> RegimeProbabilities {
        let sum = e.0.fadd(e.1).fadd(e.2);
        if usable(sum) {
            RegimeProbabilities {
                trend_expansion: e.0.fdiv(sum),
                mean_reversion: e.1.fdiv(sum),
                tail_risk: e.2.fdiv(sum),
            }
        } else {
            flat_prior()
        }
    }

    /// The most likely regime and its posterior; of equals the first.
    pub open spec fn best(self) -> (RegimeLabel, Num) {
        let (l, p) = if self.trend_expansion.flt(self.mean_reversion) {
            (RegimeLabel::MeanReversion, self.mean_reversion)
        } else {
            (RegimeLabel::TrendExpansion, self.trend_expansion)
        };
        if p.flt(self.tail_risk) {
            (RegimeLabel::TailRisk, self.tail_risk)
        } else {
            (l, p)
        }
    }
}

/// Each probability lies between 0 and 1.
pub proof fn law_probabilities_bounded(e: (Num, Num, Num))
    requires
        !e.0.nan() && !e.0.negative(),
        !e.1.nan() && !e.1.negative(),
        !e.2.nan() && !e.2.negative(),
    ensures
        ({
            let p = RegimeProbabilities::of_exps(e);
            let (zero, one) = (Num::of(ZERO), Num::of(ONE));
            &&& zero.fle(p.trend_expansion) && p.trend_expansion.fle(one)
            &&& zero.fle(p.mean_reversion) && p.mean_reversion.fle(one)
            &&& zero.fle(p.tail_risk) && p.tail_risk.fle(one)
        }),
{
    let sum = e.0.fadd(e.1).fadd(e.2);
    if usable(sum) {
        algebra::lemma_add_not_negative(e.0, e.1);
        algebra::lemma_add_not_negative(e.0.fadd(e.1), e.2);
        algebra::law_div_antitone(e.0, sum, sum);
        algebra::law_div_antitone(e.1, sum, sum);
        algebra::law_div_antitone(e.2, sum, sum);
        algebra::law_div_monotone(e.0, sum, sum);
        algebra::law_div_monotone(e.1, sum, sum);
        algebra::law_div_monotone(e.2, sum, sum);
        algebra::law_div_self(sum);
    }
}

/// The probabilities of the three regimes add up to one, up to 2^-49.
pub proof fn law_probabilities_add_up(e: (Num, Num, Num))
    requires
        e.0.finite() && !e.0.negative(),
        e.1.finite() && !e.1.negative(),
        e.2.finite() && !e.2.negative(),
    ensures
        ({
            let p = RegimeProbabilities::of_exps(e);
            let total = p.trend_expansion.exact() + p.mean_reversion.exact() + p.tail_risk.exact();
            exact::rabs(total - 1real) <= 16real * exact::eps()
        }),
{
    if usable(e.0.fadd(e.1).fadd(e.2)) {
        lemma_shares_add_up(e);
    } else {
        lemma_flat_prior_adds_up();
    }
}

/// The shares of three exponentials add up to one.
proof fn lemma_shares_add_up(e: (Num, Num, Num))
    requires
        e.0.finite() && !e.0.negative(),
        e.1.finite() && !e.1.negative(),
        e.2.finite() && !e.2.negative(),
        usable(e.0.fadd(e.1).fadd(e.2)),
    ensures
        ({
            let p = RegimeProbabilities::of_exps(e);
            let total = p.trend_expansion.exact() + p.mean_reversion.exact() + p.tail_risk.exact();
            exact::rabs(total - 1real) <= 16real * exact::eps()
        }),
{
    let (zero, pair) = (Num::of(ZERO), e.0.fadd(e.1));
    let sum = pair.fadd(e.2);
    let (a, b, c) = (e.0.exact(), e.1.exact(), e.2.exact());
    exact::lemma_exact_zero(zero);
    exact::lemma_exact_order(zero, e.0);
    exact::lemma_exact_order(zero, e.1);
    exact::lemma_exact_order(zero, e.2);
    exact::lemma_exact_order(zero, sum);
    algebra::lemma_add_not_negative(e.0, e.1);
    algebra::lemma_add_not_negative(pair, e.2);
    exact::lemma_exact_order(zero, pair);
    exact::lemma_near_add(e.0, e.1);
    exact::lemma_near_add(pair, e.2);
    exact::lemma_near_self(c);
    exact::lemma_near_more(c, c, 0real, 1real);
    exact::lemma_near_sum(pair.exact(), a + b, c, c, 1real);
    let (s, t) = (sum.exact(), a + b + c);
    exact::lemma_near_step(s, pair.exact() + c, t, 1real, 1real);
    exact::lemma_still_positive(s, t, 3real);
    exact::lemma_near_self(t);
    exact::lemma_near_quotient(t, t, s, t, 0real, 3real);
    exact::lemma_quotient_is(1real, t, t);
    law_probabilities_bounded(e);
    exact::lemma_share(e.0, sum);
    exact::lemma_share(e.1, sum);
    exact::lemma_share(e.2, sum);
    let (x, y, z) = (a / s, b / s, c / s);
    exact::lemma_over(a, s);
    exact::lemma_over(b, s);
    exact::lemma_over(c, s);
    assert((x + y + z) * s == t) by (nonlinear_arith)
        requires
            x * s == a,
            y * s == b,
            z * s == c,
            t == a + b + c,
    ;
    exact::lemma_quotient_is(x + y + z, t, s);
    assert(exact::near(x + y + z, 1real, 5real));
    assert(1real * (1real + 5real * exact::eps()) == 1real + 5real * exact::eps());
    assert(1real * (1real - 5real * exact::eps()) == 1real - 5real * exact::eps());
    exact::lemma_times(x + y + z, 2real, exact::eps());
    assert(exact::eps() * (x + y + z) == exact::eps() * x + exact::eps() * y + exact::eps() * z)
        by (nonlinear_arith);
}

/// The flat prior adds up to one.
proof fn lemma_flat_prior_adds_up()
    ensures
        ({
            let p = flat_prior();
            let total = p.trend_expansion.exact() + p.mean_reversion.exact() + p.tail_risk.exact();
            exact::rabs(total - 1real) <= exact::eps()
        }),
{
    reveal(Num::exact);
    lemma2_to64();
    lemma2_to64_rest();
    lemma_pow2_adds(54, 1020);
    lemma_pow2_unfold(54);
    lemma_pow2_pos(1020);
    exact::lemma_units_positive();
    let (a, b) = (Num::of(REGIME_FLAT_TREND), Num::of(REGIME_FLAT_REVERT));
    assert(a.scale() == 1020 && b.scale() == 1020);
    let p = pow2(1020);
    let (m, n) = (0x15_1EB8_51EB_851Fint, 0x15_C28F_5C28_F5C3int);
    assert(a.significand() == m && b.significand() == n);
    exact::lemma_real_mul(m, p as int);
    exact::lemma_real_mul(n, p as int);
    exact::lemma_real_mul(pow2(54) as int, p as int);
    let (x, u) = (p as int as real, exact::one_units());
    let (mm, nn, d) = (m as real, n as real, pow2(54) as int as real);
    assert(d == 0x40_0000_0000_0000int as real);
    assert((mm / d) * u == mm * x && (nn / d) * u == nn * x) by (nonlinear_arith)
        requires
            u == d * x,
            d >= 1real,
    {
        assert((mm / d) * (d * x) == ((mm / d) * d) * x);
        assert((nn / d) * (d * x) == ((nn / d) * d) * x);
    }
    exact::lemma_quotient_is(mm / d, mm * x, u);
    exact::lemma_quotient_is(nn / d, nn * x, u);
}


/// No regime is more likely than the one that the label names.
pub proof fn law_label_is_most_likely(p: RegimeProbabilities)
    requires
        !p.trend_expansion.nan(),
        !p.mean_reversion.nan(),
        !p.tail_risk.nan(),
    ensures
        p.trend_expansion.fle(p.best().1),
        p.mean_reversion.fle(p.best().1),
        p.tail_risk.fle(p.best().1),
{
}

impl RegimeClassification {
    /// The classification of some posteriors.
    pub open spec fn of_probabilities(p: RegimeProbabilities, prev: BinaryState) -> RegimeClassification {
        RegimeClassification {
            probabilities: p,
            label: p.best().0,
            confident: Readout::resolved_from(confident_band(), p.best().1, prev),
        }
    }

    /// The classification of `n` log returns from the exponentials.
    pub open spec fn of_exps(n: nat, e: (Num, Num, Num), prev: BinaryState) -> RegimeClassification {
        if n < REGIME_MIN_RETURNS {
            RegimeClassification {
                probabilities: flat_prior(),
                label: RegimeLabel::MeanReversion,
                confident: Readout::resolved_from(
                    confident_band(),
                    Num::of(REGIME_FLAT_REVERT),
                    prev,
                ),
            }
        } else {
            RegimeClassification::of_probabilities(RegimeProbabilities::of_exps(e), prev)
        }
    }
}

/// Classifies the regime of some log returns.
///
/// `exps` holds the machine's exponentials at `regime_exponents`, anything
/// where there are none.
pub fn classify_regime(log_rets: &Vec<Num>, exps: (Num, Num, Num)) -> (r: RegimeClassification)
    ensures
        r == RegimeClassification::of_exps(log_rets@.len(), exps, BinaryState::Inactive),
{
    classify_regime_from(log_rets, exps, BinaryState::Inactive)
}

/// Classifies the regime of some log returns, given whether the classification
/// was confident before.
pub fn classify_regime_from(
    log_rets: &Vec<Num>,
    exps: (Num, Num, Num),
    previous: BinaryState,
) -> (r: RegimeClassification)
    ensures
        r == RegimeClassification::of_exps(log_rets@.len(), exps, previous),
{
    let flat = RegimeProbabilities {
        trend_expansion: Num::of(REGIME_FLAT_TREND),
        mean_reversion: Num::of(REGIME_FLAT_REVERT),
        tail_risk: Num::of(REGIME_FLAT_TAIL),
    };
    if log_rets.len() < REGIME_MIN_RETURNS {
        return RegimeClassification {
            probabilities: flat,
            label: RegimeLabel::MeanReversion,
            confident: Readout::resolve_from(
                &confident_band(),
                Num::of(REGIME_FLAT_REVERT),
                previous,
            ),
        };
    }
    let sum = exps.0 + exps.1 + exps.2;
    let p = if is_usable(sum) {
        RegimeProbabilities {
            trend_expansion: exps.0 / sum,
            mean_reversion: exps.1 / sum,
            tail_risk: exps.2 / sum,
        }
    } else {
        flat
    };
    let (label, posterior) = if p.mean_reversion > p.trend_expansion {
        (RegimeLabel::MeanReversion, p.mean_reversion)
    } else {
        (RegimeLabel::TrendExpansion, p.trend_expansion)
    };
    let (label, posterior) = if p.tail_risk > posterior {
        (RegimeLabel::TailRisk, p.tail_risk)
    } else {
        (label, posterior)
    };
    RegimeClassification {
        probabilities: p,
        label,
        confident: Readout::resolve_from(&confident_band(), posterior, previous),
    }
}

/// Relative bandwidth of a window of closes.
pub open spec fn bandwidth(w: Seq<Num>) -> Num {
    let m = mean_or_zero(w);
    let var = sums::sum(stats::squared_deviations(w, m)).fdiv(Num::whole(false, w.len()));
    if Num::of(ZERO).flt(m) {
        Num::of(BB_WIDTH_MULT).fmul(var.fsqrt()).fdiv(m)
    } else {
        Num::of(ZERO)
    }
}

/// Period of the band over `n` closes.
pub open spec fn band_period(n: nat) -> nat {
    if n < BB_PERIOD {
        n
    } else {
        BB_PERIOD as nat
    }
}

/// The bandwidths of all windows of closes.
pub open spec fn bandwidths(c: Seq<Num>) -> Seq<Num> {
    let period = band_period(c.len());
    if period < 2 {
        Seq::empty()
    } else {
        Seq::new((c.len() - period + 1) as nat, |i: int| bandwidth(c.subrange(i, i + period)))
    }
}

/// How many values lie below a level.
pub open spec fn count_below(s: Seq<Num>, level: Num) -> nat
    decreases s.len(),
{
    if s.len() == 0 {
        0
    } else {
        count_below(s.drop_last(), level) + if s.last().flt(level) {
            1nat
        } else {
            0
        }
    }
}

/// The last values of a series within a lookback.
pub open spec fn lookback_of(series: Seq<Num>, window: nat) -> Seq<Num> {
    if series.len() < window {
        series
    } else {
        series.skip(series.len() - window)
    }
}

/// Share of the other values of a lookback below the last one.
pub open spec fn rank_in(series: Seq<Num>, window: nat) -> Num {
    let s = lookback_of(series, window);
    if s.len() <= 1 {
        Num::of(NEUTRAL_PERCENTILE)
    } else {
        Num::whole(false, count_below(s, s.last())).fdiv(Num::whole(false, (s.len() - 1) as nat))
    }
}

/// Bandwidth percentile of some closes.
pub open spec fn bandwidth_rank(c: Seq<Num>) -> Num {
    if c.len() < VOL_ENGINE_MIN_CANDLES || bandwidths(c).len() < 2 {
        Num::of(NEUTRAL_PERCENTILE)
    } else {
        rank_in(bandwidths(c), VOL_ENGINE_LOOKBACK as nat)
    }
}

fn percentile_rank(series: &Vec<Num>) -> (r: Num)
    ensures
        r == rank_in(series@, VOL_ENGINE_LOOKBACK as nat),
{
    let n: usize = series.len();
    let start: usize = if n < VOL_ENGINE_LOOKBACK {
        0
    } else {
        n - VOL_ENGINE_LOOKBACK
    };
    let s = slice_of(series, start, n);
    proof {
        assert(s@ =~= lookback_of(series@, VOL_ENGINE_LOOKBACK as nat));
    }
    let len: usize = s.len();
    if len <= 1 {
        return Num::of(NEUTRAL_PERCENTILE);
    }
    let current = s[len - 1];
    let mut below: u64 = 0;
    let mut i: usize = 0;
    proof {
        assert(s@.take(0) =~= Seq::<Num>::empty());
    }
    while i < len
        invariant
            i <= len == s@.len(),
            below <= i,
            below == count_below(s@.take(i as int), current),
        decreases len - i,
    {
        proof {
            assert(s@.take(i + 1).drop_last() =~= s@.take(i as int));
        }
        if s[i] < current {
            below = below + 1;
        }
        i = i + 1;
    }
    proof {
        assert(s@.take(i as int) =~= s@);
    }
    Num::from_u64(below) / Num::from_u64((len - 1) as u64)
}

fn bandwidth_percentile(c: &Vec<Num>) -> (r: Num)
    ensures
        r == bandwidth_rank(c@),
{
    let n: usize = c.len();
    if n < VOL_ENGINE_MIN_CANDLES {
        return Num::of(NEUTRAL_PERCENTILE);
    }
    let period: usize = if n < BB_PERIOD {
        n
    } else {
        BB_PERIOD
    };
    let mut series: Vec<Num> = Vec::new();
    let mut i: usize = 0;
    while i <= n - period
        invariant
            n == c@.len(),
            period == band_period(n as nat),
            2 <= period <= n,
            i <= n - period + 1,
            series@ == Seq::new(i as nat, |i: int| bandwidth(c@.subrange(i, i + period))),
        decreases n - period + 1 - i,
    {
        let w = slice_of(c, i, i + period);
        let m = mean(&w);
        let var = stats::squared_deviation_sum(&w, m) / Num::from_u64(w.len() as u64);
        let sd = var.sqrt();
        series.push(
            if m > Num::of(ZERO) {
                Num::of(BB_WIDTH_MULT) * sd / m
            } else {
                Num::of(ZERO)
            },
        );
        i = i + 1;
    }
    proof {
        assert(series@ =~= bandwidths(c@));
    }
    if series.len() < 2 {
        return Num::of(NEUTRAL_PERCENTILE);
    }
    percentile_rank(&series)
}

proof fn lemma_count_below(s: Seq<Num>, level: Num)
    ensures
        count_below(s, level) <= s.len(),
    decreases s.len(),
{
    if s.len() > 0 {
        lemma_count_below(s.drop_last(), level);
    }
}

/// A percentile lies between 0 and 1: the last value is not below itself.
pub proof fn law_percentile_bounded(c: Seq<Num>)
    ensures
        Num::of(ZERO).fle(bandwidth_rank(c)),
        bandwidth_rank(c).fle(Num::of(ONE)),
{
    lemma2_to64_rest();
    let s = lookback_of(bandwidths(c), VOL_ENGINE_LOOKBACK as nat);
    if s.len() > 1 {
        lemma_count_below(s.drop_last(), s.last());
        assert(count_below(s, s.last()) <= s.len() - 1);
        algebra::lemma_fraction(count_below(s, s.last()), (s.len() - 1) as nat);
    }
}

/// Close-to-close vol of the last `window` returns; none without enough sane
/// candles.
pub open spec fn tail_vol(candles: Seq<Candle>, bars: Seq<BarRatios>, window: nat) -> Option<Num> {
    let from = candles.len() - (window + 1);
    if candles.len() < window + 1 || realized_vol::series_problem(
        candles.skip(from),
        MIN_BARS_RETURNS,
    ) is Some {
        None
    } else {
        Some(realized_vol::close_to_close_of(bars.skip(from), Num::of(ONE)))
    }
}

/// Slope of the realized-vol term structure; 0 where it cannot be measured.
pub open spec fn term_slope(candles: Seq<Candle>, bars: Seq<BarRatios>) -> Num {
    match (
        tail_vol(candles, bars, RV_NEAR_WINDOW as nat),
        tail_vol(candles, bars, RV_FAR_WINDOW as nat),
    ) {
        (Some(near), Some(far)) => if Num::of(ZERO).flt(far) {
            near.fdiv(far).fsub(Num::of(ONE))
        } else {
            Num::of(ZERO)
        },
        _ => Num::of(ZERO),
    }
}

fn tail_c2c(candles: &Vec<Candle>, bars: &Vec<BarRatios>, window: usize) -> (r: Option<Num>)
    requires
        bars@.len() == candles@.len(),
        window < 1000,
    ensures
        r == tail_vol(candles@, bars@, window as nat),
{
    let need: usize = window + 1;
    let n: usize = candles.len();
    if n < need {
        return None;
    }
    let from: usize = n - need;
    let mut part: Vec<Candle> = Vec::new();
    let mut part_bars: Vec<BarRatios> = Vec::new();
    let mut i: usize = from;
    while i < n
        invariant
            from <= i <= n == candles@.len(),
            bars@.len() == n,
            part@ == candles@.subrange(from as int, i as int),
            part_bars@ == bars@.subrange(from as int, i as int),
        decreases n - i,
    {
        part.push(candles[i]);
        part_bars.push(bars[i]);
        i = i + 1;
        proof {
            assert(part@ =~= candles@.subrange(from as int, i as int));
            assert(part_bars@ =~= bars@.subrange(from as int, i as int));
        }
    }
    proof {
        assert(part@ =~= candles@.skip(from as int));
        assert(part_bars@ =~= bars@.skip(from as int));
    }
    match realized_vol::close_to_close(&part, &part_bars, Num::of(ONE)) {
        Ok(v) => Some(v),
        Err(_) => None,
    }
}

fn rv_term_structure_slope(candles: &Vec<Candle>, bars: &Vec<BarRatios>) -> (r: Num)
    requires
        bars@.len() == candles@.len(),
    ensures
        r == term_slope(candles@, bars@),
{
    match (tail_c2c(candles, bars, RV_NEAR_WINDOW), tail_c2c(candles, bars, RV_FAR_WINDOW)) {
        (Some(near), Some(far)) => if far > Num::of(ZERO) {
            near / far - Num::of(ONE)
        } else {
            Num::of(ZERO)
        },
        _ => Num::of(ZERO),
    }
}

/// What the machine evaluates for a regime.
#[derive(Debug, PartialEq)]
pub struct RegimeTerms {
    /// Logarithms at `return_ratios` of the closes.
    pub log_rets: Vec<Num>,
    /// Logarithms of the parts of `hurst_points`.
    pub hurst: Vec<HurstPoint>,
    /// Logarithm at `ou_phi` of the closes, anything where there is none.
    pub ln_phi: Num,
    /// Exponentials at `regime_exponents`, anything where there are none.
    pub exps: (Num, Num, Num),
    /// Logarithms at the ratios of each candle.
    pub bars: Vec<BarRatios>,
}

impl RegimeTerms {
    /// Whether there is a logarithm for every point of a candle history.
    pub open spec fn fits(self, candles: Seq<Candle>) -> bool {
        &&& self.bars@.len() == candles.len()
        &&& self.log_rets@.len() == ratios_of(closes_of(candles), candles.len()).len()
        &&& self.hurst@.len() == hurst_points_of(self.log_rets@).len()
    }
}

impl RegimeState {
    /// The regime of a candle history.
    pub open spec fn of_history(
        candles: Seq<Candle>,
        prev: RegimePrevStates,
        t: RegimeTerms,
    ) -> RegimeState {
        let c = closes_of(candles);
        let hurst = hurst_of(t.log_rets@.len(), t.hurst@);
        let pct = bandwidth_rank(c);
        RegimeState {
            hurst,
            persistence: Readout::resolved_from(persistence_band(), hurst, prev.persistence),
            half_life_bars: half_life_of(c, t.ln_phi),
            classification: RegimeClassification::of_exps(
                t.log_rets@.len(),
                t.exps,
                prev.confident,
            ),
            compression: Readout::resolved_from(
                compression_band(),
                Num::of(ONE).fsub(pct),
                prev.compression,
            ),
            expansion: Readout::resolved_from(expansion_band(), pct, prev.expansion),
            term_structure_slope: term_slope(candles, t.bars@),
        }
    }
}

/// The regime of a candle history, from a cold start.
pub fn analyze_regime(candles: &Vec<Candle>, terms: &RegimeTerms) -> (r: RegimeState)
    requires
        terms.fits(candles@),
    ensures
        r == RegimeState::of_history(candles@, RegimePrevStates::cold(), *terms),
{
    analyze_regime_from(candles, RegimePrevStates::cold(), terms)
}

/// The regime of a candle history, given the states before.
pub fn analyze_regime_from(
    candles: &Vec<Candle>,
    prev: RegimePrevStates,
    terms: &RegimeTerms,
) -> (r: RegimeState)
    requires
        terms.fits(candles@),
    ensures
        r == RegimeState::of_history(candles@, prev, *terms),
{
    let c = closes(candles);
    let hurst = hurst_exponent(&terms.log_rets, &terms.hurst);
    let pct = bandwidth_percentile(&c);
    RegimeState {
        hurst,
        persistence: Readout::resolve_from(&persistence_band(), hurst, prev.persistence),
        half_life_bars: ou_half_life(&c, terms.ln_phi),
        classification: classify_regime_from(&terms.log_rets, terms.exps, prev.confident),
        compression: Readout::resolve_from(
            &compression_band(),
            Num::of(ONE) - pct,
            prev.compression,
        ),
        expansion: Readout::resolve_from(&expansion_band(), pct, prev.expansion),
        term_structure_slope: rv_term_structure_slope(candles, &terms.bars),
    }
}

/// From a cold start, compression and expansion are never both in force.
pub proof fn law_not_both_compressed_and_expanded(pct: Num)
    requires
        pct.finite(),
    ensures
        !(compression_band().resolved(Num::of(ONE).fsub(pct), BinaryState::Inactive) is Active
            && expansion_band().resolved(pct, BinaryState::Inactive) is Active),
{
    if Num::of(EXPANSION_ACTIVATE).fle(pct) {
        let (one, half) = (Num::of(ONE), Num::of(HALF));
        algebra::lemma_add_is_number(one, pct.fneg());
        algebra::lemma_add_is_number(one, half.fneg());
        algebra::law_add_commutes(one, pct.fneg());
        algebra::law_add_commutes(one, half.fneg());
        algebra::law_add_monotone(pct.fneg(), half.fneg(), one);
        algebra::lemma_one_less_half();
    }
}

/// Recent vol over its baseline: the deviation of the last thirty returns over
/// that of those before.
pub open spec fn vol_ratio_of(log_rets: Seq<Num>) -> Num {
    std_of(log_rets.skip(recent_start(log_rets.len()) as int)).fdiv(baseline_of(log_rets))
}

/// Kurtosis of the recent returns.
pub open spec fn recent_kurtosis(log_rets: Seq<Num>) -> Num {
    kurtosis_of(log_rets.skip(recent_start(log_rets.len()) as int))
}

/// The part above a threshold, times a gain.
proof fn lemma_excess(v: Num, threshold: Num, gain: Num)
    requires
        !v.nan(),
        threshold.finite(),
        gain.finite(),
        Num::of(ZERO).flt(gain),
    ensures
        ({
            let r = v.fsub(threshold).fmul(gain).fmax(Num::of(ZERO));
            &&& Num::of(ZERO).fle(r)
            &&& !v.fsub(threshold).fmul(gain).nan()
            &&& v.fle(threshold) ==> r.mag() == 0
        }),
{
    let (zero, d) = (Num::of(ZERO), v.fsub(threshold));
    algebra::lemma_add_finite(v, threshold.fneg());
    assert(!d.fmul(gain).nan()) by {
        reveal(Num::fmul);
    }
    if v.fle(threshold) {
        algebra::lemma_add_is_number(threshold, threshold.fneg());
        algebra::law_add_monotone(v, threshold, threshold.fneg());
        algebra::law_sub_self(threshold);
        algebra::law_zero_mul(zero, gain);
        algebra::law_mul_monotone(d, zero, gain);
    }
}

/// The part above a threshold does not fall as the value rises.
proof fn lemma_excess_order(v: Num, w: Num, threshold: Num, gain: Num)
    requires
        v.fle(w),
        threshold.finite(),
        gain.finite(),
        Num::of(ZERO).flt(gain),
    ensures
        v.fsub(threshold).fmul(gain).fmax(Num::of(ZERO)).fle(
            w.fsub(threshold).fmul(gain).fmax(Num::of(ZERO)),
        ),
{
    lemma_excess(v, threshold, gain);
    lemma_excess(w, threshold, gain);
    algebra::lemma_add_finite(v, threshold.fneg());
    algebra::lemma_add_finite(w, threshold.fneg());
    algebra::law_add_monotone(v, w, threshold.fneg());
    algebra::law_mul_monotone(v.fsub(threshold), w.fsub(threshold), gain);
}

/// The part below a threshold does not rise as the value rises.
proof fn lemma_shortfall_order(v: Num, w: Num, threshold: Num, gain: Num)
    requires
        v.fle(w),
        threshold.finite(),
        gain.finite(),
        Num::of(ZERO).flt(gain),
    ensures
        threshold.fsub(w).fmul(gain).fmax(Num::of(ZERO)).fle(
            threshold.fsub(v).fmul(gain).fmax(Num::of(ZERO)),
        ),
        Num::of(ZERO).fle(threshold.fsub(v).fmul(gain).fmax(Num::of(ZERO))),
        threshold.fle(v) ==> threshold.fsub(v).fmul(gain).fmax(Num::of(ZERO)).mag() == 0,
{
    let zero = Num::of(ZERO);
    algebra::lemma_add_finite(v.fneg(), threshold);
    algebra::lemma_add_finite(w.fneg(), threshold);
    algebra::law_add_commutes(v.fneg(), threshold);
    algebra::law_add_commutes(w.fneg(), threshold);
    algebra::law_add_monotone(w.fneg(), v.fneg(), threshold);
    let (a, b) = (threshold.fsub(w), threshold.fsub(v));
    assert(!a.fmul(gain).nan() && !b.fmul(gain).nan()) by {
        reveal(Num::fmul);
    }
    algebra::law_mul_monotone(a, b, gain);
    if threshold.fle(v) {
        algebra::lemma_add_is_number(threshold.fneg(), threshold);
        algebra::law_add_commutes(threshold.fneg(), threshold);
        algebra::law_add_monotone(v.fneg(), threshold.fneg(), threshold);
        algebra::law_sub_self(threshold);
        algebra::law_zero_mul(zero, gain);
        algebra::law_mul_monotone(b, zero, gain);
    }
}

/// Sums of two parts that are not negative keep their order.
proof fn lemma_parts_order(a: Num, b: Num, c: Num, d: Num)
    requires
        Num::of(ZERO).fle(a),
        Num::of(ZERO).fle(b),
        a.fle(c),
        b.fle(d),
    ensures
        a.fadd(b).fle(c.fadd(d)),
        Num::of(ZERO).fle(a.fadd(b)),
        a.fle(a.fadd(b)),
        b.fle(a.fadd(b)),
        a.mag() == 0 && b.mag() == 0 ==> a.fadd(b).mag() == 0,
{
    let zero = Num::of(ZERO);
    algebra::lemma_add_kind(a, b);
    algebra::lemma_add_kind(c, d);
    algebra::lemma_add_kind(c, b);
    algebra::lemma_add_kind(b, a);
    assert(!a.fadd(b).nan() && !c.fadd(b).nan() && !c.fadd(d).nan() && !b.fadd(c).nan() && !d.fadd(
        c,
    ).nan() && !zero.fadd(b).nan() && !zero.fadd(a).nan() && !b.fadd(a).nan()) by {
        reveal(Num::fadd);
    }
    algebra::law_add_monotone(a, c, b);
    algebra::law_add_commutes(c, b);
    algebra::law_add_commutes(c, d);
    algebra::law_add_monotone(b, d, c);
    algebra::law_add_monotone(zero, a, b);
    algebra::law_add_monotone(zero, b, a);
    algebra::law_add_commutes(a, b);
    algebra::lemma_add_any_zero(b, zero);
    algebra::lemma_add_any_zero(a, zero);
    algebra::law_add_commutes(zero, b);
    algebra::law_add_commutes(zero, a);
    if b.mag() == 0 {
        algebra::lemma_add_any_zero(a, b);
    }
}

/// The vol ratio that the energies are made of.
proof fn lemma_ratio(log_rets: Seq<Num>)
    ensures
        Num::of(ZERO).flt(baseline_of(log_rets)),
{
}

/// The energy of tail risk accrues from fat tails and from a vol above its
/// baseline: it is never negative, zero up to a kurtosis of 4 and a vol ratio of
/// 1.6, never falls as either rises, and is positive beyond either.
pub proof fn law_tail_energy_accrues(a: Seq<Num>, b: Seq<Num>, h: Num, g: Num)
    requires
        recent_kurtosis(a).fle(recent_kurtosis(b)),
        vol_ratio_of(a).fle(vol_ratio_of(b)),
    ensures
        ({
            let (x, y) = (energies_of(a, h).2, energies_of(b, g).2);
            let (k, r) = (recent_kurtosis(a), vol_ratio_of(a));
            &&& Num::of(ZERO).fle(x)
            &&& x.fle(y)
            &&& k.fle(decimal(4, 1)) && r.fle(decimal(8, 5)) ==> x.mag() == 0
            &&& decimal(4, 1).flt(k) || decimal(8, 5).flt(r) ==> Num::of(ZERO).flt(x)
        }),
{
    let zero = Num::of(ZERO);
    lemma_ratio(a);
    lemma_ratio(b);
    lemma2_to64_rest();
    decimal::lemma_decimal(REGIME_KURT_THRESHOLD, 4, 1, 50);
    decimal::lemma_decimal(REGIME_TAIL_VOL_THRESHOLD, 8, 5, 52);
    let (kt, kg) = (Num::of(REGIME_KURT_THRESHOLD), Num::of(REGIME_TAIL_KURT_GAIN));
    let (vt, vg) = (Num::of(REGIME_TAIL_VOL_THRESHOLD), Num::of(REGIME_TAIL_VOL_GAIN));
    let (k, r) = (recent_kurtosis(a), vol_ratio_of(a));
    let (l, s) = (recent_kurtosis(b), vol_ratio_of(b));
    lemma_excess(k, kt, kg);
    lemma_excess(r, vt, vg);
    lemma_excess_order(k, l, kt, kg);
    lemma_excess_order(r, s, vt, vg);
    lemma_parts_order(
        k.fsub(kt).fmul(kg).fmax(zero),
        r.fsub(vt).fmul(vg).fmax(zero),
        l.fsub(kt).fmul(kg).fmax(zero),
        s.fsub(vt).fmul(vg).fmax(zero),
    );
    if kt.flt(k) {
        lemma_beyond(k, REGIME_KURT_THRESHOLD, REGIME_TAIL_KURT_GAIN);
    }
    if vt.flt(r) {
        lemma_beyond(r, REGIME_TAIL_VOL_THRESHOLD, REGIME_TAIL_VOL_GAIN);
    }
}

/// Beyond a threshold the part above it is positive.
proof fn lemma_beyond(v: Num, threshold: u64, gain: u64)
    requires
        Num::of(threshold).flt(v),
        0x3FF0_0000_0000_0000 <= threshold < 0x4040_0000_0000_0000,
        0x3FE0_0000_0000_0000 <= gain < 0x4040_0000_0000_0000,
    ensures
        Num::of(ZERO).flt(v.fsub(Num::of(threshold)).fmul(Num::of(gain)).fmax(Num::of(ZERO))),
{
    let (zero, t, g) = (Num::of(ZERO), Num::of(threshold), Num::of(gain));
    let next = Num { bits: (threshold + 1) as u64 };
    let half = Num::of(0x3FE0_0000_0000_0000);
    assert(next.fle(v));
    risk::lemma_opposite_sum(next, t.fneg());
    exact::lemma_exact_neg(t);
    exact::lemma_exact_add(next, t.fneg());
    exact::lemma_exact_order(t, next);
    let d = next.fsub(t);
    // One step above a number from one on is far from zero.
    lemma_step(threshold);
    exact::lemma_times(exact::eps(), 1real / 2real, next.exact() - t.exact());
    lemma2_to64_rest();
    decimal::lemma_decimal(0x3FE0_0000_0000_0000, 1, 2, 53);
    exact::lemma_exact_zero(zero);
    exact::lemma_exact_order(zero, d);
    lemma_product_number(d, half);
    exact::lemma_exact_order(zero, d.fmul(half));
    algebra::lemma_add_finite(v, t.fneg());
    algebra::law_add_monotone(next, v, t.fneg());
    lemma_excess(v, t, g);
    lemma_excess(next, t, g);
    algebra::lemma_weight_order(d, half, g);
    algebra::law_mul_monotone(d, v.fsub(t), g);
}

/// Half of what is far from zero is above it.
proof fn lemma_product_number(d: Num, half: Num)
    requires
        d.finite(),
        !d.negative(),
        d.exact() >= exact::eps() / 2real,
        half.finite(),
        half.exact() == 1real / 2real,
        risk::in_unit(half),
    ensures
        d.fmul(half).finite(),
        d.fmul(half).exact() > 0real,
{
    let e = exact::eps();
    algebra::lemma_weighted(d, half);
    exact::lemma_exact_mul(d, half);
    exact::lemma_small();
    let x = d.exact() * half.exact();
    assert(x == d.exact() / 2real);
    exact::lemma_times(e, 1real / 8real, x);
    let b = 0x1_0000_0000_0000_0000int as real;
    exact::lemma_over(1real, b * b * b);
    assert(exact::small() <= 1real / 1000real) by (nonlinear_arith)
        requires
            exact::small() * (b * b * b) == 1real,
            b == 0x1_0000_0000_0000_0000int as real,
            exact::small() > 0real,
    {
        assert(b * b * b >= 1000real);
    }
    exact::lemma_times(exact::small(), 1real / 1000real, e);
}

/// One step above a number from one on is at least a rounding of one.
proof fn lemma_step(bits: u64)
    requires
        0x3FF0_0000_0000_0000 <= bits < 0x4040_0000_0000_0000,
    ensures
        Num::of((bits + 1) as u64).exact() - Num::of(bits).exact() >= exact::eps(),
{
    let (a, b) = (Num::of(bits), Num::of((bits + 1) as u64));
    let p = pow2(1074);
    arith::lemma_order_is_exact(a, b);
    assert(b.size() >= a.size() + pow2(1022)) by {
        lemma_step_size(bits);
    }
    reveal(Num::exact);
    exact::lemma_units_positive();
    lemma_pow2_adds(52, 1022);
    lemma2_to64_rest();
    let (x, y, q, u) = (
        a.size() as int as real,
        b.size() as int as real,
        pow2(1022) as int as real,
        exact::one_units(),
    );
    exact::lemma_real_mul(pow2(52) as int, pow2(1022) as int);
    assert(y / u - x / u >= 1real / (0x20_0000_0000_0000int as real)) by (nonlinear_arith)
        requires
            y >= x + q,
            u == (0x10_0000_0000_0000int as real) * q,
            u >= 1real,
    {
        let d = y / u - x / u;
        assert(d * u == y - x);
        assert(d * u >= q);
    }
}

/// The sizes of two neighbours from one on.
proof fn lemma_step_size(bits: u64)
    requires
        0x3FF0_0000_0000_0000 <= bits < 0x4040_0000_0000_0000,
    ensures
        Num::of((bits + 1) as u64).size() >= Num::of(bits).size() + pow2(1022),
{
    let (a, b) = (Num::of(bits), Num::of((bits + 1) as u64));
    let k = a.scale();
    assert(k >= 1022);
    if k > 1022 {
        lemma_pow2_strictly_increases(1022, k);
    }
    let (m, n, p) = (a.significand(), b.significand(), pow2(k));
    if b.scale() == k {
        assert(n == m + 1);
        assert((m + 1) * p == m * p + p) by (nonlinear_arith);
    } else {
        assert(b.scale() == k + 1);
        lemma_pow2_unfold(k + 1);
        assert(m == 0x1F_FFFF_FFFF_FFFF && n == 0x10_0000_0000_0000);
        assert(n * (2 * p) == m * p + p) by (nonlinear_arith)
            requires
                m == 0x1F_FFFF_FFFF_FFFF,
                n == 0x10_0000_0000_0000,
        ;
    }
}

/// The energy of a trend never falls as the Hurst exponent or the vol ratio
/// rises, that of mean reversion never rises.  A trend has none up to a random
/// walk at the baseline vol, and mean reversion has its prior of 0.4 alone from
/// there on.
pub proof fn law_trend_and_reversion_mirror(a: Seq<Num>, b: Seq<Num>, h: Num, g: Num)
    requires
        h.fle(g),
        h.finite(),
        g.finite(),
        vol_ratio_of(a).fle(vol_ratio_of(b)),
    ensures
        ({
            let (x, y) = (energies_of(a, h), energies_of(b, g));
            let (r, prior) = (vol_ratio_of(a), decimal(2, 5));
            let (half, one) = (decimal(1, 2), decimal(1, 1));
            &&& Num::of(ZERO).fle(x.0) && x.0.fle(y.0)
            &&& y.1.fle(x.1) && prior.fle(x.1)
            &&& h.fle(half) && r.fle(one) ==> x.0.mag() == 0
            &&& half.fle(h) && one.fle(r) ==> x.1.feq(prior)
        }),
{
    let zero = Num::of(ZERO);
    lemma_ratio(a);
    lemma_ratio(b);
    lemma2_to64_rest();
    decimal::lemma_decimal(HURST_RANDOM_WALK, 1, 2, 53);
    decimal::lemma_decimal(VOL_RATIO_NEUTRAL, 1, 1, 52);
    decimal::lemma_decimal(REGIME_REVERT_PRIOR, 2, 5, 54);
    let (walk, neutral, prior) = (
        Num::of(HURST_RANDOM_WALK),
        Num::of(VOL_RATIO_NEUTRAL),
        Num::of(REGIME_REVERT_PRIOR),
    );
    let (hg, tg, rg) = (
        Num::of(REGIME_HURST_GAIN),
        Num::of(REGIME_TREND_VOL_GAIN),
        Num::of(REGIME_REVERT_VOL_GAIN),
    );
    let (r, s) = (vol_ratio_of(a), vol_ratio_of(b));
    lemma_excess(h, walk, hg);
    lemma_excess(r, neutral, tg);
    lemma_excess_order(h, g, walk, hg);
    lemma_excess_order(r, s, neutral, tg);
    lemma_parts_order(
        h.fsub(walk).fmul(hg).fmax(zero),
        r.fsub(neutral).fmul(tg).fmax(zero),
        g.fsub(walk).fmul(hg).fmax(zero),
        s.fsub(neutral).fmul(tg).fmax(zero),
    );
    lemma_shortfall_order(h, g, walk, hg);
    lemma_shortfall_order(g, g, walk, hg);
    lemma_shortfall_order(r, s, neutral, rg);
    lemma_shortfall_order(s, s, neutral, rg);
    let (p, q) = (
        walk.fsub(h).fmul(hg).fmax(zero),
        neutral.fsub(r).fmul(rg).fmax(zero),
    );
    let (p2, q2) = (
        walk.fsub(g).fmul(hg).fmax(zero),
        neutral.fsub(s).fmul(rg).fmax(zero),
    );
    lemma_parts_order(p2, q2, p, q);
    lemma_parts_order(p, q, p, q);
    lemma_parts_order(p2.fadd(q2), prior, p.fadd(q), prior);
    lemma_parts_order(p.fadd(q), prior, p.fadd(q), prior);
    if walk.fle(h) && neutral.fle(r) {
        algebra::law_add_commutes(p.fadd(q), prior);
        algebra::lemma_add_any_zero(prior, p.fadd(q));
    }
}

/// With a Hurst exponent of one half, a vol of at least four times its baseline
/// gives tail risk the most energy.
pub proof fn law_vol_shocks_are_tail_risk(a: Seq<Num>)
    requires
        vol_ratio_of(a).finite(),
        decimal(4, 1).fle(vol_ratio_of(a)),
        vol_ratio_of(a).exact() <= 1_000_000real,
        !recent_kurtosis(a).nan(),
    ensures
        ({
            let e = energies_of(a, decimal(1, 2));
            e.0.flt(e.2) && e.1.flt(e.2)
        }),
{
    let (zero, r) = (Num::of(ZERO), vol_ratio_of(a));
    lemma_ratio(a);
    lemma2_to64_rest();
    decimal::lemma_decimal(0x4010_0000_0000_0000, 4, 1, 50);
    decimal::lemma_decimal(HURST_RANDOM_WALK, 1, 2, 53);
    decimal::lemma_decimal(VOL_RATIO_NEUTRAL, 1, 1, 52);
    decimal::lemma_decimal(REGIME_REVERT_PRIOR, 2, 5, 54);
    decimal::lemma_decimal(REGIME_TREND_VOL_GAIN, 6, 5, 52);
    decimal::lemma_decimal(REGIME_TAIL_VOL_GAIN, 2, 1, 51);
    decimal::lemma_decimal(REGIME_TAIL_VOL_THRESHOLD, 8, 5, 52);
    decimal::lemma_decimal(REGIME_HURST_GAIN, 6, 1, 50);
    let (walk, neutral, hg) = (
        Num::of(HURST_RANDOM_WALK),
        Num::of(VOL_RATIO_NEUTRAL),
        Num::of(REGIME_HURST_GAIN),
    );
    let (tg, rg) = (Num::of(REGIME_TREND_VOL_GAIN), Num::of(REGIME_REVERT_VOL_GAIN));
    let (vt, vg) = (Num::of(REGIME_TAIL_VOL_THRESHOLD), Num::of(REGIME_TAIL_VOL_GAIN));
    let (kt, kg) = (Num::of(REGIME_KURT_THRESHOLD), Num::of(REGIME_TAIL_KURT_GAIN));
    let k = recent_kurtosis(a);
    exact::lemma_exact_order(Num::of(0x4010_0000_0000_0000), r);
    let x = r.exact();
    // The parts that the vol makes.
    let (u, v) = (r.fsub(neutral).fmul(tg), r.fsub(vt).fmul(vg));
    lemma_gain(r, neutral, 1real, tg, 6real / 5real);
    lemma_gain(r, vt, 8real / 5real, vg, 2real);
    let (trend, tail) = (u.fmax(zero), v.fmax(zero));
    exact::lemma_exact_zero(zero);
    exact::lemma_exact_order(u, zero);
    exact::lemma_exact_order(v, zero);
    exact::lemma_exact_order(u, v);
    // The Hurst exponent adds nothing to trend and reversion.
    lemma_excess(walk, walk, hg);
    lemma_shortfall_order(walk, walk, walk, hg);
    lemma_shortfall_order(r, r, neutral, rg);
    exact::lemma_exact_order(neutral, r);
    let (h0, h1) = (walk.fsub(walk).fmul(hg).fmax(zero), neutral.fsub(r).fmul(rg).fmax(zero));
    let prior = Num::of(REGIME_REVERT_PRIOR);
    algebra::law_add_commutes(h0, trend);
    algebra::lemma_add_any_zero(trend, h0);
    algebra::lemma_add_any_zero(h0, h1);
    algebra::law_add_commutes(h0.fadd(h1), prior);
    algebra::lemma_add_any_zero(prior, h0.fadd(h1));
    exact::lemma_exact_order(prior, v);
    lemma_excess(k, kt, kg);
    lemma_parts_order(k.fsub(kt).fmul(kg).fmax(zero), tail, k.fsub(kt).fmul(kg).fmax(zero), tail);
}

/// What a gain makes of the distance from a threshold, at moderate values.
proof fn lemma_gain(r: Num, t: Num, x: real, g: Num, y: real)
    requires
        r.finite(),
        0real <= r.exact() <= 1_000_000real,
        closeness::close(t, x, 2real, 2real),
        closeness::close(g, y, 2real, 2real),
    ensures
        r.fsub(t).fmul(g).finite(),
        exact::rabs(r.fsub(t).fmul(g).exact() - (r.exact() - x) * y) <= 1real / 1000real,
{
    lemma2_to64_rest();
    lemma_pow2_strictly_increases(53, 400);
    closeness::lemma_close_self(r, 1_000_000real);
    closeness::lemma_close_more(r, r.exact(), 0real, 2real, 1_000_000real, 1_000_000real);
    closeness::lemma_sum(r, r.exact(), t, x, 2real, 1_000_000real, 2real);
    closeness::lemma_product(
        r.fsub(t),
        r.exact() - x,
        g,
        y,
        4real,
        2real,
        1_000_002real,
        2real,
    );
}

} // verus!
