//! Thesis stability composite and its sub-kernels.
//!
//! The composite scores one trade direction from 1 to 100; `thesis` evaluates
//! both directions and resolves whether the thesis is in force at all.
//!
//! The session VWAP is computed from candle volume, and the bar close stands
//! in where no volume has traded.  Logarithm, exponential and hyperbolic
//! tangent of the host machine enter as `ScoreTerms`.

use crate::algebra;
use crate::arith;
use crate::closeness;
use crate::consts::{ONE, TWO, ZERO};
use crate::decimal;
use crate::exact;
use crate::integral;
use crate::market::Candle;
use crate::num::Num;
use crate::risk;
use crate::sorting;
use crate::state::{BinaryState, HysteresisBand, Readout};
use crate::sums;
use crate::technicals::{
    self, Pivot, ATR_FALLBACK, FRACTAL_HALF_WINDOW, RSI_NEUTRAL, RVOL_BASELINE_BARS, RVOL_NEUTRAL,
    WILDER_PERIOD_DEFAULT,
};
use vstd::arithmetic::power2::*;
use vstd::prelude::*;

verus! {

/// Long trade direction (1.0).
pub const DIR_LONG: u64 = 0x3FF0_0000_0000_0000;

/// Short trade direction (-1.0).
pub const DIR_SHORT: u64 = 0xBFF0_0000_0000_0000;

/// Scale of the momentum velocity inside the tangent (2.0).
pub const MOMENTUM_TANH_SCALE: u64 = 0x4000_0000_0000_0000;

/// Factor where momentum and RSI slope diverge (0.5).
pub const MOMENTUM_DIVERGENCE_PENALTY: u64 = 0x3FE0_0000_0000_0000;

/// Distance beyond VWAP at which the kernel peaks, ATRs (0.5).
pub const VWAP_PEAK_ATR: u64 = 0x3FE0_0000_0000_0000;

/// Kernel width in log space (0.6).
pub const VWAP_KERNEL_SIGMA: u64 = 0x3FE3_3333_3333_3333;

/// Relative volume that scores 1 (2.0).
pub const RVOL_FULL: u64 = 0x4000_0000_0000_0000;

/// Weight of structure (0.25).
pub const THESIS_W_STRUCT: u64 = 0x3FD0_0000_0000_0000;

/// Weight of momentum (0.25).
pub const THESIS_W_MOM: u64 = 0x3FD0_0000_0000_0000;

/// Weight of VWAP (0.2).
pub const THESIS_W_VWAP: u64 = 0x3FC9_9999_9999_999A;

/// Weight of volume (0.15).
pub const THESIS_W_VOLUME: u64 = 0x3FC3_3333_3333_3333;

/// Weight of the dealer proxy (0.15).
pub const THESIS_W_DEALER: u64 = 0x3FC3_3333_3333_3333;

/// Least thesis stability (1.0).
pub const THESIS_MIN: u64 = 0x3FF0_0000_0000_0000;

/// Greatest thesis stability (100.0).
pub const THESIS_MAX: u64 = 0x4059_0000_0000_0000;

/// Lookback of the RSI slope, bars.
pub const RSI_SLOPE_LOOKBACK: usize = 5;

/// Lookback of the momentum velocity, bars.
pub const MOM_LOOKBACK: usize = 10;

/// Bars needed before a VWAP reclaim is read.
pub const VWAP_RECLAIM_MIN_BARS: usize = 4;

/// Prior bars in the volume-trend baseline.
pub const RVOL_TREND_LOOKBACK: usize = 5;

/// Sum of relative volumes before the baseline is available (5.0).
pub const RVOL_TREND_DEFAULT_SUM: u64 = 0x4014_0000_0000_0000;

/// Number of relative volumes in the baseline (5.0).
pub const RVOL_TREND_COUNT: u64 = 0x4014_0000_0000_0000;

/// Weight of the kernel in the VWAP score (0.6).
pub const VWAP_BLEND_KERNEL: u64 = 0x3FE3_3333_3333_3333;

/// Weight of the slope in the VWAP score (0.25).
pub const VWAP_BLEND_SLOPE: u64 = 0x3FD0_0000_0000_0000;

/// Weight of the reclaim in the VWAP score (0.15).
pub const VWAP_BLEND_RECLAIM: u64 = 0x3FC3_3333_3333_3333;

/// Weight of relative volume in the volume score (0.6).
pub const VOLUME_BLEND_BASE: u64 = 0x3FE3_3333_3333_3333;

/// Weight of the trend in the volume score (0.25).
pub const VOLUME_BLEND_TREND: u64 = 0x3FD0_0000_0000_0000;

/// Weight of the acceleration in the volume score (0.15).
pub const VOLUME_BLEND_ACCEL: u64 = 0x3FC3_3333_3333_3333;

/// ATR growth that scores 1 (0.5).
pub const ATR_EXPANSION_SCALE: u64 = 0x3FE0_0000_0000_0000;

/// Scale of the momentum-acceleration sub-score (4.0).
pub const MOM_ACCEL_SCALE: u64 = 0x4010_0000_0000_0000;

/// Neutral total of an empty series.
pub const SCORE_NEUTRAL_TOTAL: u8 = 50;

/// Neutral sub-score of an empty series.
pub const SCORE_NEUTRAL_SUB: u8 = 5;

/// Greatest sub-score.
pub const SUB_SCORE_MAX: u8 = 10;

/// Least total.
pub const TOTAL_SCORE_MIN: u8 = 1;

/// Greatest total.
pub const TOTAL_SCORE_MAX: u8 = 100;

/// Sub-scores per unit (10.0).
pub const SUB_SCORE_SCALE: u64 = 0x4024_0000_0000_0000;

/// Score at which a thesis engages (0.65).
pub const ENGAGEMENT_ACTIVATE: u64 = 0x3FE4_CCCC_CCCC_CCCD;

/// Score at which a thesis disengages (0.55).
pub const ENGAGEMENT_DEACTIVATE: u64 = 0x3FE1_9999_9999_999A;

/// -1.0.
pub const MINUS_ONE: u64 = 0xBFF0_0000_0000_0000;

/// Band that resolves the engagement of a thesis.
#[verifier::allow_in_spec]
pub fn engagement_band() -> HysteresisBand
    returns
        (HysteresisBand {
            activate_at: Num::of(ENGAGEMENT_ACTIVATE),
            deactivate_at: Num::of(ENGAGEMENT_DEACTIVATE),
        }),
{
    HysteresisBand::new(Num::of(ENGAGEMENT_ACTIVATE), Num::of(ENGAGEMENT_DEACTIVATE))
}

/// The total and the ten sub-scores of one direction.
#[derive(Debug, Clone, Copy, PartialEq, Eq, Structural)]
pub struct SystemScore {
    /// Thesis stability, 1 to 100.
    pub total: u8,
    /// Structure quality.
    pub structure_quality: u8,
    /// Displacement quality, the same as the structure quality.
    pub displacement_quality: u8,
    /// Volume expansion.
    pub volume_expansion: u8,
    /// RSI cascade.
    pub rsi_cascade: u8,
    /// VWAP alignment.
    pub vwap_alignment: u8,
    /// Liquidity-sweep proxy.
    pub liquidity_sweep: u8,
    /// Higher-timeframe agreement.
    pub htf_agreement: u8,
    /// Volatility regime.
    pub volatility_regime: u8,
    /// Premium or discount.
    pub premium_discount: u8,
    /// Momentum acceleration.
    pub momentum_acceleration: u8,
}

impl SystemScore {
    /// The score of an empty series.
    pub open spec fn neutral_score() -> SystemScore {
        SystemScore {
            total: SCORE_NEUTRAL_TOTAL,
            structure_quality: SCORE_NEUTRAL_SUB,
            displacement_quality: SCORE_NEUTRAL_SUB,
            volume_expansion: SCORE_NEUTRAL_SUB,
            rsi_cascade: SCORE_NEUTRAL_SUB,
            vwap_alignment: SCORE_NEUTRAL_SUB,
            liquidity_sweep: SCORE_NEUTRAL_SUB,
            htf_agreement: SCORE_NEUTRAL_SUB,
            volatility_regime: SCORE_NEUTRAL_SUB,
            premium_discount: SCORE_NEUTRAL_SUB,
            momentum_acceleration: SCORE_NEUTRAL_SUB,
        }
    }

    /// The score of an empty series.
    pub fn neutral() -> (r: SystemScore)
        ensures
            r == SystemScore::neutral_score(),
    {
        SystemScore {
            total: SCORE_NEUTRAL_TOTAL,
            structure_quality: SCORE_NEUTRAL_SUB,
            displacement_quality: SCORE_NEUTRAL_SUB,
            volume_expansion: SCORE_NEUTRAL_SUB,
            rsi_cascade: SCORE_NEUTRAL_SUB,
            vwap_alignment: SCORE_NEUTRAL_SUB,
            liquidity_sweep: SCORE_NEUTRAL_SUB,
            htf_agreement: SCORE_NEUTRAL_SUB,
            volatility_regime: SCORE_NEUTRAL_SUB,
            premium_discount: SCORE_NEUTRAL_SUB,
            momentum_acceleration: SCORE_NEUTRAL_SUB,
        }
    }
}

/// Both directional scores, the dominant side's detail and the engagement.
#[derive(Debug, Clone, Copy, PartialEq)]
pub struct ThesisReadout {
    /// Thesis stability of the long direction.
    pub long_score: u8,
    /// Thesis stability of the short direction.
    pub short_score: u8,
    /// +1 where long scores higher, -1 where short does, else 0.
    pub direction: i8,
    /// Sub-scores of the dominant side.
    pub dominant: SystemScore,
    /// Whether the thesis is in force.
    pub engagement: Readout,
}

/// What the host machine evaluates for one direction.
#[derive(Debug, Clone, Copy, PartialEq)]
pub struct ScoreTerms {
    /// Hyperbolic tangent at the momentum point.
    pub momentum_tanh: Num,
    /// Exponential at the VWAP kernel's exponent.
    pub vwap_exp: Num,
}

/// Where the host machine is to evaluate for one direction.
#[derive(Debug, Clone, Copy, PartialEq)]
pub struct ScoreArgs {
    /// Point of the hyperbolic tangent.
    pub momentum_point: Num,
    /// Point of the logarithm, where the VWAP kernel needs one; `vwap_exponent`
    /// of that logarithm is then the point of the exponential.
    pub vwap_point: Option<Num>,
}

/// `v` in [0, 1].
pub open spec fn unit_clamp(v: Num) -> Num {
    v.fclamp(Num::of(ZERO), Num::of(ONE))
}

fn clamp01(v: Num) -> (r: Num)
    ensures
        r == unit_clamp(v),
{
    v.clamp(Num::of(ZERO), Num::of(ONE))
}

/// [-1, 1] mapped onto [0, 1].
pub open spec fn signed_to_unit(v: Num) -> Num {
    unit_clamp(v.fadd(Num::of(ONE)).fdiv(Num::of(TWO)))
}

fn unit_from_signed(v: Num) -> (r: Num)
    ensures
        r == signed_to_unit(v),
{
    clamp01((v + Num::of(ONE)) / Num::of(TWO))
}

/// Sign of a number; 0 for zeros and NaN.
pub open spec fn sign(x: Num) -> Num {
    if Num::of(ZERO).flt(x) {
        Num::of(ONE)
    } else if x.flt(Num::of(ZERO)) {
        Num::of(MINUS_ONE)
    } else {
        Num::of(ZERO)
    }
}

fn sign_of(x: Num) -> (r: Num)
    ensures
        r == sign(x),
{
    if x > Num::of(ZERO) {
        Num::of(ONE)
    } else if x < Num::of(ZERO) {
        Num::of(MINUS_ONE)
    } else {
        Num::of(ZERO)
    }
}

/// `x`, or the fallback where it is zero or NaN.
pub open spec fn nonzero_or(x: Num, fallback: Num) -> Num {
    if x.feq(Num::of(ZERO)) || x.nan() {
        fallback
    } else {
        x
    }
}

fn num_or(x: Num, fallback: Num) -> (r: Num)
    ensures
        r == nonzero_or(x, fallback),
{
    if x == Num::of(ZERO) || x.is_nan() {
        fallback
    } else {
        x
    }
}

/// The nearest integer in [lo, hi]; `lo` for what is not finite.
pub open spec fn rounded_u8(v: Num, lo: u8, hi: u8) -> u8 {
    if !v.finite() {
        lo
    } else {
        v.fround().fclamp(
            Num::whole(false, lo as nat),
            Num::whole(false, hi as nat),
        ).trunc_u64() as u8
    }
}

fn round_to_u8(v: Num, lo: u8, hi: u8) -> (r: u8)
    requires
        lo <= hi,
    ensures
        r == rounded_u8(v, lo, hi),
{
    if !v.is_finite() {
        return lo;
    }
    proof {
        integral::lemma_whole_order(lo as nat, hi as nat);
    }
    v.round().clamp(Num::from_u64(lo as u64), Num::from_u64(hi as u64)).to_u64() as u8
}

/// A rounded score lies within its bounds.
pub proof fn law_rounded_score_in_bounds(v: Num, lo: u8, hi: u8)
    requires
        lo <= hi,
    ensures
        lo <= rounded_u8(v, lo, hi) <= hi,
{
    if v.finite() {
        lemma2_to64_rest();
        integral::lemma_whole_order(lo as nat, hi as nat);
        let x = v.fround();
        lemma_round_not_nan(v);
        integral::lemma_int_part_between(
            x.fclamp(Num::whole(false, lo as nat), Num::whole(false, hi as nat)),
            lo as nat,
            hi as nat,
        );
    }
}

proof fn lemma_round_not_nan(v: Num)
    requires
        v.finite(),
    ensures
        !v.fround().nan(),
{
    reveal(Num::whole);
}

/// Momentum and RSI slope point opposite ways.
pub open spec fn diverges(mom_vel: Num, rsi_slope: Num) -> bool {
    !sign(mom_vel).feq(sign(rsi_slope)) && !rsi_slope.feq(Num::of(ZERO))
}

/// Momentum score from the hyperbolic tangent.
pub open spec fn momentum_from(mom_vel: Num, rsi_slope: Num, tanh: Num) -> Num {
    unit_clamp(
        tanh.fmul(
            if diverges(mom_vel, rsi_slope) {
                Num::of(MOMENTUM_DIVERGENCE_PENALTY)
            } else {
                Num::of(ONE)
            },
        ),
    )
}

/// The point at which `momentum01` needs the hyperbolic tangent.
pub fn momentum_arg(mom_vel: Num) -> (r: Num)
    ensures
        r == mom_vel.fdiv(Num::of(MOMENTUM_TANH_SCALE)),
{
    mom_vel / Num::of(MOMENTUM_TANH_SCALE)
}

/// Momentum kernel; `tanh` is the hyperbolic tangent at `momentum_arg`.
/// Negative momentum scores 0.
pub fn momentum01(mom_vel: Num, rsi_slope: Num, tanh: Num) -> (r: Num)
    ensures
        r == momentum_from(mom_vel, rsi_slope, tanh),
{
    let divergent = sign_of(mom_vel) != sign_of(rsi_slope) && rsi_slope != Num::of(ZERO);
    let div_pen = if divergent {
        Num::of(MOMENTUM_DIVERGENCE_PENALTY)
    } else {
        Num::of(ONE)
    };
    clamp01(tanh * div_pen)
}

/// Distance beyond VWAP in the trade direction over the peak distance; `None`
/// where the kernel is 0 without it.
pub open spec fn vwap_point(close: Num, vwap: Num, atr: Num, dir: Num) -> Option<Num> {
    let d = dir.fmul(close.fsub(vwap)).fdiv(atr);
    if atr.fle(Num::of(ZERO)) || atr.nan() || d.fle(Num::of(ZERO)) {
        None
    } else {
        Some(d.fdiv(Num::of(VWAP_PEAK_ATR)))
    }
}

/// The point at which `vwap01` needs the logarithm, if it needs one.
pub fn vwap_arg(close: Num, vwap: Num, atr: Num, dir: Num) -> (r: Option<Num>)
    ensures
        r == vwap_point(close, vwap, atr, dir),
{
    if atr <= Num::of(ZERO) || atr.is_nan() {
        return None;
    }
    let d = dir * (close - vwap) / atr;
    if d <= Num::of(ZERO) {
        return None;
    }
    Some(d / Num::of(VWAP_PEAK_ATR))
}

/// The point at which `vwap01` needs the exponential, from the logarithm `z`.
pub fn vwap_exponent(z: Num) -> (r: Num)
    ensures
        r == z.fmul(z).fneg().fdiv(
            Num::of(TWO).fmul(Num::of(VWAP_KERNEL_SIGMA)).fmul(Num::of(VWAP_KERNEL_SIGMA)),
        ),
{
    (z * z).neg() / (Num::of(TWO) * Num::of(VWAP_KERNEL_SIGMA) * Num::of(VWAP_KERNEL_SIGMA))
}

/// VWAP score from the exponential.
pub open spec fn vwap_from(close: Num, vwap: Num, atr: Num, dir: Num, e: Num) -> Num {
    if vwap_point(close, vwap, atr, dir) is Some {
        e
    } else {
        Num::of(ZERO)
    }
}

/// VWAP kernel; `e` is the exponential at `vwap_exponent` of the logarithm at `vwap_arg`.
pub fn vwap01(close: Num, vwap: Num, atr: Num, dir: Num, e: Num) -> (r: Num)
    ensures
        r == vwap_from(close, vwap, atr, dir, e),
{
    match vwap_arg(close, vwap, atr, dir) {
        Some(_) => e,
        None => Num::of(ZERO),
    }
}

/// Relative volume from neutral to full mapped onto [0, 1].
pub open spec fn volume_score(rv: Num) -> Num {
    unit_clamp(
        rv.fsub(Num::of(RVOL_NEUTRAL)).fdiv(Num::of(RVOL_FULL).fsub(Num::of(RVOL_NEUTRAL))),
    )
}

/// Volume kernel.
pub fn volume01(relative_volume: Num) -> (r: Num)
    ensures
        r == volume_score(relative_volume),
{
    clamp01(
        (relative_volume - Num::of(RVOL_NEUTRAL)) / (Num::of(RVOL_FULL) - Num::of(RVOL_NEUTRAL)),
    )
}

pub open spec fn some_or(v: Option<Num>, fallback: Num) -> Num {
    match v {
        Some(x) => x,
        None => fallback,
    }
}

fn value_or(v: Option<Num>, fallback: Num) -> (r: Num)
    ensures
        r == some_or(v, fallback),
{
    match v {
        Some(x) => x,
        None => fallback,
    }
}

/// VWAP through bar `i`, or its close where VWAP is absent, zero or not finite.
pub open spec fn vwap_or_close(c: Seq<Candle>, i: int) -> Num {
    match technicals::vwap_at(c, i) {
        Some(v) => if v.finite() && !v.feq(Num::of(ZERO)) {
            v
        } else {
            c[i].close
        },
        None => c[i].close,
    }
}

fn vwap_value(vwaps: &Vec<Option<Num>>, candles: &Vec<Candle>, i: usize) -> (r: Num)
    requires
        i < candles@.len(),
        vwaps@ == Seq::new(candles@.len(), |k: int| technicals::vwap_at(candles@, k)),
    ensures
        r == vwap_or_close(candles@, i as int),
{
    match vwaps[i] {
        Some(v) => if v.is_finite() && v != Num::of(ZERO) {
            v
        } else {
            candles[i].close
        },
        None => candles[i].close,
    }
}

/// What the composite reads off a candle series in one direction.
#[derive(Debug, Clone, Copy, PartialEq)]
pub struct Reading {
    pub atr: Num,
    pub vwap: Num,
    pub atr_div: Num,
    pub rsi_slope: Num,
    pub mom_vel: Num,
}

impl Reading {
    /// The reading of a series that is not empty.
    pub open spec fn of_series(c: Seq<Candle>, dir: Num, atr_fallback: Num) -> Reading {
        let n = c.len() as int;
        let p = WILDER_PERIOD_DEFAULT as nat;
        let rsi = some_or(technicals::rsi_at(c, p, n - 1), Num::of(RSI_NEUTRAL));
        let atr = nonzero_or(
            some_or(technicals::atr_at(c, p, n - 1), Num::of(ATR_FALLBACK)),
            atr_fallback,
        );
        let atr_div = nonzero_or(atr, Num::of(ONE));
        let rsi_before = if n > RSI_SLOPE_LOOKBACK {
            some_or(technicals::rsi_at(c, p, n - 1 - RSI_SLOPE_LOOKBACK), Num::of(RSI_NEUTRAL))
        } else {
            Num::of(RSI_NEUTRAL)
        };
        let close_before = if n > MOM_LOOKBACK {
            c[n - 1 - MOM_LOOKBACK].close
        } else {
            c[0].close
        };
        Reading {
            atr,
            vwap: vwap_or_close(c, n - 1),
            atr_div,
            rsi_slope: dir.fmul(rsi.fsub(rsi_before)),
            mom_vel: dir.fmul(c[n - 1].close.fsub(close_before)).fdiv(atr_div),
        }
    }
}

/// Price crossed back over VWAP on the last bar.
pub open spec fn reclaimed(c: Seq<Candle>, vwap: Num, dir: Num) -> bool {
    let n = c.len() as int;
    let long = Num::of(ZERO).flt(dir);
    let v2 = vwap_or_close(c, n - 2);
    &&& n >= VWAP_RECLAIM_MIN_BARS
    &&& if long {
        c[n - 2].close.fle(v2) && vwap.flt(c[n - 1].close)
    } else {
        v2.fle(c[n - 2].close) && c[n - 1].close.flt(vwap)
    }
}

/// The full VWAP score.
pub open spec fn vwap_full(c: Seq<Candle>, dir: Num, r: Reading, e: Num) -> Num {
    let n = c.len() as int;
    let kernel = vwap_from(c[n - 1].close, r.vwap, r.atr, dir, e);
    let before = if n > RSI_SLOPE_LOOKBACK {
        vwap_or_close(c, n - 1 - RSI_SLOPE_LOOKBACK)
    } else {
        r.vwap
    };
    let slope = dir.fmul(r.vwap.fsub(before)).fdiv(r.atr_div);
    let reclaim = if reclaimed(c, r.vwap, dir) {
        Num::of(ONE)
    } else {
        Num::of(ZERO)
    };
    unit_clamp(
        Num::of(VWAP_BLEND_KERNEL).fmul(kernel).fadd(
            Num::of(VWAP_BLEND_SLOPE).fmul(signed_to_unit(slope)),
        ).fadd(Num::of(VWAP_BLEND_RECLAIM).fmul(reclaim)),
    )
}

/// Relative volumes of the bars before the last one.
pub open spec fn prior_rvols(c: Seq<Candle>) -> Seq<Num> {
    let n = c.len() as int;
    Seq::new(
        RVOL_TREND_LOOKBACK as nat,
        |k: int|
            technicals::relative_volume(
                c,
                n - 1 - RVOL_TREND_LOOKBACK + k,
                RVOL_BASELINE_BARS as nat,
            ),
    )
}

/// The full volume score.
pub open spec fn volume_full(c: Seq<Candle>) -> Num {
    let n = c.len() as int;
    let now = technicals::relative_volume(c, n - 1, RVOL_BASELINE_BARS as nat);
    let sum = if n > RVOL_TREND_LOOKBACK {
        sums::sum(prior_rvols(c))
    } else {
        Num::of(RVOL_TREND_DEFAULT_SUM)
    };
    let trend = sign(now.fsub(sum.fdiv(Num::of(RVOL_TREND_COUNT))));
    let prev = if n >= 2 {
        c[n - 2].volume
    } else {
        Num::of(ONE)
    };
    let denom = if prev.fle(Num::of(ZERO)) {
        Num::of(ONE)
    } else {
        prev
    };
    let accel = c[n - 1].volume.fsub(prev).fdiv(denom).fclamp(Num::of(MINUS_ONE), Num::of(ONE));
    unit_clamp(
        Num::of(VOLUME_BLEND_BASE).fmul(volume_score(now)).fadd(
            Num::of(VOLUME_BLEND_TREND).fmul(signed_to_unit(trend)),
        ).fadd(Num::of(VOLUME_BLEND_ACCEL).fmul(signed_to_unit(accel))),
    )
}

/// Growth of the ATR over the lookback, in [0, 1].
pub open spec fn atr_growth(c: Seq<Candle>, atr: Num) -> Num {
    let n = c.len() as int;
    let p = WILDER_PERIOD_DEFAULT as nat;
    let before = some_or(
        technicals::atr_at(
            c,
            p,
            if n > MOM_LOOKBACK {
                n - 1 - MOM_LOOKBACK
            } else {
                0
            },
        ),
        Num::of(ATR_FALLBACK),
    );
    unit_clamp(
        atr.fdiv(nonzero_or(before, Num::of(ONE))).fsub(Num::of(ONE)).fdiv(
            Num::of(ATR_EXPANSION_SCALE),
        ),
    )
}

/// Structure quality of a series.
pub open spec fn series_structure(c: Seq<Candle>, atr: Num, dir: Num) -> Num {
    technicals::structure_of(
        sorting::stable_sorted(
            technicals::all_pivots(c, FRACTAL_HALF_WINDOW as nat),
            |a: Pivot, b: Pivot| technicals::earlier(a, b),
        ),
        atr,
        dir,
    )
}

/// The blended stability, from 1 to 100.
pub open spec fn stability_of(s: Num, m: Num, w: Num, v: Num, d: Num) -> Num {
    Num::of(THESIS_MAX).fmul(
        Num::of(THESIS_W_STRUCT).fmul(s).fadd(Num::of(THESIS_W_MOM).fmul(m)).fadd(
            Num::of(THESIS_W_VWAP).fmul(w),
        ).fadd(Num::of(THESIS_W_VOLUME).fmul(v)).fadd(Num::of(THESIS_W_DEALER).fmul(d)),
    ).fclamp(Num::of(THESIS_MIN), Num::of(THESIS_MAX))
}

pub open spec fn sub_score(unit: Num) -> u8 {
    rounded_u8(unit.fmul(Num::of(SUB_SCORE_SCALE)), 0, SUB_SCORE_MAX)
}

impl SystemScore {
    /// The score of a series in one direction.
    pub open spec fn of_series(
        c: Seq<Candle>,
        dir: Num,
        atr_fallback: Num,
        t: ScoreTerms,
    ) -> SystemScore {
        if c.len() == 0 {
            SystemScore::neutral_score()
        } else {
            let r = Reading::of_series(c, dir, atr_fallback);
            let s = series_structure(c, r.atr, dir);
            let m = momentum_from(r.mom_vel, r.rsi_slope, t.momentum_tanh);
            let w = vwap_full(c, dir, r, t.vwap_exp);
            let v = volume_full(c);
            let d = signed_to_unit(dir.fmul(c.last().close.fsub(r.vwap)).fdiv(r.atr_div));
            let stability = stability_of(s, m, w, v, d);
            let accel = signed_to_unit(
                r.mom_vel.fdiv(Num::of(MOM_ACCEL_SCALE)).fclamp(Num::of(MINUS_ONE), Num::of(ONE)),
            );
            SystemScore {
                total: rounded_u8(stability, TOTAL_SCORE_MIN, TOTAL_SCORE_MAX),
                structure_quality: sub_score(s),
                displacement_quality: sub_score(s),
                volume_expansion: sub_score(v),
                rsi_cascade: sub_score(m),
                vwap_alignment: sub_score(w),
                liquidity_sweep: sub_score(d),
                htf_agreement: rounded_u8(
                    stability.fdiv(Num::of(SUB_SCORE_SCALE)),
                    0,
                    SUB_SCORE_MAX,
                ),
                volatility_regime: sub_score(atr_growth(c, r.atr)),
                premium_discount: sub_score(Num::of(ONE).fsub(w)),
                momentum_acceleration: sub_score(accel),
            }
        }
    }
}

fn read_series(
    candles: &Vec<Candle>,
    rsis: &Vec<Option<Num>>,
    atrs: &Vec<Option<Num>>,
    vwaps: &Vec<Option<Num>>,
    dir: Num,
    atr_fallback: Num,
) -> (r: Reading)
    requires
        candles@.len() > 0,
        rsis@ == Seq::new(
            candles@.len(),
            |k: int| technicals::rsi_at(candles@, WILDER_PERIOD_DEFAULT as nat, k),
        ),
        atrs@ == Seq::new(
            candles@.len(),
            |k: int| technicals::atr_at(candles@, WILDER_PERIOD_DEFAULT as nat, k),
        ),
        vwaps@ == Seq::new(candles@.len(), |k: int| technicals::vwap_at(candles@, k)),
    ensures
        r == Reading::of_series(candles@, dir, atr_fallback),
{
    let n: usize = candles.len();
    let rsi = value_or(rsis[n - 1], Num::of(RSI_NEUTRAL));
    let atr = num_or(value_or(atrs[n - 1], Num::of(ATR_FALLBACK)), atr_fallback);
    let vwap = vwap_value(vwaps, candles, n - 1);
    let atr_div = num_or(atr, Num::of(ONE));
    let rsi_before = if n > RSI_SLOPE_LOOKBACK {
        value_or(rsis[n - 1 - RSI_SLOPE_LOOKBACK], Num::of(RSI_NEUTRAL))
    } else {
        Num::of(RSI_NEUTRAL)
    };
    let close_before = if n > MOM_LOOKBACK {
        candles[n - 1 - MOM_LOOKBACK].close
    } else {
        candles[0].close
    };
    Reading {
        atr,
        vwap,
        atr_div,
        rsi_slope: dir * (rsi - rsi_before),
        mom_vel: dir * (candles[n - 1].close - close_before) / atr_div,
    }
}

/// The points at which `system_score` needs the machine; `None` for an empty series.
pub fn score_args(candles: &Vec<Candle>, dir: Num, atr_fallback: Num) -> (r: Option<ScoreArgs>)
    ensures
        match r {
            Some(a) => {
                let rd = Reading::of_series(candles@, dir, atr_fallback);
                &&& candles@.len() > 0
                &&& a.momentum_point == rd.mom_vel.fdiv(Num::of(MOMENTUM_TANH_SCALE))
                &&& a.vwap_point == vwap_point(candles@.last().close, rd.vwap, rd.atr, dir)
            },
            None => candles@.len() == 0,
        },
{
    if candles.len() == 0 {
        return None;
    }
    let rsis = technicals::wilder_rsi(candles, WILDER_PERIOD_DEFAULT);
    let atrs = technicals::wilder_atr(candles, WILDER_PERIOD_DEFAULT);
    let vwaps = technicals::session_vwap(candles);
    let r = read_series(candles, &rsis, &atrs, &vwaps, dir, atr_fallback);
    Some(
        ScoreArgs {
            momentum_point: momentum_arg(r.mom_vel),
            vwap_point: vwap_arg(candles[candles.len() - 1].close, r.vwap, r.atr, dir),
        },
    )
}

fn vwap_block(
    candles: &Vec<Candle>,
    vwaps: &Vec<Option<Num>>,
    dir: Num,
    r: &Reading,
    e: Num,
) -> (w: Num)
    requires
        candles@.len() > 0,
        vwaps@ == Seq::new(candles@.len(), |k: int| technicals::vwap_at(candles@, k)),
    ensures
        w == vwap_full(candles@, dir, *r, e),
{
    let n: usize = candles.len();
    let last = candles[n - 1];
    let kernel = vwap01(last.close, r.vwap, r.atr, dir, e);
    let before = if n > RSI_SLOPE_LOOKBACK {
        vwap_value(vwaps, candles, n - 1 - RSI_SLOPE_LOOKBACK)
    } else {
        r.vwap
    };
    let slope = dir * (r.vwap - before) / r.atr_div;
    let long = dir > Num::of(ZERO);
    let crossed_before = n >= VWAP_RECLAIM_MIN_BARS && {
        let c2 = candles[n - 2].close;
        let v2 = vwap_value(vwaps, candles, n - 2);
        if long {
            c2 <= v2
        } else {
            c2 >= v2
        }
    };
    let crossed_back = if long {
        last.close > r.vwap
    } else {
        last.close < r.vwap
    };
    let reclaim = if crossed_back && crossed_before {
        Num::of(ONE)
    } else {
        Num::of(ZERO)
    };
    clamp01(
        Num::of(VWAP_BLEND_KERNEL) * kernel + Num::of(VWAP_BLEND_SLOPE) * unit_from_signed(slope)
            + Num::of(VWAP_BLEND_RECLAIM) * reclaim,
    )
}

fn volume_block(candles: &Vec<Candle>) -> (v: Num)
    requires
        candles@.len() > 0,
    ensures
        v == volume_full(candles@),
{
    let n: usize = candles.len();
    let now = technicals::rvol(candles, n - 1, RVOL_BASELINE_BARS);
    let sum = if n > RVOL_TREND_LOOKBACK {
        let mut prior: Vec<Num> = Vec::new();
        let mut k: usize = 0;
        while k < RVOL_TREND_LOOKBACK
            invariant
                n == candles@.len(),
                RVOL_TREND_LOOKBACK < n,
                k <= RVOL_TREND_LOOKBACK,
                prior@.len() == k,
                forall|j: int| 0 <= j < k ==> prior@[j] == prior_rvols(candles@)[j],
            decreases RVOL_TREND_LOOKBACK - k,
        {
            prior.push(
                technicals::rvol(candles, n - 1 - RVOL_TREND_LOOKBACK + k, RVOL_BASELINE_BARS),
            );
            k = k + 1;
        }
        proof {
            assert(prior@ =~= prior_rvols(candles@));
        }
        sums::total(&prior)
    } else {
        Num::of(RVOL_TREND_DEFAULT_SUM)
    };
    let trend = sign_of(now - sum / Num::of(RVOL_TREND_COUNT));
    let prev = if n >= 2 {
        candles[n - 2].volume
    } else {
        Num::of(ONE)
    };
    let denom = if prev <= Num::of(ZERO) {
        Num::of(ONE)
    } else {
        prev
    };
    let accel = ((candles[n - 1].volume - prev) / denom).clamp(Num::of(MINUS_ONE), Num::of(ONE));
    clamp01(
        Num::of(VOLUME_BLEND_BASE) * volume01(now) + Num::of(VOLUME_BLEND_TREND)
            * unit_from_signed(trend) + Num::of(VOLUME_BLEND_ACCEL) * unit_from_signed(accel),
    )
}

fn to_sub_score(unit: Num) -> (r: u8)
    ensures
        r == sub_score(unit),
{
    round_to_u8(unit * Num::of(SUB_SCORE_SCALE), 0, SUB_SCORE_MAX)
}

/// Scores one direction; `t` holds the machine's values at the points of `score_args`.
pub fn system_score(candles: &Vec<Candle>, dir: Num, atr_fallback: Num, t: &ScoreTerms) -> (r:
    SystemScore)
    ensures
        r == SystemScore::of_series(candles@, dir, atr_fallback, *t),
{
    let n: usize = candles.len();
    if n == 0 {
        return SystemScore::neutral();
    }
    let rsis = technicals::wilder_rsi(candles, WILDER_PERIOD_DEFAULT);
    let atrs = technicals::wilder_atr(candles, WILDER_PERIOD_DEFAULT);
    let vwaps = technicals::session_vwap(candles);
    let rd = read_series(candles, &rsis, &atrs, &vwaps, dir, atr_fallback);
    let pivots = technicals::fractal_pivots(candles, FRACTAL_HALF_WINDOW);
    let s = technicals::structure01(&pivots, rd.atr, dir);
    let m = momentum01(rd.mom_vel, rd.rsi_slope, t.momentum_tanh);
    let w = vwap_block(candles, &vwaps, dir, &rd, t.vwap_exp);
    let v = volume_block(candles);
    let before = if n > MOM_LOOKBACK {
        value_or(atrs[n - 1 - MOM_LOOKBACK], Num::of(ATR_FALLBACK))
    } else {
        value_or(atrs[0], Num::of(ATR_FALLBACK))
    };
    let growth = clamp01(
        (rd.atr / num_or(before, Num::of(ONE)) - Num::of(ONE)) / Num::of(ATR_EXPANSION_SCALE),
    );
    let d = unit_from_signed(dir * (candles[n - 1].close - rd.vwap) / rd.atr_div);
    let stability = (Num::of(THESIS_MAX) * (Num::of(THESIS_W_STRUCT) * s + Num::of(THESIS_W_MOM) * m
        + Num::of(THESIS_W_VWAP) * w + Num::of(THESIS_W_VOLUME) * v + Num::of(THESIS_W_DEALER)
        * d)).clamp(Num::of(THESIS_MIN), Num::of(THESIS_MAX));
    let accel = unit_from_signed(
        (rd.mom_vel / Num::of(MOM_ACCEL_SCALE)).clamp(Num::of(MINUS_ONE), Num::of(ONE)),
    );
    let struct_sub: u8 = to_sub_score(s);
    SystemScore {
        total: round_to_u8(stability, TOTAL_SCORE_MIN, TOTAL_SCORE_MAX),
        structure_quality: struct_sub,
        displacement_quality: struct_sub,
        volume_expansion: to_sub_score(v),
        rsi_cascade: to_sub_score(m),
        vwap_alignment: to_sub_score(w),
        liquidity_sweep: to_sub_score(d),
        htf_agreement: round_to_u8(stability / Num::of(SUB_SCORE_SCALE), 0, SUB_SCORE_MAX),
        volatility_regime: to_sub_score(growth),
        premium_discount: to_sub_score(Num::of(ONE) - w),
        momentum_acceleration: to_sub_score(accel),
    }
}

impl ThesisReadout {
    /// The readout of the two directional scores.
    pub open spec fn of_scores(
        long: SystemScore,
        short: SystemScore,
        previous: BinaryState,
    ) -> ThesisReadout {
        let top = if long.total > short.total {
            long.total
        } else {
            short.total
        };
        ThesisReadout {
            long_score: long.total,
            short_score: short.total,
            direction: if long.total > short.total {
                1
            } else if long.total < short.total {
                (-1) as i8
            } else {
                0
            },
            dominant: if long.total < short.total {
                short
            } else {
                long
            },
            engagement: Readout::resolved_from(
                engagement_band(),
                Num::whole(false, top as nat).fdiv(Num::of(THESIS_MAX)),
                previous,
            ),
        }
    }
}

/// Scores both directions on a cold start.
pub fn thesis(
    candles: &Vec<Candle>,
    atr_fallback: Num,
    long_terms: &ScoreTerms,
    short_terms: &ScoreTerms,
) -> (r: ThesisReadout)
    ensures
        r == ThesisReadout::of_scores(
            SystemScore::of_series(candles@, Num::of(DIR_LONG), atr_fallback, *long_terms),
            SystemScore::of_series(candles@, Num::of(DIR_SHORT), atr_fallback, *short_terms),
            BinaryState::Inactive,
        ),
{
    thesis_from(candles, atr_fallback, long_terms, short_terms, BinaryState::Inactive)
}

/// Scores both directions, carrying the previous engagement forward.
pub fn thesis_from(
    candles: &Vec<Candle>,
    atr_fallback: Num,
    long_terms: &ScoreTerms,
    short_terms: &ScoreTerms,
    previous: BinaryState,
) -> (r: ThesisReadout)
    ensures
        r == ThesisReadout::of_scores(
            SystemScore::of_series(candles@, Num::of(DIR_LONG), atr_fallback, *long_terms),
            SystemScore::of_series(candles@, Num::of(DIR_SHORT), atr_fallback, *short_terms),
            previous,
        ),
{
    let long = system_score(candles, Num::of(DIR_LONG), atr_fallback, long_terms);
    let short = system_score(candles, Num::of(DIR_SHORT), atr_fallback, short_terms);
    resolve_thesis(&long, &short, previous)
}

/// Puts the two directional scores together.
pub fn resolve_thesis(long: &SystemScore, short: &SystemScore, previous: BinaryState) -> (r:
    ThesisReadout)
    ensures
        r == ThesisReadout::of_scores(*long, *short, previous),
{
    let (direction, dominant) = if long.total > short.total {
        (1i8, *long)
    } else if long.total < short.total {
        (-1i8, *short)
    } else {
        (0i8, *long)
    };
    let top: u8 = if long.total > short.total {
        long.total
    } else {
        short.total
    };
    let score = Num::from_u64(top as u64) / Num::of(THESIS_MAX);
    let engagement = Readout::resolve_from(&engagement_band(), score, previous);
    ThesisReadout {
        long_score: long.total,
        short_score: short.total,
        direction,
        dominant,
        engagement,
    }
}

/// Whatever the candles hold, every sub-score is at most 10 and the total lies
/// between 1 and 100.
pub proof fn law_scores_bounded(c: Seq<Candle>, dir: Num, atr_fallback: Num, t: ScoreTerms)
    ensures
        ({
            let s = SystemScore::of_series(c, dir, atr_fallback, t);
            &&& 1 <= s.total <= 100
            &&& s.structure_quality <= 10
            &&& s.displacement_quality <= 10
            &&& s.volume_expansion <= 10
            &&& s.rsi_cascade <= 10
            &&& s.vwap_alignment <= 10
            &&& s.liquidity_sweep <= 10
            &&& s.htf_agreement <= 10
            &&& s.volatility_regime <= 10
            &&& s.premium_discount <= 10
            &&& s.momentum_acceleration <= 10
        }),
{
    assert forall|v: Num| rounded_u8(v, 0, SUB_SCORE_MAX) <= 10 by {
        law_rounded_score_in_bounds(v, 0, SUB_SCORE_MAX);
    }
    assert forall|v: Num| 1 <= #[trigger] rounded_u8(v, TOTAL_SCORE_MIN, TOTAL_SCORE_MAX)
        <= 100 by {
        law_rounded_score_in_bounds(v, TOTAL_SCORE_MIN, TOTAL_SCORE_MAX);
    }
}

/// The direction is the sign of the score difference, and the dominant side
/// is the one that scores higher.
pub proof fn law_direction_is_the_dominant_side(
    long: SystemScore,
    short: SystemScore,
    p: BinaryState,
)
    ensures
        ({
            let r = ThesisReadout::of_scores(long, short, p);
            &&& r.direction > 0 <==> r.long_score > r.short_score
            &&& r.direction < 0 <==> r.long_score < r.short_score
            &&& r.dominant.total >= r.long_score
            &&& r.dominant.total >= r.short_score
        }),
{
}

/// A number moved between two others, in real numbers.
pub open spec fn between(x: real, lo: real, hi: real) -> real {
    if x < lo {
        lo
    } else if x > hi {
        hi
    } else {
        x
    }
}

/// The points that five parts are worth: 25 of structure, 25 of momentum, 20 of
/// VWAP, 15 of volume and 15 of the dealer.
pub open spec fn points(s: real, m: real, w: real, v: real, d: real) -> real {
    25real * s + 25real * m + 20real * w + 15real * v + 15real * d
}

/// Thesis stability never falls as any of its five parts rises.
pub proof fn law_stability_rises_with_its_parts(
    s: Num,
    m: Num,
    w: Num,
    v: Num,
    d: Num,
    s2: Num,
    m2: Num,
    w2: Num,
    v2: Num,
    d2: Num,
)
    requires
        risk::in_unit(s) && risk::in_unit(s2) && s.fle(s2),
        risk::in_unit(m) && risk::in_unit(m2) && m.fle(m2),
        risk::in_unit(w) && risk::in_unit(w2) && w.fle(w2),
        risk::in_unit(v) && risk::in_unit(v2) && v.fle(v2),
        risk::in_unit(d) && risk::in_unit(d2) && d.fle(d2),
    ensures
        stability_of(s, m, w, v, d).fle(stability_of(s2, m2, w2, v2, d2)),
{
    let (ws, wm, ww, wv, wd, top) = (
        Num::of(THESIS_W_STRUCT),
        Num::of(THESIS_W_MOM),
        Num::of(THESIS_W_VWAP),
        Num::of(THESIS_W_VOLUME),
        Num::of(THESIS_W_DEALER),
        Num::of(THESIS_MAX),
    );
    lemma_blend(s, m, w, v, d);
    lemma_blend(s2, m2, w2, v2, d2);
    algebra::lemma_weight_order(ws, s, s2);
    algebra::lemma_weight_order(wm, m, m2);
    algebra::lemma_weight_order(ww, w, w2);
    algebra::lemma_weight_order(wv, v, v2);
    algebra::lemma_weight_order(wd, d, d2);
    let (a, b) = (ws.fmul(s).fadd(wm.fmul(m)), ws.fmul(s2).fadd(wm.fmul(m2)));
    let (a3, b3) = (a.fadd(ww.fmul(w)), b.fadd(ww.fmul(w2)));
    let (a4, b4) = (a3.fadd(wv.fmul(v)), b3.fadd(wv.fmul(v2)));
    algebra::lemma_sum_order(ws.fmul(s), wm.fmul(m), ws.fmul(s2), wm.fmul(m2));
    algebra::lemma_sum_order(a, ww.fmul(w), b, ww.fmul(w2));
    algebra::lemma_sum_order(a3, wv.fmul(v), b3, wv.fmul(v2));
    algebra::lemma_sum_order(a4, wd.fmul(d), b4, wd.fmul(d2));
    algebra::lemma_weight_order(top, a4.fadd(wd.fmul(d)), b4.fadd(wd.fmul(d2)));
}

/// A part of the unit is close to itself.
proof fn lemma_unit(v: Num)
    requires
        risk::in_unit(v),
    ensures
        closeness::close(v, v.exact(), 0real, 1real),
        v.finite(),
        0real <= v.exact() <= 1real,
{
    let (zero, one) = (Num::of(ZERO), Num::of(ONE));
    exact::lemma_exact_zero(zero);
    lemma2_to64_rest();
    decimal::lemma_decimal(ONE, 1, 1, 52);
    exact::lemma_exact_order(zero, v);
    exact::lemma_exact_order(v, one);
    closeness::lemma_close_self(v, 1real);
}

/// One is not huge.
proof fn lemma_huge()
    ensures
        closeness::huge() >= 1_000_000real,
{
    lemma2_to64_rest();
    lemma_pow2_strictly_increases(53, 400);
}

/// The weights are what they are written as, and sum and product of five parts
/// are close to those of the real numbers.
proof fn lemma_blend(s: Num, m: Num, w: Num, v: Num, d: Num)
    requires
        risk::in_unit(s),
        risk::in_unit(m),
        risk::in_unit(w),
        risk::in_unit(v),
        risk::in_unit(d),
    ensures
        ({
            let (a, b) = (Num::of(THESIS_W_STRUCT).fmul(s), Num::of(THESIS_W_MOM).fmul(m));
            let (c, f, g) = (
                Num::of(THESIS_W_VWAP).fmul(w),
                Num::of(THESIS_W_VOLUME).fmul(v),
                Num::of(THESIS_W_DEALER).fmul(d),
            );
            let sum = a.fadd(b).fadd(c).fadd(f).fadd(g);
            &&& a.finite() && b.finite() && c.finite() && f.finite() && g.finite()
            &&& a.fadd(b).finite() && a.fadd(b).fadd(c).finite()
            &&& a.fadd(b).fadd(c).fadd(f).finite() && sum.finite()
            &&& s.finite() && m.finite() && w.finite() && v.finite() && d.finite()
            &&& closeness::close(
                Num::of(THESIS_MAX).fmul(sum),
                points(s.exact(), m.exact(), w.exact(), v.exact(), d.exact()),
                15real,
                500real,
            )
        }),
{
    lemma_unit(s);
    lemma_unit(m);
    lemma_unit(w);
    lemma_unit(v);
    lemma_unit(d);
    lemma_huge();
    lemma_weights();
    let (ws, wm, ww, wv, wd, top) = (
        Num::of(THESIS_W_STRUCT),
        Num::of(THESIS_W_MOM),
        Num::of(THESIS_W_VWAP),
        Num::of(THESIS_W_VOLUME),
        Num::of(THESIS_W_DEALER),
        Num::of(THESIS_MAX),
    );
    let (x, y, z, p, q) = (s.exact(), m.exact(), w.exact(), v.exact(), d.exact());
    let (a, b, c, f, g) = (ws.fmul(s), wm.fmul(m), ww.fmul(w), wv.fmul(v), wd.fmul(d));
    closeness::lemma_product(ws, 1real / 4real, s, x, 1real, 0real, 1real, 1real);
    closeness::lemma_product(wm, 1real / 4real, m, y, 1real, 0real, 1real, 1real);
    closeness::lemma_product(ww, 1real / 5real, w, z, 1real, 0real, 1real, 1real);
    closeness::lemma_product(wv, 3real / 20real, v, p, 1real, 0real, 1real, 1real);
    closeness::lemma_product(wd, 3real / 20real, d, q, 1real, 0real, 1real, 1real);
    let (x, y, z, p, q) = (
        (1real / 4real) * x,
        (1real / 4real) * y,
        (1real / 5real) * z,
        (3real / 20real) * p,
        (3real / 20real) * q,
    );
    closeness::lemma_sum(a, x, b, y, 4real, 1real, 1real);
    closeness::lemma_close_more(c, z, 4real, 6real, 1real, 1real);
    closeness::lemma_sum(a.fadd(b), x + y, c, z, 6real, 2real, 1real);
    closeness::lemma_close_more(f, p, 4real, 8real, 1real, 1real);
    closeness::lemma_sum(a.fadd(b).fadd(c), x + y + z, f, p, 8real, 3real, 1real);
    closeness::lemma_close_more(g, q, 4real, 10real, 1real, 1real);
    closeness::lemma_sum(a.fadd(b).fadd(c).fadd(f), x + y + z + p, g, q, 10real, 4real, 1real);
    let sum = a.fadd(b).fadd(c).fadd(f).fadd(g);
    closeness::lemma_product(top, 100real, sum, x + y + z + p + q, 0real, 12real, 100real, 5real);
}

/// The weights are 0.25, 0.25, 0.2, 0.15 and 0.15, of a hundred.
proof fn lemma_weights()
    ensures
        closeness::close(Num::of(THESIS_W_STRUCT), 1real / 4real, 1real, 1real),
        closeness::close(Num::of(THESIS_W_MOM), 1real / 4real, 1real, 1real),
        closeness::close(Num::of(THESIS_W_VWAP), 1real / 5real, 1real, 1real),
        closeness::close(Num::of(THESIS_W_VOLUME), 3real / 20real, 1real, 1real),
        closeness::close(Num::of(THESIS_W_DEALER), 3real / 20real, 1real, 1real),
        closeness::close(Num::of(THESIS_MAX), 100real, 0real, 100real),
{
    lemma2_to64_rest();
    decimal::lemma_decimal(THESIS_W_STRUCT, 1, 4, 54);
    decimal::lemma_decimal(THESIS_W_MOM, 1, 4, 54);
    decimal::lemma_decimal(THESIS_W_VWAP, 1, 5, 55);
    decimal::lemma_decimal(THESIS_W_VOLUME, 3, 20, 55);
    decimal::lemma_decimal(THESIS_W_DEALER, 3, 20, 55);
    decimal::lemma_decimal(THESIS_MAX, 100, 1, 46);
    closeness::lemma_close_self(Num::of(THESIS_MAX), 100real);
}

/// Thesis stability is the points of its parts, moved between 1 and 100, up to
/// rounding: 100 where all five are one, and 1 where all are zero.
pub proof fn law_stability_weighs_its_parts(s: Num, m: Num, w: Num, v: Num, d: Num)
    requires
        risk::in_unit(s),
        risk::in_unit(m),
        risk::in_unit(w),
        risk::in_unit(v),
        risk::in_unit(d),
    ensures
        ({
            let r = stability_of(s, m, w, v, d);
            let x = points(s.exact(), m.exact(), w.exact(), v.exact(), d.exact());
            &&& r.finite()
            &&& 1real <= r.exact() <= 100real
            &&& exact::rabs(r.exact() - between(x, 1real, 100real)) <= 7500real * exact::eps()
        }),
{
    lemma_blend(s, m, w, v, d);
    lemma2_to64_rest();
    decimal::lemma_decimal(THESIS_MAX, 100, 1, 46);
    decimal::lemma_decimal(THESIS_MIN, 1, 1, 52);
    let (lo, hi) = (Num::of(THESIS_MIN), Num::of(THESIS_MAX));
    let sum = Num::of(THESIS_W_STRUCT).fmul(s).fadd(Num::of(THESIS_W_MOM).fmul(m)).fadd(
        Num::of(THESIS_W_VWAP).fmul(w),
    ).fadd(Num::of(THESIS_W_VOLUME).fmul(v)).fadd(Num::of(THESIS_W_DEALER).fmul(d));
    let p = hi.fmul(sum);
    exact::lemma_exact_order(p, lo);
    exact::lemma_exact_order(hi, p);
}

/// A score is rounded to the nearest whole number, where it lies in its bounds.
pub proof fn law_scores_are_rounded_to_the_nearest(v: Num, lo: u8, hi: u8)
    requires
        Num::whole(false, lo as nat).fle(v),
        v.fle(Num::whole(false, hi as nat)),
        lo <= hi,
    ensures
        exact::rabs(rounded_u8(v, lo, hi) as int as real - v.exact()) <= 1real / 2real,
{
    lemma2_to64_rest();
    integral::lemma_whole_exact(lo as nat);
    integral::lemma_whole_exact(hi as nat);
    exact::lemma_exact_whole(lo as nat);
    exact::lemma_exact_whole(hi as nat);
    if v.negative() {
        // Only -0 is not below the least.
        exact::lemma_exact_zero(Num::of(ZERO));
        exact::lemma_exact_order(v, Num::of(ZERO));
        exact::lemma_exact_order(Num::whole(false, lo as nat), v);
        law_rounded_score_in_bounds(v, lo, hi);
        lemma_minus_zero(v, lo, hi);
    } else {
        integral::lemma_round_between(v, lo as nat, hi as nat);
        let p = pow2(1074);
        let (q, r) = (v.int_part(), v.frac_part());
        let n: nat = if 2 * r >= p {
            q + 1
        } else {
            q
        };
        integral::lemma_int_part_monotone(v, Num::whole(false, hi as nat));
        integral::lemma_whole_exact(n);
        lemma_pow2_pos(1074);
        vstd::arithmetic::div_mod::lemma_fundamental_div_mod(v.size() as int, p as int);
        vstd::arithmetic::div_mod::lemma_mod_bound(v.size() as int, p as int);
        assert(v.fround() == Num::whole(false, n));
        integral::lemma_int_part_monotone(v.fround(), Num::whole(false, hi as nat));
        assert(n <= hi);
        assert(v.fround().trunc_u64() == n);
        reveal(Num::exact);
        exact::lemma_units_positive();
        exact::lemma_real_mul(q as int, p as int);
        let (x, y, u) = (q as int as real, r as int as real, exact::one_units());
        assert(v.units() as real == x * u + y) by {
            assert(p * q == q * p) by (nonlinear_arith);
        }
        assert((x * u + y) / u == x + y / u && (2real * y >= u ==> y / u >= 1real / 2real) && (2real
            * y < u ==> y / u < 1real / 2real) && y / u >= 0real && (y < u ==> y / u < 1real))
            by (nonlinear_arith)
            requires
                u >= 1real,
                y >= 0real,
        {
            let z = y / u;
            assert(z * u == y);
            assert((x + z) * u == x * u + y);
        }
    }
}

/// The rounding of minus zero is zero.
proof fn lemma_minus_zero(v: Num, lo: u8, hi: u8)
    requires
        v.negative(),
        v.finite(),
        v.exact() >= lo as int as real,
        lo <= hi,
    ensures
        rounded_u8(v, lo, hi) == 0,
        v.exact() == 0real,
{
    exact::lemma_exact_zero(Num::of(ZERO));
    exact::lemma_exact_order(v, Num::of(ZERO));
    arith::lemma_zero_size(v);
    exact::lemma_exact_order(Num::of(ZERO), v);
    lemma_pow2_pos(1074);
    assert(v.size() == 0);
    assert(v.int_part() == 0 && v.frac_part() == 0) by {
        vstd::arithmetic::div_mod::lemma_fundamental_div_mod_converse(0, pow2(1074) as int, 0, 0);
    }
    lemma2_to64_rest();
    integral::lemma_whole_exact(0);
    integral::lemma_whole_exact(hi as nat);
    reveal(Num::whole);
    arith::lemma_round_zero(1);
    assert(v.fround().mag() == 0);
    integral::lemma_int_part_between(
        v.fround().fclamp(Num::whole(false, lo as nat), Num::whole(false, hi as nat)),
        0,
        0,
    );
}

/// The parts of a score: structure, momentum, VWAP, volume and dealer.
pub open spec fn parts_of(c: Seq<Candle>, dir: Num, atr_fallback: Num, t: ScoreTerms) -> (
    Num,
    Num,
    Num,
    Num,
    Num,
) {
    let r = Reading::of_series(c, dir, atr_fallback);
    (
        series_structure(c, r.atr, dir),
        momentum_from(r.mom_vel, r.rsi_slope, t.momentum_tanh),
        vwap_full(c, dir, r, t.vwap_exp),
        volume_full(c),
        signed_to_unit(dir.fmul(c.last().close.fsub(r.vwap)).fdiv(r.atr_div)),
    )
}

/// A sub-score is ten times its part, to the nearest.
pub proof fn law_sub_scores_are_tenths(u: Num)
    requires
        risk::in_unit(u),
    ensures
        exact::rabs(sub_score(u) as int as real - 10real * u.exact()) <= 1real / 2real + 40real
            * exact::eps(),
{
    let ten = Num::of(SUB_SCORE_SCALE);
    lemma_unit(u);
    lemma_huge();
    lemma2_to64_rest();
    decimal::lemma_decimal(SUB_SCORE_SCALE, 10, 1, 49);
    closeness::lemma_close_self(ten, 10real);
    closeness::lemma_product(u, u.exact(), ten, 10real, 0real, 0real, 1real, 10real);
    let v = u.fmul(ten);
    let (zero, one) = (Num::of(ZERO), Num::of(ONE));
    integral::lemma_whole_exact(0);
    integral::lemma_whole_exact(10);
    exact::lemma_exact_whole(0);
    exact::lemma_exact_whole(10);
    algebra::lemma_weight_order(ten, zero, u);
    algebra::lemma_weight_order(ten, u, one);
    algebra::law_mul_commutes(ten, u);
    algebra::law_mul_one(ten);
    algebra::law_zero_mul(zero, ten);
    algebra::law_mul_commutes(ten, zero);
    exact::lemma_exact_zero(ten.fmul(zero));
    exact::lemma_exact_order(ten.fmul(zero), v);
    exact::lemma_exact_order(v, ten);
    exact::lemma_exact_order(Num::whole(false, 0), v);
    exact::lemma_exact_order(v, Num::whole(false, 10));
    law_scores_are_rounded_to_the_nearest(v, 0, SUB_SCORE_MAX);
}

/// The total of a score is what its sub-scores are worth, up to their rounding:
/// two and a half points for each of structure and momentum, two for each of
/// VWAP, and one and a half for each of volume and dealer.
pub proof fn law_total_is_the_worth_of_the_sub_scores(
    c: Seq<Candle>,
    dir: Num,
    atr_fallback: Num,
    t: ScoreTerms,
)
    requires
        c.len() > 0,
        ({
            let (s, m, w, v, d) = parts_of(c, dir, atr_fallback, t);
            risk::in_unit(s) && risk::in_unit(m) && risk::in_unit(w) && risk::in_unit(v)
                && risk::in_unit(d)
        }),
    ensures
        ({
            let r = SystemScore::of_series(c, dir, atr_fallback, t);
            let x = (25real * (r.structure_quality as int as real) + 25real * (
            r.rsi_cascade as int as real) + 20real * (r.vwap_alignment as int as real) + 15real * (
            r.volume_expansion as int as real) + 15real * (r.liquidity_sweep as int as real)) / 10real;
            &&& x - 6real <= r.total as int as real <= x + 6real
            &&& r.displacement_quality == r.structure_quality
            &&& 9 <= r.premium_discount + r.vwap_alignment <= 11
        }),
{
    let r = SystemScore::of_series(c, dir, atr_fallback, t);
    let (s, m, w, v, d) = parts_of(c, dir, atr_fallback, t);
    let y = stability_of(s, m, w, v, d);
    law_stability_weighs_its_parts(s, m, w, v, d);
    law_sub_scores_are_tenths(s);
    law_sub_scores_are_tenths(m);
    law_sub_scores_are_tenths(w);
    law_sub_scores_are_tenths(v);
    law_sub_scores_are_tenths(d);
    lemma_unit(s);
    lemma_unit(m);
    lemma_unit(w);
    lemma_unit(v);
    lemma_unit(d);
    lemma2_to64_rest();
    integral::lemma_whole_exact(1);
    integral::lemma_whole_exact(100);
    exact::lemma_exact_whole(1);
    exact::lemma_exact_whole(100);
    exact::lemma_exact_order(Num::whole(false, 1), y);
    exact::lemma_exact_order(y, Num::whole(false, 100));
    law_scores_are_rounded_to_the_nearest(y, TOTAL_SCORE_MIN, TOTAL_SCORE_MAX);
    // The premium is what the VWAP leaves.
    let one = Num::of(ONE);
    risk::lemma_complement(w);
    let rest = one.fsub(w);
    lemma_unit(rest);
    decimal::lemma_decimal(ONE, 1, 1, 52);
    exact::lemma_exact_neg(w);
    exact::lemma_exact_add(one, w.fneg());
    exact::lemma_times(exact::rabs(1real - w.exact()), 1real, exact::eps());
    law_sub_scores_are_tenths(rest);
}

} // verus!
