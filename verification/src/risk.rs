//! Risk scores of a trade idea: historical tail risk, liquidity of a quote, and
//! trust in the model.
//!
//! Every input is measured by the caller.  Histories may be empty: no losses
//! read as no tail risk, fewer than two mids as a stable quote, no forecast
//! errors as the declared prior.

use crate::algebra;
use crate::arith;
use crate::consts::{HUNDRED, NEG_INFINITY, ONE, TWO, ZERO};
use crate::exact;
use crate::integral;
use crate::num::Num;
use crate::rounding;
use crate::sorting;
use crate::stats;
use crate::sums;
use vstd::arithmetic::power2::*;
use vstd::prelude::*;

verus! {

/// Least count that a logarithm is taken of.
pub const LIQ_COUNT_FLOOR: u64 = 1;

/// Least sample count that a logarithm is taken of.
pub const SAMPLE_COUNT_FLOOR: u64 = 1;

/// Tail level, percent (95.0).
pub const VAR_LEVEL_95: u64 = 0x4057_C000_0000_0000;

/// Deep tail level, percent (99.0).
pub const VAR_LEVEL_99: u64 = 0x4058_C000_0000_0000;

/// Shortfall of a full tail-risk score (1.0).
pub const ES_MAX_DEFAULT: u64 = 0x3FF0_0000_0000_0000;

/// Worst loss of an empty history (1.0).
pub const DEFAULT_WORST_LOSS: u64 = 0x3FF0_0000_0000_0000;

/// Spread at which its score is zero, fraction of mid (0.1).
pub const SPREAD_MAX_PCT: u64 = 0x3FB9_9999_9999_999A;

/// Spread where the mid is not positive, fraction (0.05).
pub const SPREAD_FALLBACK: u64 = 0x3FA9_9999_9999_999A;

/// Decades of contracts that saturate a score (4.0).
pub const LOG_LIQ_SCALE: u64 = 0x4010_0000_0000_0000;

/// Relative variance at which stability is zero (0.05).
pub const STABILITY_MAX_DEFAULT: u64 = 0x3FA9_9999_9999_999A;

/// Weight of the spread (0.4).
pub const LIQ_W_SPREAD: u64 = 0x3FD9_9999_9999_999A;

/// Weight of the volume (0.25).
pub const LIQ_W_VOLUME: u64 = 0x3FD0_0000_0000_0000;

/// Weight of the open interest (0.25).
pub const LIQ_W_OI: u64 = 0x3FD0_0000_0000_0000;

/// Weight of quote stability (0.1).
pub const LIQ_W_STABILITY: u64 = 0x3FB9_9999_9999_999A;

/// Mean absolute error without forecast history (0.12).
pub const DEFAULT_FORECAST_MAE: u64 = 0x3FBE_B851_EB85_1EB8;

/// Error of a full forecast-error term (0.15).
pub const FORECAST_ERROR_SCALE_DEFAULT: u64 = 0x3FC3_3333_3333_3333;

/// Variance at which prediction stability is zero (0.04).
pub const PRED_VAR_MAX_DEFAULT: u64 = 0x3FA4_7AE1_47AE_147B;

/// Decades of samples that score zero (1.0).
pub const SAMPLE_LOG_OFFSET: u64 = 0x3FF0_0000_0000_0000;

/// Decades of samples from zero to full score (2.0).
pub const SAMPLE_LOG_SPAN: u64 = 0x4000_0000_0000_0000;

/// Weight of calibration (0.3).
pub const TRUST_W_CALIBRATION: u64 = 0x3FD3_3333_3333_3333;

/// Weight of forecast accuracy (0.2).
pub const TRUST_W_FORECAST: u64 = 0x3FC9_9999_9999_999A;

/// Weight of prediction stability (0.2).
pub const TRUST_W_STABILITY: u64 = 0x3FC9_9999_9999_999A;

/// Weight of sample strength (0.15).
pub const TRUST_W_SAMPLE: u64 = 0x3FC3_3333_3333_3333;

/// Weight of recent performance (0.15).
pub const TRUST_W_RECENT: u64 = 0x3FC3_3333_3333_3333;

/// Least score of grade A (0.8).
pub const GRADE_A_MIN: u64 = 0x3FE9_9999_9999_999A;

/// Least score of grade B (0.6).
pub const GRADE_B_MIN: u64 = 0x3FE3_3333_3333_3333;

/// Least score of grade C (0.4).
pub const GRADE_C_MIN: u64 = 0x3FD9_9999_9999_999A;

/// Least score of grade D (0.2).
pub const GRADE_D_MIN: u64 = 0x3FC9_9999_9999_999A;

/// Errors of the risk scores: a scale that makes a score undefined, or an input
/// that is not finite.
#[derive(Debug, Clone, Copy, PartialEq)]
pub enum RiskError {
    /// The shortfall scale is not finite and positive.
    InvalidEsMax(Num),
    /// The stability ceiling is not finite and positive.
    InvalidStabilityMax(Num),
    /// The forecast scale is not finite and positive.
    InvalidForecastScale(Num),
    /// The variance ceiling is not finite and positive.
    InvalidPredVarMax(Num),
    /// An input is not finite; the field is named.
    NonFiniteInput(&'static str),
}

/// Tail risk over similar trades, in fractional losses.
#[derive(Debug, Clone, Copy, PartialEq)]
pub struct TailRisk {
    /// Loss at the 95th percentile.
    pub var95: Num,
    /// Loss at the 99th percentile.
    pub var99: Num,
    /// Mean loss at or beyond the 95th percentile.
    pub es95: Num,
    /// Mean loss at or beyond the 99th percentile.
    pub es99: Num,
    /// Worst loss.
    pub worst: Num,
    /// Score in `[0, 1]`.
    pub score: Num,
}

/// Liquidity of a quote; sub-scores in `[0, 1]`.
#[derive(Debug, Clone, Copy, PartialEq)]
pub struct LiquidityScore {
    /// Blend, from 0 to 100.
    pub total: Num,
    /// Spread.
    pub spread: Num,
    /// Volume.
    pub volume: Num,
    /// Open interest.
    pub oi: Num,
    /// Quote stability.
    pub stability: Num,
}

/// The parts of model trust, each in `[0, 1]`, higher is better.
#[derive(Debug, Clone, Copy, PartialEq)]
pub struct TrustComponents {
    /// Calibration.
    pub calibration: Num,
    /// Forecast accuracy.
    pub forecast_accuracy: Num,
    /// Prediction stability.
    pub prediction_stability: Num,
    /// Sample strength.
    pub sample_strength: Num,
    /// Recent performance.
    pub recent_performance: Num,
}

/// Letter grade of a trust score.
#[derive(Debug, Clone, Copy, PartialEq, Eq, Structural)]
pub enum TrustGrade {
    /// At least 0.80.
    A,
    /// At least 0.60.
    B,
    /// At least 0.40.
    C,
    /// At least 0.20.
    D,
    /// Below.
    F,
}

/// Model trust.
#[derive(Debug, Clone, Copy, PartialEq)]
pub struct ModelTrust {
    /// Score in `[0, 1]`.
    pub score: Num,
    /// Grade of the score.
    pub grade: TrustGrade,
    /// The parts of the score.
    pub components: TrustComponents,
}

/// A number moved into `[0, 1]`.
pub open spec fn unit(v: Num) -> Num {
    v.fclamp(Num::of(ZERO), Num::of(ONE))
}

fn clamp01(v: Num) -> (r: Num)
    ensures
        r == unit(v),
{
    v.clamp(Num::of(ZERO), Num::of(ONE))
}

/// Finite and positive.
pub open spec fn good_scale(v: Num) -> bool {
    v.finite() && !v.fle(Num::of(ZERO))
}

fn is_good_scale(v: Num) -> (r: bool)
    ensures
        r == good_scale(v),
{
    v.is_finite() && !(v <= Num::of(ZERO))
}

/// The finite values of a sequence.
pub open spec fn finite_only(xs: Seq<Num>) -> Seq<Num>
    decreases xs.len(),
{
    if xs.len() == 0 {
        Seq::empty()
    } else {
        let rest = finite_only(xs.drop_last());
        if xs.last().finite() {
            rest.push(xs.last())
        } else {
            rest
        }
    }
}

fn keep_finite(xs: &Vec<Num>) -> (r: Vec<Num>)
    ensures
        r@ == finite_only(xs@),
{
    let mut r: Vec<Num> = Vec::new();
    let mut i: usize = 0;
    proof {
        assert(xs@.take(0) =~= Seq::<Num>::empty());
    }
    while i < xs.len()
        invariant
            i <= xs@.len(),
            r@ == finite_only(xs@.take(i as int)),
        decreases xs@.len() - i,
    {
        proof {
            assert(xs@.take(i + 1).drop_last() =~= xs@.take(i as int));
        }
        if xs[i].is_finite() {
            r.push(xs[i]);
        }
        i = i + 1;
    }
    proof {
        assert(xs@.take(i as int) =~= xs@);
    }
    r
}

/// Rank of a percentage among `n` values.
pub open spec fn percent_rank(pct: Num, n: nat) -> Num {
    let top = Num::whole(false, (n - 1) as nat);
    pct.fclamp(Num::of(ZERO), Num::of(HUNDRED)).fdiv(Num::of(HUNDRED)).fmul(top).fclamp(
        Num::of(ZERO),
        top,
    )
}

/// A whole rank as an index; one beyond the last counts as the last.
pub open spec fn index_at(rank: Num, n: nat) -> nat {
    let k = rank.trunc_u64();
    if k < n - 1 {
        k as nat
    } else {
        (n - 1) as nat
    }
}

/// Percentile of some values: linear between the order statistics around its rank.
pub open spec fn percentile_of(values: Seq<Num>, pct: Num) -> Num {
    let n = values.len();
    if n == 0 {
        Num::of(ZERO)
    } else {
        let s = sorting::sorted(values);
        let rank = percent_rank(pct, n);
        let lo = index_at(rank.ffloor(), n);
        let hi = index_at(rank.fceil(), n);
        if lo == hi {
            s[lo as int]
        } else {
            s[lo as int].fadd(
                rank.fsub(Num::whole(false, lo)).fmul(s[hi as int].fsub(s[lo as int])),
            )
        }
    }
}

/// Percentile of some values at a percentage from 0 to 100; 0 of none.
pub fn percentile(values: &Vec<Num>, pct: Num) -> (r: Num)
    ensures
        r == percentile_of(values@, pct),
{
    let n: usize = values.len();
    if n == 0 {
        return Num::of(ZERO);
    }
    let sorted = sorting::sort(values);
    let top = Num::from_u64((n - 1) as u64);
    proof {
        lemma_whole_not_negative((n - 1) as nat);
    }
    let rank = ((pct.clamp(Num::of(ZERO), Num::of(HUNDRED)) / Num::of(HUNDRED)) * top).clamp(
        Num::of(ZERO),
        top,
    );
    let floor: u64 = rank.floor().to_u64();
    let ceil: u64 = rank.ceil().to_u64();
    let lo: usize = if floor < (n - 1) as u64 {
        floor as usize
    } else {
        n - 1
    };
    let hi: usize = if ceil < (n - 1) as u64 {
        ceil as usize
    } else {
        n - 1
    };
    if lo == hi {
        return sorted[lo];
    }
    let frac = rank - Num::from_u64(lo as u64);
    sorted[lo] + frac * (sorted[hi] - sorted[lo])
}

/// A count is not negative.
proof fn lemma_whole_not_negative(n: nat)
    ensures
        Num::of(ZERO).fle(Num::whole(false, n)),
{
    reveal(Num::whole);
}

/// The losses behind some returns: the finite ones, negated.
pub open spec fn losses_of(trade_returns: Seq<Num>) -> Seq<Num> {
    finite_only(trade_returns).map_values(|r: Num| r.fneg())
}

/// Sum and number of the losses at or beyond a level.
pub open spec fn beyond(losses: Seq<Num>, level: Num) -> (Num, nat)
    decreases losses.len(),
{
    if losses.len() == 0 {
        (Num::of(ZERO), 0)
    } else {
        let (s, c) = beyond(losses.drop_last(), level);
        if level.fle(losses.last()) {
            (s.fadd(losses.last()), c + 1)
        } else {
            (s, c)
        }
    }
}

/// Mean loss at or beyond a level; the level itself where none reaches it.
pub open spec fn shortfall_of(losses: Seq<Num>, level: Num) -> Num {
    let (s, c) = beyond(losses, level);
    if c == 0 {
        level
    } else {
        s.fdiv(Num::whole(false, c))
    }
}

fn expected_shortfall(losses: &Vec<Num>, level: Num) -> (r: Num)
    ensures
        r == shortfall_of(losses@, level),
{
    let mut s = Num::of(ZERO);
    let mut c: u64 = 0;
    let mut i: usize = 0;
    let n: usize = losses.len();
    proof {
        assert(losses@.take(0) =~= Seq::<Num>::empty());
    }
    while i < n
        invariant
            i <= n == losses@.len(),
            c <= i,
            (s, c as nat) == beyond(losses@.take(i as int), level),
        decreases n - i,
    {
        proof {
            assert(losses@.take(i + 1).drop_last() =~= losses@.take(i as int));
        }
        if losses[i] >= level {
            s = s + losses[i];
            c = c + 1;
        }
        i = i + 1;
    }
    proof {
        assert(losses@.take(i as int) =~= losses@);
    }
    if c == 0 {
        level
    } else {
        s / Num::from_u64(c)
    }
}

/// The greatest of some losses, from minus infinity.
pub open spec fn greatest(s: Seq<Num>) -> Num
    decreases s.len(),
{
    if s.len() == 0 {
        Num::of(NEG_INFINITY)
    } else {
        greatest(s.drop_last()).fmax(s.last())
    }
}

fn find_greatest(v: &Vec<Num>) -> (r: Num)
    ensures
        r == greatest(v@),
{
    let mut hi = Num::of(NEG_INFINITY);
    let mut i: usize = 0;
    proof {
        assert(v@.take(0) =~= Seq::<Num>::empty());
    }
    while i < v.len()
        invariant
            i <= v@.len(),
            hi == greatest(v@.take(i as int)),
        decreases v@.len() - i,
    {
        proof {
            assert(v@.take(i + 1).drop_last() =~= v@.take(i as int));
        }
        hi = hi.max(v[i]);
        i = i + 1;
    }
    proof {
        assert(v@.take(i as int) =~= v@);
    }
    hi
}

impl TailRisk {
    /// The tail risk of some losses.
    pub open spec fn of_losses(losses: Seq<Num>, es_max: Num) -> TailRisk {
        let var95 = percentile_of(losses, Num::of(VAR_LEVEL_95));
        let var99 = percentile_of(losses, Num::of(VAR_LEVEL_99));
        let es95 = shortfall_of(losses, var95);
        TailRisk {
            var95,
            var99,
            es95,
            es99: shortfall_of(losses, var99),
            worst: if losses.len() == 0 {
                Num::of(DEFAULT_WORST_LOSS)
            } else {
                greatest(losses)
            },
            score: unit(es95.fdiv(es_max)),
        }
    }
}

/// Tail risk of similar-trade returns; those that are not finite are left out.
pub fn tail_risk(trade_returns: &Vec<Num>, es_max: Num) -> (r: Result<TailRisk, RiskError>)
    ensures
        match r {
            Ok(t) => good_scale(es_max) && t == TailRisk::of_losses(
                losses_of(trade_returns@),
                es_max,
            ),
            Err(e) => !good_scale(es_max) && e == RiskError::InvalidEsMax(es_max),
        },
{
    if !is_good_scale(es_max) {
        return Err(RiskError::InvalidEsMax(es_max));
    }
    let finite = keep_finite(trade_returns);
    let mut losses: Vec<Num> = Vec::new();
    let mut i: usize = 0;
    while i < finite.len()
        invariant
            i <= finite@.len(),
            losses@ == finite@.take(i as int).map_values(|r: Num| r.fneg()),
        decreases finite@.len() - i,
    {
        losses.push(finite[i].neg());
        i = i + 1;
        proof {
            assert(losses@ =~= finite@.take(i as int).map_values(|r: Num| r.fneg()));
        }
    }
    proof {
        assert(finite@.take(i as int) =~= finite@);
    }
    let var95 = percentile(&losses, Num::of(VAR_LEVEL_95));
    let var99 = percentile(&losses, Num::of(VAR_LEVEL_99));
    let es95 = expected_shortfall(&losses, var95);
    let es99 = expected_shortfall(&losses, var99);
    let worst = if losses.len() == 0 {
        Num::of(DEFAULT_WORST_LOSS)
    } else {
        find_greatest(&losses)
    };
    Ok(TailRisk { var95, var99, es95, es99, worst, score: clamp01(es95 / es_max) })
}

/// Sample variance of the finite values; 0 of fewer than two.
pub open spec fn finite_variance(xs: Seq<Num>) -> Num {
    let f = finite_only(xs);
    if f.len() < 2 {
        Num::of(ZERO)
    } else {
        sums::sum(stats::squared_deviations(f, stats::mean_of(f))).fdiv(
            Num::whole(false, (f.len() - 1) as nat),
        )
    }
}

fn sample_variance(xs: &Vec<Num>) -> (r: Num)
    ensures
        r == finite_variance(xs@),
{
    let finite = keep_finite(xs);
    let n: usize = finite.len();
    if n < 2 {
        return Num::of(ZERO);
    }
    let mean = stats::sample_mean(&finite);
    stats::squared_deviation_sum(&finite, mean) / Num::from_u64((n - 1) as u64)
}

/// Values over their mean.
pub open spec fn relative(xs: Seq<Num>) -> Seq<Num> {
    xs.map_values(|m: Num| m.fdiv(stats::mean_of(xs)))
}

/// Stability of a quote: from the variance of its mids relative to their mean.
pub open spec fn stability_of(mids: Seq<Num>, stability_max: Num) -> Num {
    let f = finite_only(mids);
    if f.len() < 2 {
        Num::of(ONE)
    } else if stats::mean_of(f).fle(Num::of(ZERO)) {
        Num::of(ZERO)
    } else {
        unit(Num::of(ONE).fsub(finite_variance(relative(f)).fdiv(stability_max)))
    }
}

fn quote_stability(mids: &Vec<Num>, stability_max: Num) -> (r: Num)
    ensures
        r == stability_of(mids@, stability_max),
{
    let finite = keep_finite(mids);
    if finite.len() < 2 {
        return Num::of(ONE);
    }
    let mean = stats::sample_mean(&finite);
    if mean <= Num::of(ZERO) {
        return Num::of(ZERO);
    }
    let mut rel: Vec<Num> = Vec::new();
    let mut i: usize = 0;
    while i < finite.len()
        invariant
            i <= finite@.len(),
            rel@ == finite@.take(i as int).map_values(|m: Num| m.fdiv(mean)),
        decreases finite@.len() - i,
    {
        rel.push(finite[i] / mean);
        i = i + 1;
        proof {
            assert(rel@ =~= finite@.take(i as int).map_values(|m: Num| m.fdiv(mean)));
        }
    }
    proof {
        assert(finite@.take(i as int) =~= finite@);
        assert(rel@ =~= relative(finite@));
    }
    clamp01(Num::of(ONE) - sample_variance(&rel) / stability_max)
}

/// A contract count as a number, at least the floor: where the machine takes
/// the decimal logarithm.
pub fn liquidity_count(count: u64) -> (r: Num)
    ensures
        r == Num::whole(
            false,
            if count < LIQ_COUNT_FLOOR {
                LIQ_COUNT_FLOOR as nat
            } else {
                count as nat
            },
        ),
{
    Num::from_u64(
        if count < LIQ_COUNT_FLOOR {
            LIQ_COUNT_FLOOR
        } else {
            count
        },
    )
}

/// Spread of a quote as a fraction of its mid.
pub open spec fn spread_fraction(bid: Num, ask: Num) -> Num {
    let mid = bid.fadd(ask).fdiv(Num::of(TWO));
    if Num::of(ZERO).flt(mid) {
        ask.fsub(bid).fdiv(mid)
    } else {
        Num::of(SPREAD_FALLBACK)
    }
}

impl LiquidityScore {
    /// The blend of four sub-scores.
    pub open spec fn blend(spread: Num, volume: Num, oi: Num, stability: Num) -> LiquidityScore {
        LiquidityScore {
            total: Num::of(HUNDRED).fmul(
                Num::of(LIQ_W_SPREAD).fmul(spread).fadd(Num::of(LIQ_W_VOLUME).fmul(volume)).fadd(
                    Num::of(LIQ_W_OI).fmul(oi),
                ).fadd(Num::of(LIQ_W_STABILITY).fmul(stability)),
            ),
            spread,
            volume,
            oi,
            stability,
        }
    }

    /// The score of a quote.
    pub open spec fn of_quote(
        bid: Num,
        ask: Num,
        log_volume: Num,
        log_oi: Num,
        prior_mids: Seq<Num>,
        stability_max: Num,
    ) -> LiquidityScore {
        LiquidityScore::blend(
            unit(Num::of(ONE).fsub(spread_fraction(bid, ask).fdiv(Num::of(SPREAD_MAX_PCT)))),
            unit(log_volume.fdiv(Num::of(LOG_LIQ_SCALE))),
            unit(log_oi.fdiv(Num::of(LOG_LIQ_SCALE))),
            stability_of(prior_mids, stability_max),
        )
    }
}

/// What is wrong with the inputs of a liquidity score.
pub open spec fn liquidity_problem(bid: Num, ask: Num, stability_max: Num) -> Option<RiskError> {
    if !bid.finite() {
        Some(RiskError::NonFiniteInput("bid"))
    } else if !ask.finite() {
        Some(RiskError::NonFiniteInput("ask"))
    } else if !good_scale(stability_max) {
        Some(RiskError::InvalidStabilityMax(stability_max))
    } else {
        None
    }
}

/// Liquidity of a quote: spread, volume, open interest and stability.
///
/// `log_volume` and `log_oi` are the machine's decimal logarithms at
/// `liquidity_count` of the volume and of the open interest.
pub fn liquidity_score(
    bid: Num,
    ask: Num,
    log_volume: Num,
    log_oi: Num,
    prior_mids: &Vec<Num>,
    stability_max: Num,
) -> (r: Result<LiquidityScore, RiskError>)
    ensures
        match r {
            Ok(s) => {
                &&& liquidity_problem(bid, ask, stability_max) is None
                &&& s == LiquidityScore::of_quote(
                    bid,
                    ask,
                    log_volume,
                    log_oi,
                    prior_mids@,
                    stability_max,
                )
            },
            Err(e) => liquidity_problem(bid, ask, stability_max) == Some(e),
        },
{
    if !bid.is_finite() {
        return Err(RiskError::NonFiniteInput("bid"));
    }
    if !ask.is_finite() {
        return Err(RiskError::NonFiniteInput("ask"));
    }
    if !is_good_scale(stability_max) {
        return Err(RiskError::InvalidStabilityMax(stability_max));
    }
    let mid = (bid + ask) / Num::of(TWO);
    let spread_pct = if mid > Num::of(ZERO) {
        (ask - bid) / mid
    } else {
        Num::of(SPREAD_FALLBACK)
    };
    let spread = clamp01(Num::of(ONE) - spread_pct / Num::of(SPREAD_MAX_PCT));
    let volume = clamp01(log_volume / Num::of(LOG_LIQ_SCALE));
    let oi = clamp01(log_oi / Num::of(LOG_LIQ_SCALE));
    let stability = quote_stability(prior_mids, stability_max);
    let total = Num::of(HUNDRED) * (Num::of(LIQ_W_SPREAD) * spread + Num::of(LIQ_W_VOLUME) * volume
        + Num::of(LIQ_W_OI) * oi + Num::of(LIQ_W_STABILITY) * stability);
    Ok(LiquidityScore { total, spread, volume, oi, stability })
}

/// Sum of the absolute values of the finite ones, and their number.
pub open spec fn abs_sum(xs: Seq<Num>) -> (Num, nat)
    decreases xs.len(),
{
    if xs.len() == 0 {
        (Num::of(ZERO), 0)
    } else {
        let (s, c) = abs_sum(xs.drop_last());
        if xs.last().finite() {
            (s.fadd(xs.last().fabs()), c + 1)
        } else {
            (s, c)
        }
    }
}

/// Mean of the absolute values of the finite ones; none without any.
pub open spec fn mean_abs_of(xs: Seq<Num>) -> Option<Num> {
    let (s, c) = abs_sum(xs);
    if c == 0 {
        None
    } else {
        Some(s.fdiv(Num::whole(false, c)))
    }
}

fn finite_mean_abs(xs: &Vec<Num>) -> (r: Option<Num>)
    ensures
        r == mean_abs_of(xs@),
{
    let mut s = Num::of(ZERO);
    let mut c: u64 = 0;
    let mut i: usize = 0;
    let n: usize = xs.len();
    proof {
        assert(xs@.take(0) =~= Seq::<Num>::empty());
    }
    while i < n
        invariant
            i <= n == xs@.len(),
            c <= i,
            (s, c as nat) == abs_sum(xs@.take(i as int)),
        decreases n - i,
    {
        proof {
            assert(xs@.take(i + 1).drop_last() =~= xs@.take(i as int));
        }
        if xs[i].is_finite() {
            s = s + xs[i].abs();
            c = c + 1;
        }
        i = i + 1;
    }
    proof {
        assert(xs@.take(i as int) =~= xs@);
    }
    if c == 0 {
        None
    } else {
        Some(s / Num::from_u64(c))
    }
}

/// A sample count as a number, at least the floor: where the machine takes the
/// decimal logarithm.
pub fn sample_count(n_similar: u64) -> (r: Num)
    ensures
        r == Num::whole(
            false,
            if n_similar < SAMPLE_COUNT_FLOOR {
                SAMPLE_COUNT_FLOOR as nat
            } else {
                n_similar as nat
            },
        ),
{
    Num::from_u64(
        if n_similar < SAMPLE_COUNT_FLOOR {
            SAMPLE_COUNT_FLOOR
        } else {
            n_similar
        },
    )
}

/// The grade of a score.
pub open spec fn grade_of(trust: Num) -> TrustGrade {
    if Num::of(GRADE_A_MIN).fle(trust) {
        TrustGrade::A
    } else if Num::of(GRADE_B_MIN).fle(trust) {
        TrustGrade::B
    } else if Num::of(GRADE_C_MIN).fle(trust) {
        TrustGrade::C
    } else if Num::of(GRADE_D_MIN).fle(trust) {
        TrustGrade::D
    } else {
        TrustGrade::F
    }
}

/// Place of a grade from the worst.
pub open spec fn grade_rank(g: TrustGrade) -> nat {
    match g {
        TrustGrade::A => 4,
        TrustGrade::B => 3,
        TrustGrade::C => 2,
        TrustGrade::D => 1,
        TrustGrade::F => 0,
    }
}

/// The grade of a trust score.
pub fn grade_for(trust: Num) -> (r: TrustGrade)
    ensures
        r == grade_of(trust),
{
    if trust >= Num::of(GRADE_A_MIN) {
        TrustGrade::A
    } else if trust >= Num::of(GRADE_B_MIN) {
        TrustGrade::B
    } else if trust >= Num::of(GRADE_C_MIN) {
        TrustGrade::C
    } else if trust >= Num::of(GRADE_D_MIN) {
        TrustGrade::D
    } else {
        TrustGrade::F
    }
}

/// A greater trust score never has a worse grade.
pub proof fn law_grade_follows_score(low: Num, high: Num)
    requires
        low.fle(high),
    ensures
        grade_rank(grade_of(low)) <= grade_rank(grade_of(high)),
{
}

impl ModelTrust {
    /// The blend of the parts.
    pub open spec fn of_components(c: TrustComponents) -> ModelTrust {
        let score = unit(
            Num::of(TRUST_W_CALIBRATION).fmul(c.calibration).fadd(
                Num::of(TRUST_W_FORECAST).fmul(c.forecast_accuracy),
            ).fadd(Num::of(TRUST_W_STABILITY).fmul(c.prediction_stability)).fadd(
                Num::of(TRUST_W_SAMPLE).fmul(c.sample_strength),
            ).fadd(Num::of(TRUST_W_RECENT).fmul(c.recent_performance)),
        );
        ModelTrust { score, grade: grade_of(score), components: c }
    }
}

impl TrustComponents {
    /// The parts of model trust.
    pub open spec fn of_history(
        ece: Num,
        deltas: Seq<Num>,
        predictions: Seq<Num>,
        log_n: Num,
        recent_win_rate: Num,
        forecast_scale: Num,
        pred_var_max: Num,
    ) -> TrustComponents {
        let mae = match mean_abs_of(deltas) {
            Some(m) => m,
            None => Num::of(DEFAULT_FORECAST_MAE),
        };
        TrustComponents {
            calibration: Num::of(ONE).fsub(unit(ece)),
            forecast_accuracy: Num::of(ONE).fsub(unit(mae.fdiv(forecast_scale))),
            prediction_stability: unit(
                Num::of(ONE).fsub(finite_variance(predictions).fdiv(pred_var_max)),
            ),
            sample_strength: unit(
                log_n.fsub(Num::of(SAMPLE_LOG_OFFSET)).fdiv(Num::of(SAMPLE_LOG_SPAN)),
            ),
            recent_performance: unit(recent_win_rate),
        }
    }
}

/// What is wrong with the inputs of model trust.
pub open spec fn trust_problem(
    ece: Num,
    recent_win_rate: Num,
    forecast_scale: Num,
    pred_var_max: Num,
) -> Option<RiskError> {
    if !ece.finite() {
        Some(RiskError::NonFiniteInput("ece"))
    } else if !recent_win_rate.finite() {
        Some(RiskError::NonFiniteInput("recent_win_rate"))
    } else if !good_scale(forecast_scale) {
        Some(RiskError::InvalidForecastScale(forecast_scale))
    } else if !good_scale(pred_var_max) {
        Some(RiskError::InvalidPredVarMax(pred_var_max))
    } else {
        None
    }
}

/// Model trust: calibration, forecast accuracy, prediction stability, sample
/// strength and recent performance.
///
/// The deltas are predicted less actual in one unit.  `log_n` is the machine's
/// decimal logarithm at `sample_count`.
pub fn model_trust(
    ece: Num,
    pred_actual_deltas: &Vec<Num>,
    predictions_history: &Vec<Num>,
    log_n: Num,
    recent_win_rate: Num,
    forecast_scale: Num,
    pred_var_max: Num,
) -> (r: Result<ModelTrust, RiskError>)
    ensures
        match r {
            Ok(t) => {
                &&& trust_problem(ece, recent_win_rate, forecast_scale, pred_var_max) is None
                &&& t == ModelTrust::of_components(
                    TrustComponents::of_history(
                        ece,
                        pred_actual_deltas@,
                        predictions_history@,
                        log_n,
                        recent_win_rate,
                        forecast_scale,
                        pred_var_max,
                    ),
                )
            },
            Err(e) => trust_problem(ece, recent_win_rate, forecast_scale, pred_var_max) == Some(e),
        },
{
    if !ece.is_finite() {
        return Err(RiskError::NonFiniteInput("ece"));
    }
    if !recent_win_rate.is_finite() {
        return Err(RiskError::NonFiniteInput("recent_win_rate"));
    }
    if !is_good_scale(forecast_scale) {
        return Err(RiskError::InvalidForecastScale(forecast_scale));
    }
    if !is_good_scale(pred_var_max) {
        return Err(RiskError::InvalidPredVarMax(pred_var_max));
    }
    let one = Num::of(ONE);
    let mean_abs_error = match finite_mean_abs(pred_actual_deltas) {
        Some(m) => m,
        None => Num::of(DEFAULT_FORECAST_MAE),
    };
    let forecast_error = clamp01(mean_abs_error / forecast_scale);
    let prediction_stability = clamp01(one - sample_variance(predictions_history) / pred_var_max);
    let sample_strength = clamp01((log_n - Num::of(SAMPLE_LOG_OFFSET)) / Num::of(SAMPLE_LOG_SPAN));
    let calibration = one - clamp01(ece);
    let forecast_accuracy = one - forecast_error;
    let recent_performance = clamp01(recent_win_rate);
    let score = clamp01(
        Num::of(TRUST_W_CALIBRATION) * calibration + Num::of(TRUST_W_FORECAST) * forecast_accuracy
            + Num::of(TRUST_W_STABILITY) * prediction_stability + Num::of(TRUST_W_SAMPLE)
            * sample_strength + Num::of(TRUST_W_RECENT) * recent_performance,
    );
    Ok(
        ModelTrust {
            score,
            grade: grade_for(score),
            components: TrustComponents {
                calibration,
                forecast_accuracy,
                prediction_stability,
                sample_strength,
                recent_performance,
            },
        },
    )
}

/// What is left is finite, and not more than there was.
proof fn lemma_finite_only(xs: Seq<Num>)
    ensures
        finite_only(xs).len() <= xs.len(),
        all_finite(finite_only(xs)),
    decreases xs.len(),
{
    if xs.len() > 0 {
        lemma_finite_only(xs.drop_last());
    }
}

/// Only finite numbers.
pub open spec fn all_finite(xs: Seq<Num>) -> bool {
    forall|i: int| 0 <= i < xs.len() ==> (#[trigger] xs[i]).finite()
}

/// Numbers from zero on add up to one.
proof fn lemma_sum_from_zero_on(xs: Seq<Num>)
    requires
        forall|i: int| 0 <= i < xs.len() ==> Num::of(ZERO).fle(#[trigger] xs[i]),
    ensures
        Num::of(ZERO).fle(sums::sum(xs)),
    decreases xs.len(),
{
    if xs.len() > 0 {
        let rest = xs.drop_last();
        assert(forall|i: int| 0 <= i < rest.len() ==> rest[i] == xs[i]);
        lemma_sum_from_zero_on(rest);
        lemma_add_from_zero(sums::sum(rest), xs.last());
    }
}

/// Two numbers from zero on add up to one.
proof fn lemma_add_from_zero(a: Num, b: Num)
    requires
        Num::of(ZERO).fle(a),
        Num::of(ZERO).fle(b),
    ensures
        Num::of(ZERO).fle(a.fadd(b)),
{
    if a.finite() && b.finite() {
        algebra::lemma_sum_from_zero(a, b);
    } else {
        reveal(Num::fadd);
    }
}

/// A number from zero on over a positive one is one.
proof fn lemma_div_from_zero(a: Num, b: Num)
    requires
        Num::of(ZERO).fle(a),
        b.finite(),
        Num::of(ZERO).flt(b),
    ensures
        Num::of(ZERO).fle(a.fdiv(b)),
{
    algebra::lemma_div_kind(a, b);
    algebra::lemma_div_finite(a, b);
}

/// The mean of finite numbers is a number.
proof fn lemma_mean_is_number(xs: Seq<Num>)
    requires
        all_finite(xs),
        0 < xs.len() < pow2(53),
    ensures
        !stats::mean_of(xs).nan(),
{
    sums::lemma_sum_is_number(xs);
    integral::lemma_whole_exact(xs.len());
    algebra::lemma_whole_positive(xs.len());
    algebra::lemma_div_finite(sums::sum(xs), Num::whole(false, xs.len()));
}

/// A variance is a number from zero on.
proof fn lemma_variance_from_zero(xs: Seq<Num>)
    requires
        xs.len() < pow2(53),
    ensures
        Num::of(ZERO).fle(finite_variance(xs)),
{
    let f = finite_only(xs);
    lemma_finite_only(xs);
    if f.len() >= 2 {
        let mean = stats::mean_of(f);
        lemma_mean_is_number(f);
        let d = stats::squared_deviations(f, mean);
        assert forall|i: int| 0 <= i < d.len() implies Num::of(ZERO).fle(#[trigger] d[i]) by {
            algebra::lemma_add_finite(mean.fneg(), f[i]);
            algebra::lemma_square(f[i].fsub(mean));
        }
        lemma_sum_from_zero_on(d);
        let n = (f.len() - 1) as nat;
        integral::lemma_whole_exact(n);
        algebra::lemma_whole_positive(n);
        lemma_div_from_zero(sums::sum(d), Num::whole(false, n));
    }
}

/// One less a number over a positive one, moved into `[0, 1]`, lies there.
proof fn lemma_unit_of_rest(v: Num, scale: Num)
    requires
        !v.nan(),
        good_scale(scale),
    ensures
        in_unit(unit(Num::of(ONE).fsub(v.fdiv(scale)))),
        in_unit(unit(v.fdiv(scale))),
{
    algebra::lemma_div_finite(v, scale);
    algebra::lemma_add_finite(v.fdiv(scale).fneg(), Num::of(ONE));
}

/// The stability of a quote lies between 0 and 1.
proof fn lemma_stability_bounded(mids: Seq<Num>, stability_max: Num)
    requires
        mids.len() < pow2(53),
        good_scale(stability_max),
    ensures
        in_unit(stability_of(mids, stability_max)),
{
    lemma_finite_only(mids);
    let f = finite_only(mids);
    if f.len() >= 2 {
        lemma_variance_from_zero(relative(f));
        lemma_unit_of_rest(finite_variance(relative(f)), stability_max);
    }
}

/// The spread of a finite quote is a number.
proof fn lemma_spread_is_number(bid: Num, ask: Num)
    requires
        bid.finite(),
        ask.finite(),
    ensures
        !spread_fraction(bid, ask).nan(),
{
    let mid = bid.fadd(ask).fdiv(Num::of(TWO));
    if Num::of(ZERO).flt(mid) {
        algebra::lemma_add_is_number(bid, ask);
        algebra::lemma_add_is_number(ask, bid.fneg());
        if mid.finite() {
            algebra::lemma_div_finite(ask.fsub(bid), mid);
        } else {
            lemma_wide_quote(bid, ask);
            reveal(Num::fdiv);
        }
    }
}

/// A mid that overflows has a spread that does not.
proof fn lemma_wide_quote(bid: Num, ask: Num)
    requires
        bid.finite(),
        ask.finite(),
        !bid.fadd(ask).fdiv(Num::of(TWO)).finite(),
    ensures
        ask.fsub(bid).finite(),
{
    let sum = bid.fadd(ask);
    algebra::lemma_add_is_number(bid, ask);
    assert(!sum.finite()) by {
        if sum.finite() {
            algebra::law_div_antitone(sum.fabs(), Num::of(ONE), Num::of(TWO));
            algebra::law_div_one(sum.fabs());
            reveal(Num::fdiv);
            assert(sum.fabs().size() == sum.size());
        }
    }
    assert(bid.negative() == ask.negative()) by {
        if bid.negative() != ask.negative() {
            lemma_opposite_sum(bid, ask);
        }
    }
    lemma_opposite_sum(ask, bid.fneg());
}

/// Numbers of opposite signs add up to a finite one.
pub proof fn lemma_opposite_sum(a: Num, b: Num)
    requires
        a.finite(),
        b.finite(),
        a.negative() != b.negative(),
    ensures
        a.fadd(b).finite(),
{
    reveal(Num::fadd);
    arith::lemma_round_exact(a);
    arith::lemma_round_exact(b);
    let s = a.units() + b.units();
    if s > 0 {
        rounding::lemma_round_monotone(
            s as nat,
            if a.negative() {
                b.size()
            } else {
                a.size()
            },
            1,
        );
    } else if s < 0 {
        rounding::lemma_round_monotone(
            (-s) as nat,
            if a.negative() {
                a.size()
            } else {
                b.size()
            },
            1,
        );
    }
}

/// The sum of absolute values is a number from zero on.
proof fn lemma_abs_sum(xs: Seq<Num>)
    ensures
        Num::of(ZERO).fle(abs_sum(xs).0),
        abs_sum(xs).1 <= xs.len(),
    decreases xs.len(),
{
    if xs.len() > 0 {
        lemma_abs_sum(xs.drop_last());
        if xs.last().finite() {
            lemma_add_from_zero(abs_sum(xs.drop_last()).0, xs.last().fabs());
        }
    }
}

/// One less a number between 0 and 1 lies there too.
pub proof fn lemma_complement(v: Num)
    requires
        in_unit(v),
    ensures
        in_unit(Num::of(ONE).fsub(v)),
{
    let (zero, one) = (Num::of(ZERO), Num::of(ONE));
    algebra::lemma_rise(v, one);
    algebra::law_add_commutes(one, v.fneg());
    algebra::law_add_commutes(one, zero);
    algebra::lemma_add_any_zero(one, zero);
    algebra::lemma_add_is_number(zero, one);
    algebra::law_add_monotone(v.fneg(), zero, one);
}

/// Whatever trust is accepted, its parts and its score lie between 0 and 1.
pub proof fn law_trust_bounded(
    ece: Num,
    deltas: Seq<Num>,
    predictions: Seq<Num>,
    log_n: Num,
    recent_win_rate: Num,
    forecast_scale: Num,
    pred_var_max: Num,
)
    requires
        trust_problem(ece, recent_win_rate, forecast_scale, pred_var_max) is None,
        !log_n.nan(),
        deltas.len() < pow2(53),
        predictions.len() < pow2(53),
    ensures
        ({
            let c = TrustComponents::of_history(
                ece,
                deltas,
                predictions,
                log_n,
                recent_win_rate,
                forecast_scale,
                pred_var_max,
            );
            &&& in_unit(c.calibration) && in_unit(c.forecast_accuracy)
            &&& in_unit(c.prediction_stability) && in_unit(c.sample_strength)
            &&& in_unit(c.recent_performance)
            &&& in_unit(ModelTrust::of_components(c).score)
        }),
{
    let c = TrustComponents::of_history(
        ece,
        deltas,
        predictions,
        log_n,
        recent_win_rate,
        forecast_scale,
        pred_var_max,
    );
    let mae = match mean_abs_of(deltas) {
        Some(m) => m,
        None => Num::of(DEFAULT_FORECAST_MAE),
    };
    lemma_abs_sum(deltas);
    let (s, k) = abs_sum(deltas);
    if k > 0 {
        integral::lemma_whole_exact(k);
        algebra::lemma_whole_positive(k);
        lemma_div_from_zero(s, Num::whole(false, k));
    }
    lemma_complement(unit(ece));
    lemma_unit_of_rest(mae, forecast_scale);
    lemma_complement(unit(mae.fdiv(forecast_scale)));
    lemma_variance_from_zero(predictions);
    lemma_unit_of_rest(finite_variance(predictions), pred_var_max);
    algebra::lemma_add_finite(log_n, Num::of(SAMPLE_LOG_OFFSET).fneg());
    lemma_unit_of_rest(log_n.fsub(Num::of(SAMPLE_LOG_OFFSET)), Num::of(SAMPLE_LOG_SPAN));
    lemma_trust_blend(c);
}

/// A blend of parts between 0 and 1 lies there.
proof fn lemma_trust_blend(c: TrustComponents)
    requires
        in_unit(c.calibration),
        in_unit(c.forecast_accuracy),
        in_unit(c.prediction_stability),
        in_unit(c.sample_strength),
        in_unit(c.recent_performance),
    ensures
        in_unit(ModelTrust::of_components(c).score),
{
    let v1 = Num::of(TRUST_W_CALIBRATION).fmul(c.calibration);
    let v2 = Num::of(TRUST_W_FORECAST).fmul(c.forecast_accuracy);
    let v3 = Num::of(TRUST_W_STABILITY).fmul(c.prediction_stability);
    let v4 = Num::of(TRUST_W_SAMPLE).fmul(c.sample_strength);
    let v5 = Num::of(TRUST_W_RECENT).fmul(c.recent_performance);
    algebra::lemma_weighted(Num::of(TRUST_W_CALIBRATION), c.calibration);
    algebra::lemma_weighted(Num::of(TRUST_W_FORECAST), c.forecast_accuracy);
    algebra::lemma_weighted(Num::of(TRUST_W_STABILITY), c.prediction_stability);
    algebra::lemma_weighted(Num::of(TRUST_W_SAMPLE), c.sample_strength);
    algebra::lemma_weighted(Num::of(TRUST_W_RECENT), c.recent_performance);
    algebra::lemma_add_finite(v1, v2);
    algebra::lemma_add_finite(v1.fadd(v2), v3);
    algebra::lemma_add_finite(v1.fadd(v2).fadd(v3), v4);
    algebra::lemma_add_finite(v1.fadd(v2).fadd(v3).fadd(v4), v5);
}

/// Whatever quote is accepted, its liquidity score lies between 0 and 100 and
/// each part between 0 and 1.
pub proof fn law_liquidity_bounded(
    bid: Num,
    ask: Num,
    log_volume: Num,
    log_oi: Num,
    prior_mids: Seq<Num>,
    stability_max: Num,
)
    requires
        liquidity_problem(bid, ask, stability_max) is None,
        !log_volume.nan(),
        !log_oi.nan(),
        prior_mids.len() < pow2(53),
    ensures
        ({
            let s = LiquidityScore::of_quote(
                bid,
                ask,
                log_volume,
                log_oi,
                prior_mids,
                stability_max,
            );
            &&& in_unit(s.spread) && in_unit(s.volume) && in_unit(s.oi) && in_unit(s.stability)
            &&& Num::of(ZERO).fle(s.total) && s.total.fle(Num::of(HUNDRED))
        }),
{
    lemma_spread_is_number(bid, ask);
    lemma_unit_of_rest(spread_fraction(bid, ask), Num::of(SPREAD_MAX_PCT));
    lemma_unit_of_rest(log_volume, Num::of(LOG_LIQ_SCALE));
    lemma_unit_of_rest(log_oi, Num::of(LOG_LIQ_SCALE));
    lemma_stability_bounded(prior_mids, stability_max);
    let s = LiquidityScore::of_quote(bid, ask, log_volume, log_oi, prior_mids, stability_max);
    let (w1, w2) = (Num::of(LIQ_W_SPREAD), Num::of(LIQ_W_VOLUME));
    let (w3, w4) = (Num::of(LIQ_W_OI), Num::of(LIQ_W_STABILITY));
    algebra::lemma_weighted(w1, s.spread);
    algebra::lemma_weighted(w2, s.volume);
    algebra::lemma_weighted(w3, s.oi);
    algebra::lemma_weighted(w4, s.stability);
    let (a, b) = (w1.fmul(s.spread), w2.fmul(s.volume));
    let (c, d) = (w3.fmul(s.oi), w4.fmul(s.stability));
    lemma_liquidity_weights();
    let (m2, m3, one) = (w1.fadd(w2), w1.fadd(w2).fadd(w3), Num::of(ONE));
    algebra::lemma_bounded_sum(a, b, w1, w2);
    algebra::lemma_bounded_sum(a.fadd(b), c, m2, w3);
    algebra::lemma_bounded_sum(a.fadd(b).fadd(c), d, m3, w4);
    algebra::lemma_sum_from_zero(a, b);
    algebra::lemma_sum_from_zero(a.fadd(b), c);
    algebra::lemma_sum_from_zero(a.fadd(b).fadd(c), d);
    algebra::lemma_weighted(Num::of(HUNDRED), a.fadd(b).fadd(c).fadd(d));
}

/// Between 0 and 1.
pub open spec fn in_unit(v: Num) -> bool {
    Num::of(ZERO).fle(v) && v.fle(Num::of(ONE))
}

/// The liquidity weights add up to one, rounded at each step.
proof fn lemma_liquidity_weights()
    ensures
        Num::of(LIQ_W_SPREAD).fadd(Num::of(LIQ_W_VOLUME)) == Num::of(0x3FE4_CCCC_CCCC_CCCD),
        Num::of(0x3FE4_CCCC_CCCC_CCCD).fadd(Num::of(LIQ_W_OI)) == Num::of(0x3FEC_CCCC_CCCC_CCCD),
        Num::of(0x3FEC_CCCC_CCCC_CCCD).fadd(Num::of(LIQ_W_STABILITY)) == Num::of(ONE),
{
    let (w1, w2) = (Num::of(LIQ_W_SPREAD), Num::of(LIQ_W_VOLUME));
    let (w3, w4) = (Num::of(LIQ_W_OI), Num::of(LIQ_W_STABILITY));
    // 0.65 and 0.9.
    let (m2, m3) = (Num::of(0x3FE4_CCCC_CCCC_CCCD), Num::of(0x3FEC_CCCC_CCCC_CCCD));
    let one = Num::of(ONE);
    let p = pow2(1018);
    lemma_pow2_pos(1018);
    lemma_pow2_unfold(1019);
    lemma_pow2_unfold(1020);
    lemma_pow2_unfold(1021);
    lemma_pow2_unfold(1022);
    assert(w1.scale() == 1020 && w2.scale() == 1020 && w3.scale() == 1020 && w4.scale() == 1018);
    assert(m2.scale() == 1021 && m3.scale() == 1021 && one.scale() == 1022);
    assert(w1.size() == 0x19_9999_9999_999A * (4 * p));
    assert(w2.size() == 0x10_0000_0000_0000 * (4 * p));
    assert(w4.size() == 0x19_9999_9999_999A * p);
    assert(m2.size() == 0x14_CCCC_CCCC_CCCD * (8 * p));
    assert(m3.size() == 0x1C_CCCC_CCCC_CCCD * (8 * p));
    assert(one.size() == 0x10_0000_0000_0000 * (16 * p));
    algebra::lemma_sum_near(w1, w2, m2);
    algebra::lemma_sum_near(m2, w3, m3);
    algebra::lemma_sum_near(m3, w4, one);
}

/// A percentage from 0 to 100 has a rank among the values, and a greater one
/// has no lower rank.
proof fn lemma_percent_rank(p: Num, q: Num, n: nat)
    requires
        1 <= n < pow2(53),
        p.fle(q),
    ensures
        percent_rank(p, n).fle(percent_rank(q, n)),
        Num::of(ZERO).fle(percent_rank(p, n)),
        percent_rank(p, n).fle(Num::whole(false, (n - 1) as nat)),
{
    let (zero, hundred) = (Num::of(ZERO), Num::of(HUNDRED));
    let top = Num::whole(false, (n - 1) as nat);
    integral::lemma_whole_exact((n - 1) as nat);
    let (a, b) = (p.fclamp(zero, hundred), q.fclamp(zero, hundred));
    algebra::law_div_monotone(a, b, hundred);
    algebra::law_div_monotone(b, hundred, hundred);
    algebra::law_div_self(hundred);
    algebra::law_div_monotone(zero, a, hundred);
    arith::lemma_zero_size(zero);
    algebra::lemma_zero_over(zero, hundred);
    let (x, y) = (a.fdiv(hundred), b.fdiv(hundred));
    algebra::lemma_mul_is_number(x, top);
    algebra::lemma_mul_is_number(y, top);
    algebra::law_mul_monotone(x, y, top);
}

/// The way between two values at a rank.
proof fn lemma_percentile_at(s: Seq<Num>, values: Seq<Num>, p: Num)
    requires
        2 <= values.len() < pow2(53),
        s == sorting::sorted(values),
        s.len() == values.len(),
        stats::steady(s),
        !p.nan(),
    ensures
        ({
            let r = percent_rank(p, values.len());
            let m = r.int_part() as int;
            let w = r.fsub(Num::whole(false, m as nat));
            let v = percentile_of(values, p);
            &&& m < s.len()
            &&& r.frac_part() == 0 ==> v == s[m]
            &&& r.frac_part() > 0 ==> m + 1 < s.len() && v == algebra::blend(s[m], s[m + 1], w)
            &&& s[m].fle(v)
            &&& m + 1 < s.len() ==> v.fle(s[m + 1])
        }),
{
    let n = values.len();
    let r = percent_rank(p, n);
    lemma_percent_rank(p, p, n);
    stats::lemma_rank_place(r, n);
    lemma2_to64_rest();
    let m = r.int_part() as int;
    let w = r.fsub(Num::whole(false, m as nat));
    stats::lemma_steady(s, m, m);
    if m + 1 < n {
        stats::lemma_steady(s, m, m + 1);
        assert(algebra::sound_gap(s[m], s[m + 1]));
        algebra::lemma_blend(s[m], s[m + 1], w, w);
    }
}

/// A greater percentage never has a lower percentile, and every percentile lies
/// between the least and the greatest value, where no way between neighbouring
/// values rounds beyond its end.
pub proof fn law_percentiles_never_fall(values: Seq<Num>, p: Num, q: Num)
    requires
        2 <= values.len() < pow2(53),
        stats::steady(sorting::sorted(values)),
        p.fle(q),
    ensures
        percentile_of(values, p).fle(percentile_of(values, q)),
        sorting::sorted(values)[0].fle(percentile_of(values, p)),
        percentile_of(values, q).fle(sorting::sorted(values)[values.len() - 1]),
{
    let (n, s) = (values.len(), sorting::sorted(values));
    sorting::law_sorted_sorts(values);
    lemma_percent_rank(p, q, n);
    lemma_percent_rank(q, q, n);
    lemma_percentile_at(s, values, p);
    lemma_percentile_at(s, values, q);
    let (r, t) = (percent_rank(p, n), percent_rank(q, n));
    stats::lemma_rank_place(r, n);
    stats::lemma_rank_place(t, n);
    let (i, j) = (r.int_part() as int, t.int_part() as int);
    lemma_rank_order(r, t);
    stats::lemma_steady(s, 0, i);
    stats::lemma_steady(s, j, n - 1);
    if j + 1 < n {
        stats::lemma_steady(s, j + 1, n - 1);
    }
    if i < j {
        stats::lemma_steady(s, i + 1, j);
    } else if r.frac_part() > 0 && t.frac_part() > 0 {
        let w = Num::whole(false, i as nat);
        integral::lemma_whole_exact(i as nat);
        algebra::lemma_add_is_number(r, w.fneg());
        algebra::lemma_add_is_number(t, w.fneg());
        algebra::law_add_monotone(r, t, w.fneg());
        assert(algebra::sound_gap(s[i], s[i + 1]));
        algebra::lemma_blend(s[i], s[i + 1], r.fsub(w), t.fsub(w));
    }
}

/// Ranks in order have their whole parts in order; at one whole part their
/// fractions are.
proof fn lemma_rank_order(r: Num, t: Num)
    requires
        r.finite(),
        t.finite(),
        Num::of(ZERO).fle(r),
        r.fle(t),
    ensures
        r.int_part() <= t.int_part(),
        r.int_part() == t.int_part() ==> r.frac_part() <= t.frac_part(),
{
    arith::lemma_order_is_exact(r, t);
    arith::lemma_zero_size(r);
    arith::lemma_zero_size(t);
    lemma_pow2_pos(1074);
    let u = pow2(1074) as int;
    vstd::arithmetic::div_mod::lemma_div_is_ordered(r.size() as int, t.size() as int, u);
    vstd::arithmetic::div_mod::lemma_fundamental_div_mod(r.size() as int, u);
    vstd::arithmetic::div_mod::lemma_fundamental_div_mod(t.size() as int, u);
}

/// The greatest loss is at least every loss that is a number.
proof fn lemma_greatest(s: Seq<Num>, k: int)
    requires
        0 <= k < s.len(),
        forall|i: int| 0 <= i < s.len() ==> !(#[trigger] s[i]).nan(),
    ensures
        s[k].fle(greatest(s)),
    decreases s.len(),
{
    let rest = s.drop_last();
    assert(forall|i: int| 0 <= i < rest.len() ==> rest[i] == s[i]);
    if rest.len() > 0 {
        if k < rest.len() {
            lemma_greatest(rest, k);
        } else {
            lemma_greatest(rest, 0);
        }
    }
}

/// A loss at or beyond a level is counted.
proof fn lemma_beyond(losses: Seq<Num>, level: Num, k: int)
    requires
        0 <= k < losses.len(),
        level.fle(losses[k]),
    ensures
        beyond(losses, level).1 > 0,
    decreases losses.len(),
{
    if k < losses.len() - 1 {
        lemma_beyond(losses.drop_last(), level, k);
    }
}

/// The deeper tail level is not the lower one, no level exceeds the worst
/// loss, and some loss reaches each level: a shortfall is a mean of losses.
pub proof fn law_tail_levels_are_ordered(losses: Seq<Num>, es_max: Num)
    requires
        2 <= losses.len() < pow2(53),
        stats::steady(sorting::sorted(losses)),
    ensures
        ({
            let t = TailRisk::of_losses(losses, es_max);
            &&& t.var95.fle(t.var99)
            &&& t.var99.fle(t.worst)
            &&& beyond(losses, t.var95).1 > 0
            &&& beyond(losses, t.var99).1 > 0
        }),
{
    let s = sorting::sorted(losses);
    let t = TailRisk::of_losses(losses, es_max);
    let last = s.len() - 1;
    law_percentiles_never_fall(losses, Num::of(VAR_LEVEL_95), Num::of(VAR_LEVEL_99));
    law_percentiles_never_fall(losses, Num::of(VAR_LEVEL_95), Num::of(VAR_LEVEL_95));
    sorting::law_sorted_sorts(losses);
    s.to_multiset_ensures();
    losses.to_multiset_ensures();
    assert(s.to_multiset().count(s[last]) > 0) by {
        assert(s.contains(s[last]));
    }
    assert(losses.contains(s[last]));
    let k = choose|k: int| 0 <= k < losses.len() && losses[k] == s[last];
    assert forall|i: int| 0 <= i < losses.len() implies !(#[trigger] losses[i]).nan() by {
        assert(losses.contains(losses[i]));
        assert(losses.to_multiset().count(losses[i]) > 0);
        assert(s.contains(losses[i]));
        let j = choose|j: int| 0 <= j < s.len() && s[j] == losses[i];
        stats::lemma_steady(s, j, j);
    }
    lemma_greatest(losses, k);
    lemma_beyond(losses, t.var95, k);
    lemma_beyond(losses, t.var99, k);
}

/// The sum of finite losses beyond a level is a number.
proof fn lemma_beyond_is_number(losses: Seq<Num>, level: Num)
    requires
        all_finite(losses),
    ensures
        !beyond(losses, level).0.nan(),
        beyond(losses, level).1 <= losses.len(),
    decreases losses.len(),
{
    if losses.len() > 0 {
        let rest = losses.drop_last();
        assert(forall|i: int| 0 <= i < rest.len() ==> rest[i] == losses[i]);
        lemma_beyond_is_number(rest, level);
        algebra::lemma_add_finite(beyond(rest, level).0, losses.last());
    }
}

/// A percentile of finite values is a number.
proof fn lemma_percentile_is_number(values: Seq<Num>, p: Num)
    requires
        all_finite(values),
        values.len() < pow2(53),
        !p.nan(),
    ensures
        !percentile_of(values, p).nan(),
{
    let (n, s) = (values.len(), sorting::sorted(values));
    if n > 0 {
        sorting::law_sorted_sorts(values);
        s.to_multiset_ensures();
        values.to_multiset_ensures();
        assert forall|i: int| 0 <= i < s.len() implies (#[trigger] s[i]).finite() by {
            assert(s.contains(s[i]));
            assert(s.to_multiset().count(s[i]) > 0);
            assert(values.contains(s[i]));
        }
        let r = percent_rank(p, n);
        lemma_percent_rank(p, p, n);
        stats::lemma_rank_place(r, n);
        lemma2_to64_rest();
        let m = r.int_part() as int;
        let w = Num::whole(false, m as nat);
        if r.frac_part() > 0 {
            let rise = s[m + 1].fsub(s[m]);
            algebra::lemma_add_is_number(s[m + 1], s[m].fneg());
            assert(!r.negative()) by {
                arith::lemma_zero_size(r);
                lemma_pow2_pos(1074);
                vstd::arithmetic::div_mod::lemma_small_mod(0, pow2(1074));
            }
            lemma_fraction_is_positive(r);
            if rise.finite() {
                algebra::lemma_mul_is_number(r.fsub(w), rise);
            } else {
                reveal(Num::fmul);
            }
            algebra::lemma_add_finite(r.fsub(w).fmul(rise), s[m]);
        }
    }
}

/// What a number has beyond its whole part is positive where there is any.
proof fn lemma_fraction_is_positive(r: Num)
    requires
        r.finite(),
        !r.negative(),
        r.int_part() < pow2(53),
        r.frac_part() > 0,
        r.fsub(Num::whole(false, r.int_part())).fle(Num::of(ONE)),
    ensures
        r.fsub(Num::whole(false, r.int_part())).finite(),
        r.fsub(Num::whole(false, r.int_part())).mag() > 0,
{
    reveal(Num::fadd);
    lemma2_to64();
    lemma2_to64_rest();
    let (m, u) = (r.int_part(), pow2(1074));
    let w = Num::whole(false, m);
    integral::lemma_whole_exact(m);
    lemma_pow2_pos(1074);
    vstd::arithmetic::div_mod::lemma_fundamental_div_mod(r.size() as int, u as int);
    assert(u * m == m * u) by (nonlinear_arith);
    assert(w.fneg().size() == w.size());
    arith::lemma_zero_size(w);
    let least = Num { bits: 1 };
    arith::lemma_round_exact(least);
    assert(least.size() == 1);
    rounding::lemma_round_monotone(1, r.frac_part(), 1);
}

/// The tail score of any returns lies between 0 and 1.
pub proof fn law_tail_score_bounded(trade_returns: Seq<Num>, es_max: Num)
    requires
        good_scale(es_max),
        trade_returns.len() < pow2(53),
    ensures
        in_unit(TailRisk::of_losses(losses_of(trade_returns), es_max).score),
{
    let losses = losses_of(trade_returns);
    lemma_finite_only(trade_returns);
    assert(all_finite(losses));
    let level = percentile_of(losses, Num::of(VAR_LEVEL_95));
    lemma_percentile_is_number(losses, Num::of(VAR_LEVEL_95));
    lemma_beyond_is_number(losses, level);
    let (s, c) = beyond(losses, level);
    if c > 0 {
        integral::lemma_whole_exact(c);
        algebra::lemma_whole_positive(c);
        algebra::lemma_div_finite(s, Num::whole(false, c));
    }
    lemma_unit_of_rest(shortfall_of(losses, level), es_max);
}

/// Of two quotes that are alike but for the spread, the wider one is not the
/// more liquid one.
pub proof fn law_liquidity_falls_with_spread(
    tight: (Num, Num),
    wide: (Num, Num),
    log_volume: Num,
    log_oi: Num,
    prior_mids: Seq<Num>,
    stability_max: Num,
)
    requires
        liquidity_problem(tight.0, tight.1, stability_max) is None,
        liquidity_problem(wide.0, wide.1, stability_max) is None,
        spread_fraction(tight.0, tight.1).fle(spread_fraction(wide.0, wide.1)),
        !log_volume.nan(),
        !log_oi.nan(),
        prior_mids.len() < pow2(53),
    ensures
        ({
            let (t, w) = (
                LiquidityScore::of_quote(
                    tight.0,
                    tight.1,
                    log_volume,
                    log_oi,
                    prior_mids,
                    stability_max,
                ),
                LiquidityScore::of_quote(
                    wide.0,
                    wide.1,
                    log_volume,
                    log_oi,
                    prior_mids,
                    stability_max,
                ),
            );
            &&& w.spread.fle(t.spread)
            &&& w.total.fle(t.total)
        }),
{
    let t = LiquidityScore::of_quote(
        tight.0,
        tight.1,
        log_volume,
        log_oi,
        prior_mids,
        stability_max,
    );
    let w = LiquidityScore::of_quote(wide.0, wide.1, log_volume, log_oi, prior_mids, stability_max);
    law_liquidity_bounded(tight.0, tight.1, log_volume, log_oi, prior_mids, stability_max);
    law_liquidity_bounded(wide.0, wide.1, log_volume, log_oi, prior_mids, stability_max);
    let (one, scale) = (Num::of(ONE), Num::of(SPREAD_MAX_PCT));
    let (x, y) = (spread_fraction(tight.0, tight.1), spread_fraction(wide.0, wide.1));
    algebra::law_div_monotone(x, y, scale);
    algebra::law_add_commutes(one, x.fdiv(scale).fneg());
    algebra::law_add_commutes(one, y.fdiv(scale).fneg());
    algebra::lemma_add_finite(x.fdiv(scale).fneg(), one);
    algebra::lemma_add_finite(y.fdiv(scale).fneg(), one);
    algebra::law_add_monotone(y.fdiv(scale).fneg(), x.fdiv(scale).fneg(), one);
    let w1 = Num::of(LIQ_W_SPREAD);
    let (a, b) = (w1.fmul(w.spread), w1.fmul(t.spread));
    let c2 = Num::of(LIQ_W_VOLUME).fmul(t.volume);
    let c3 = Num::of(LIQ_W_OI).fmul(t.oi);
    let c4 = Num::of(LIQ_W_STABILITY).fmul(t.stability);
    algebra::lemma_weighted(w1, w.spread);
    algebra::lemma_weighted(w1, t.spread);
    algebra::lemma_weighted(Num::of(LIQ_W_VOLUME), t.volume);
    algebra::lemma_weighted(Num::of(LIQ_W_OI), t.oi);
    algebra::lemma_weighted(Num::of(LIQ_W_STABILITY), t.stability);
    algebra::law_mul_commutes(w1, w.spread);
    algebra::law_mul_commutes(w1, t.spread);
    algebra::law_mul_monotone(w.spread, t.spread, w1);
    lemma_step(a, b, c2);
    lemma_step(a.fadd(c2), b.fadd(c2), c3);
    lemma_step(a.fadd(c2).fadd(c3), b.fadd(c2).fadd(c3), c4);
    let (p, q) = (a.fadd(c2).fadd(c3).fadd(c4), b.fadd(c2).fadd(c3).fadd(c4));
    let hundred = Num::of(HUNDRED);
    algebra::law_mul_commutes(hundred, p);
    algebra::law_mul_commutes(hundred, q);
    algebra::lemma_scale_order(p, q, hundred);
}

/// Adding a finite number keeps the order of numbers.
proof fn lemma_step(a: Num, b: Num, c: Num)
    requires
        a.fle(b),
        c.finite(),
    ensures
        a.fadd(c).fle(b.fadd(c)),
{
    algebra::lemma_add_finite(a, c);
    algebra::lemma_add_finite(b, c);
    algebra::law_add_monotone(a, b, c);
}

/// Exact sum of the losses at or beyond a level.
pub open spec fn exact_beyond(losses: Seq<Num>, level: Num) -> real
    decreases losses.len(),
{
    if losses.len() == 0 {
        0real
    } else {
        let rest = exact_beyond(losses.drop_last(), level);
        if level.fle(losses.last()) {
            rest + losses.last().exact()
        } else {
            rest
        }
    }
}

/// Losses of at most `top`, in absolute value.
pub open spec fn losses_within(losses: Seq<Num>, top: real) -> bool {
    forall|i: int|
        0 <= i < losses.len() ==> (#[trigger] losses[i]).finite() && exact::rabs(losses[i].exact())
            <= top
}

/// How far adding up losses one by one is off.
proof fn lemma_beyond_error(losses: Seq<Num>, level: Num, top: real)
    requires
        losses_within(losses, top),
        level.finite(),
        top >= 0real,
        losses.len() <= 0x4_0000_0000_0000,
        beyond(losses, level).0.finite(),
    ensures
        ({
            let (s, c) = beyond(losses, level);
            let (k, x) = (c as int as real, exact_beyond(losses, level));
            let et = exact::eps() * top;
            &&& c <= losses.len()
            &&& exact::rabs(s.exact() - x) <= 2real * ((k * k) * et)
            &&& exact::rabs(x) <= k * top
            &&& x >= k * level.exact()
        }),
    decreases losses.len(),
{
    let e = exact::eps();
    let et = e * top;
    exact::lemma_not_negative(e, top);
    if losses.len() == 0 {
        exact::lemma_exact_zero(Num::of(ZERO));
        assert((0real * 0real) * et == 0real) by (nonlinear_arith);
        assert(0real * top == 0real && 0real * level.exact() == 0real) by (nonlinear_arith);
        assert(0nat as int as real == 0real);
    } else {
        let (rest, l) = (losses.drop_last(), losses.last());
        assert(forall|i: int| 0 <= i < rest.len() ==> rest[i] == losses[i]);
        let (s, c) = beyond(rest, level);
        let (k, x) = (c as int as real, exact_beyond(rest, level));
        if level.fle(l) {
            assert(s.finite()) by {
                reveal(Num::fadd);
            }
            lemma_beyond_error(rest, level, top);
            exact::lemma_exact_add(s, l);
            exact::lemma_exact_order(level, l);
            assert(losses[losses.len() - 1] == l);
            let v = s.exact() + l.exact();
            // The partial sum is at most twice its share.
            exact::lemma_times(e * k, 1real / 2real, k * top);
            assert((k * k) * et == (e * k) * (k * top)) by (nonlinear_arith)
                requires
                    et == e * top,
            ;
            exact::lemma_not_negative(k, top);
            assert(exact::rabs(v) <= 2real * (k * top) + top);
            exact::lemma_times(exact::rabs(v), 2real * (k * top) + top, e);
            assert(e * (2real * (k * top) + top) == 2real * (k * et) + et) by (nonlinear_arith)
                requires
                    et == e * top,
            ;
            exact::lemma_not_negative(k, et);
            let n = k + 1real;
            assert((n * n) * et == (k * k) * et + 2real * (k * et) + et) by (nonlinear_arith)
                requires
                    n == k + 1real,
            ;
            assert(n * top == k * top + top) by (nonlinear_arith)
                requires
                    n == k + 1real,
            ;
            assert(n * level.exact() == k * level.exact() + level.exact()) by (nonlinear_arith)
                requires
                    n == k + 1real,
            ;
            assert((c + 1) as int as real == n);
            assert(beyond(losses, level) == (s.fadd(l), c + 1));
            assert(exact_beyond(losses, level) == x + l.exact());
            assert(exact::rabs(s.fadd(l).exact() - (x + l.exact())) <= 2real * ((n * n) * et));
            assert(exact::rabs(x + l.exact()) <= n * top);
            assert(x + l.exact() >= n * level.exact());
        } else {
            lemma_beyond_error(rest, level, top);
        }
    }
}

/// Expected shortfall does not fall below the level it is taken at, but for
/// the rounding of its sum: two errors of the greatest loss per loss, and two
/// more for the mean.
pub proof fn law_shortfall_reaches_level(losses: Seq<Num>, level: Num, top: real)
    requires
        losses_within(losses, top),
        level.finite(),
        losses.len() <= 0x4_0000_0000_0000,
        beyond(losses, level).0.finite(),
        beyond(losses, level).1 > 0,
    ensures
        ({
            let k = beyond(losses, level).1 as int as real;
            shortfall_of(losses, level).exact() >= level.exact() - 2real * ((k + 1real) * (
            exact::eps() * top)) - exact::tiny()
        }),
{
    let (s, c) = beyond(losses, level);
    let (k, x) = (c as int as real, exact_beyond(losses, level));
    let (e, t) = (exact::eps(), exact::tiny());
    let et = e * top;
    lemma_top(losses, level, top);
    exact::lemma_not_negative(e, top);
    lemma_beyond_error(losses, level, top);
    lemma2_to64_rest();
    integral::lemma_whole_exact(c);
    algebra::lemma_whole_positive(c);
    exact::lemma_exact_whole(c);
    let n = Num::whole(false, c);
    let y = s.exact() / k;
    // The mean is finite: it is no larger than the sum.
    lemma_mean_is_finite(s, c);
    exact::lemma_exact_div(s, n);
    exact::lemma_over(s.exact(), k);
    // Lower end of the mean.
    let low = level.exact() - 2real * (k * et);
    assert(low * k <= y * k) by {
        assert((level.exact() - 2real * (k * et)) * k == k * level.exact() - 2real * ((k * k) * et))
            by (nonlinear_arith);
    }
    exact::lemma_at_least(y, low, k);
    // Its size.
    exact::lemma_times(e * k, 1real / 2real, k * top);
    assert((k * k) * et == (e * k) * (k * top)) by (nonlinear_arith)
        requires
            et == e * top,
    ;
    assert(exact::rabs(y) <= 2real * top) by {
        assert((2real * top) * k == 2real * (k * top)) by (nonlinear_arith);
        assert((-(2real * top)) * k == -(2real * (k * top))) by (nonlinear_arith);
        exact::lemma_at_least(2real * top, y, k);
        exact::lemma_at_least(y, -(2real * top), k);
    }
    exact::lemma_times(exact::rabs(y), 2real * top, e);
    assert(e * (2real * top) == 2real * et) by (nonlinear_arith)
        requires
            et == e * top,
    ;
    assert((k + 1real) * et == k * et + et) by (nonlinear_arith);
}

/// A bound on losses is not negative where there is a loss.
proof fn lemma_top(losses: Seq<Num>, level: Num, top: real)
    requires
        losses_within(losses, top),
        beyond(losses, level).1 > 0,
    ensures
        top >= 0real,
{
    assert(losses.len() > 0);
    assert(losses[0].finite());
}

/// A mean of a finite sum is finite.
proof fn lemma_mean_is_finite(s: Num, c: nat)
    requires
        s.finite(),
        0 < c < pow2(53),
    ensures
        s.fdiv(Num::whole(false, c)).finite(),
{
    let (n, a, one) = (Num::whole(false, c), s.fabs(), Num::of(ONE));
    integral::lemma_whole_exact(c);
    algebra::lemma_whole_positive(c);
    integral::lemma_whole_order(1, c);
    assert(Num::whole(false, 1) == one) by {
        reveal(Num::whole);
        algebra::lemma_one_size();
        arith::lemma_round_exact(one);
        assert(1 * pow2(1074) == pow2(1074));
    }
    algebra::law_div_antitone(a, one, n);
    algebra::law_div_one(a);
    reveal(Num::fdiv);
    assert(a.size() == s.size());
}

} // verus!
