//! Volatility metrics: the realized-vol cone, rank and percentile of an
//! implied vol in its history, skew at the 25-delta wings, and the vol risk
//! premium.
//!
//! What cannot be measured is absent: a window without enough samples is left
//! out, a rank without history is none.

use crate::algebra;
use crate::black_scholes::{self, BsGreeks, BsInputs, BsTerms, QuantError};
use crate::consts::{HALF, INFINITY, NEG_INFINITY, ONE, ZERO};
use crate::exact;
use crate::market::{Candle, OptionQuote, OptionRight};
use crate::num::Num;
use crate::realized_vol::{self, BarRatios, MIN_BARS_RANGE, MIN_BARS_RETURNS};
use crate::risk;
use crate::rnd;
use crate::sorting;
use crate::stats;
use crate::sums;
use vstd::arithmetic::power2::*;
use vstd::prelude::*;

verus! {

/// Windows of the realized-vol cone, in bars.
pub const VOL_CONE_WINDOWS: [usize; 6] = [5, 10, 20, 30, 45, 60];

/// Fewest rolling samples of a window of the cone.
pub const VOL_CONE_MIN_SAMPLES: usize = 2;

/// Least history of a rank or percentile.
pub const IV_METRICS_MIN_HISTORY: usize = 2;

/// Lower quartile of the cone (0.25).
pub const CONE_P25: u64 = 0x3FD0_0000_0000_0000;

/// Median of the cone (0.5).
pub const CONE_MEDIAN: u64 = 0x3FE0_0000_0000_0000;

/// Upper quartile of the cone (0.75).
pub const CONE_P75: u64 = 0x3FE8_0000_0000_0000;

/// Absolute delta of the wings (0.25).
pub const WING_TARGET_DELTA: u64 = 0x3FD0_0000_0000_0000;

/// Dividend yield of recomputed deltas (0.0).
pub const SKEW_DIV_YIELD: u64 = 0x0000_0000_0000_0000;

/// Least gap that is interpolated over (1e-12).
pub const DELTA_INTERP_EPS: u64 = 0x3D71_9799_812D_EA11;

/// Realized-volatility estimator.
#[derive(Debug, Clone, Copy, PartialEq, Eq, Structural)]
pub enum RvEstimator {
    /// Close-to-close sample volatility.
    CloseToClose,
    /// Parkinson high-low range.
    Parkinson,
    /// Garman-Klass.
    GarmanKlass,
    /// Rogers-Satchell.
    RogersSatchell,
    /// Yang-Zhang.
    YangZhang,
}

impl RvEstimator {
    /// Least number of candles.
    pub open spec fn min_bars(self) -> usize {
        match self {
            RvEstimator::CloseToClose | RvEstimator::YangZhang => MIN_BARS_RETURNS,
            _ => MIN_BARS_RANGE,
        }
    }

    /// The estimate from logarithms of ratios.
    pub open spec fn value(self, logs: Seq<BarRatios>, periods: Num) -> Num {
        match self {
            RvEstimator::CloseToClose => realized_vol::close_to_close_of(logs, periods),
            RvEstimator::Parkinson => realized_vol::parkinson_of(logs, periods),
            RvEstimator::GarmanKlass => realized_vol::garman_klass_of(logs, periods),
            RvEstimator::RogersSatchell => realized_vol::rogers_satchell_of(logs, periods),
            RvEstimator::YangZhang => realized_vol::yang_zhang_of(logs, periods),
        }
    }

    /// The estimate of a series, or what is wrong with it.
    pub open spec fn estimate(
        self,
        candles: Seq<Candle>,
        logs: Seq<BarRatios>,
        periods: Num,
    ) -> Result<Num, QuantError> {
        match realized_vol::series_problem(candles, self.min_bars()) {
            Some(e) => Err(e),
            None => Ok(self.value(logs, periods)),
        }
    }

    /// Applies the estimator.  `logs` holds the machine's logarithms at the
    /// ratios of each candle.
    pub fn apply(self, candles: &Vec<Candle>, logs: &Vec<BarRatios>, periods_per_year: Num) -> (r:
        Result<Num, QuantError>)
        requires
            logs@.len() == candles@.len(),
        ensures
            r == self.estimate(candles@, logs@, periods_per_year),
    {
        match self {
            RvEstimator::CloseToClose => realized_vol::close_to_close(
                candles,
                logs,
                periods_per_year,
            ),
            RvEstimator::Parkinson => realized_vol::parkinson(candles, logs, periods_per_year),
            RvEstimator::GarmanKlass => realized_vol::garman_klass(candles, logs, periods_per_year),
            RvEstimator::RogersSatchell => realized_vol::rogers_satchell(
                candles,
                logs,
                periods_per_year,
            ),
            RvEstimator::YangZhang => realized_vol::yang_zhang(candles, logs, periods_per_year),
        }
    }
}

/// One window of the cone.
#[derive(Debug, Clone, Copy, PartialEq)]
pub struct VolConeWindow {
    /// Window length, bars.
    pub window: usize,
    /// Least rolling vol.
    pub min: Num,
    /// 25th percentile.
    pub p25: Num,
    /// Median.
    pub median: Num,
    /// 75th percentile.
    pub p75: Num,
    /// Greatest rolling vol.
    pub max: Num,
    /// Vol of the latest window.
    pub current: Num,
    /// Number of rolling samples.
    pub sample_count: usize,
}

/// A realized-vol cone.
#[derive(Debug, PartialEq)]
pub struct VolCone {
    /// Windows with enough samples.
    pub windows: Vec<VolConeWindow>,
}

/// The finite rolling estimates of the first `n` windows of length `w`.
pub open spec fn rolling(
    est: RvEstimator,
    candles: Seq<Candle>,
    logs: Seq<BarRatios>,
    periods: Num,
    w: int,
    n: nat,
) -> Result<Seq<Num>, QuantError>
    decreases n,
{
    if n == 0 {
        Ok(Seq::empty())
    } else {
        match rolling(est, candles, logs, periods, w, (n - 1) as nat) {
            Err(e) => Err(e),
            Ok(rest) => match est.estimate(
                candles.subrange(n - 1, n - 1 + w),
                logs.subrange(n - 1, n - 1 + w),
                periods,
            ) {
                Ok(v) => if v.finite() {
                    Ok(rest.push(v))
                } else {
                    Ok(rest)
                },
                Err(QuantError::InsufficientData { .. }) => Ok(rest),
                Err(e) => Err(e),
            },
        }
    }
}

impl VolConeWindow {
    /// The distribution of some rolling vols.
    pub open spec fn of_samples(window: usize, rvs: Seq<Num>) -> VolConeWindow {
        let sorted = sorting::sorted(rvs);
        VolConeWindow {
            window,
            min: sorted[0],
            p25: stats::quantile(sorted, Num::of(CONE_P25)),
            median: stats::quantile(sorted, Num::of(CONE_MEDIAN)),
            p75: stats::quantile(sorted, Num::of(CONE_P75)),
            max: sorted[sorted.len() - 1],
            current: rvs.last(),
            sample_count: rvs.len() as usize,
        }
    }
}

/// The windows of the cone among the first `n` lengths.
pub open spec fn cone_of(
    est: RvEstimator,
    candles: Seq<Candle>,
    logs: Seq<BarRatios>,
    periods: Num,
    windows: Seq<usize>,
    n: nat,
) -> Result<Seq<VolConeWindow>, QuantError>
    decreases n,
{
    if n == 0 {
        Ok(Seq::empty())
    } else {
        let w = windows[n - 1];
        match cone_of(est, candles, logs, periods, windows, (n - 1) as nat) {
            Err(e) => Err(e),
            Ok(rest) => if w == 0 || candles.len() < w {
                Ok(rest)
            } else {
                match rolling(
                    est,
                    candles,
                    logs,
                    periods,
                    w as int,
                    (candles.len() - w + 1) as nat,
                ) {
                    Err(e) => Err(e),
                    Ok(rvs) => if rvs.len() < VOL_CONE_MIN_SAMPLES {
                        Ok(rest)
                    } else {
                        Ok(rest.push(VolConeWindow::of_samples(w, rvs)))
                    },
                }
            },
        }
    }
}

fn slice_of<T: Copy>(v: &Vec<T>, lo: usize, hi: usize) -> (r: Vec<T>)
    requires
        lo <= hi <= v@.len(),
    ensures
        r@ == v@.subrange(lo as int, hi as int),
{
    let mut r: Vec<T> = Vec::new();
    let mut i: usize = lo;
    while i < hi
        invariant
            lo <= i <= hi <= v@.len(),
            r@ == v@.subrange(lo as int, i as int),
        decreases hi - i,
    {
        r.push(v[i]);
        i = i + 1;
        proof {
            assert(r@ =~= v@.subrange(lo as int, i as int));
        }
    }
    r
}

fn rolling_vols(
    est: RvEstimator,
    candles: &Vec<Candle>,
    logs: &Vec<BarRatios>,
    periods_per_year: Num,
    w: usize,
) -> (r: Result<Vec<Num>, QuantError>)
    requires
        logs@.len() == candles@.len(),
        0 < w <= candles@.len(),
    ensures
        ({
            let n = (candles@.len() - w + 1) as nat;
            match r {
                Ok(v) => rolling(est, candles@, logs@, periods_per_year, w as int, n) == Ok::<
                    Seq<Num>,
                    QuantError,
                >(v@),
                Err(e) => rolling(est, candles@, logs@, periods_per_year, w as int, n) == Err::<
                    Seq<Num>,
                    QuantError,
                >(e),
            }
        }),
{
    let len: usize = candles.len();
    let mut rvs: Vec<Num> = Vec::new();
    let mut start: usize = 0;
    while start <= len - w
        invariant
            len == candles@.len() == logs@.len(),
            0 < w <= len,
            start <= len - w + 1,
            rolling(est, candles@, logs@, periods_per_year, w as int, start as nat) == Ok::<
                Seq<Num>,
                QuantError,
            >(rvs@),
        decreases len - w + 1 - start,
    {
        let part = slice_of(candles, start, start + w);
        let part_logs = slice_of(logs, start, start + w);
        match est.apply(&part, &part_logs, periods_per_year) {
            Ok(v) => {
                if v.is_finite() {
                    rvs.push(v);
                }
            },
            Err(QuantError::InsufficientData { .. }) => {},
            Err(e) => {
                proof {
                    lemma_rolling_error(
                        est,
                        candles@,
                        logs@,
                        periods_per_year,
                        w as int,
                        (start + 1) as nat,
                        (len - w + 1) as nat,
                    );
                }
                return Err(e);
            },
        }
        start = start + 1;
    }
    Ok(rvs)
}

proof fn lemma_rolling_error(
    est: RvEstimator,
    candles: Seq<Candle>,
    logs: Seq<BarRatios>,
    periods: Num,
    w: int,
    n: nat,
    m: nat,
)
    requires
        n <= m,
        rolling(est, candles, logs, periods, w, n) is Err,
    ensures
        rolling(est, candles, logs, periods, w, m) == rolling(est, candles, logs, periods, w, n),
    decreases m,
{
    if n < m {
        lemma_rolling_error(est, candles, logs, periods, w, n, (m - 1) as nat);
    }
}

proof fn lemma_cone_error(
    est: RvEstimator,
    candles: Seq<Candle>,
    logs: Seq<BarRatios>,
    periods: Num,
    windows: Seq<usize>,
    n: nat,
    m: nat,
)
    requires
        n <= m,
        cone_of(est, candles, logs, periods, windows, n) is Err,
    ensures
        cone_of(est, candles, logs, periods, windows, m) == cone_of(
            est,
            candles,
            logs,
            periods,
            windows,
            n,
        ),
    decreases m,
{
    if n < m {
        lemma_cone_error(est, candles, logs, periods, windows, n, (m - 1) as nat);
    }
}

/// The cone of rolling realized vols over some windows.
///
/// Windows that are empty, longer than the series or without enough samples are
/// left out; a malformed candle in a window is an error.  `logs` holds the
/// machine's logarithms at the ratios of each candle.
pub fn vol_cone(
    candles: &Vec<Candle>,
    windows: &Vec<usize>,
    periods_per_year: Num,
    estimator: RvEstimator,
    logs: &Vec<BarRatios>,
) -> (r: Result<VolCone, QuantError>)
    requires
        logs@.len() == candles@.len(),
    ensures
        match r {
            Ok(c) => cone_of(
                estimator,
                candles@,
                logs@,
                periods_per_year,
                windows@,
                windows@.len(),
            ) == Ok::<Seq<VolConeWindow>, QuantError>(c.windows@),
            Err(e) => cone_of(
                estimator,
                candles@,
                logs@,
                periods_per_year,
                windows@,
                windows@.len(),
            ) == Err::<Seq<VolConeWindow>, QuantError>(e),
        },
{
    let mut out: Vec<VolConeWindow> = Vec::new();
    let mut i: usize = 0;
    while i < windows.len()
        invariant
            i <= windows@.len(),
            logs@.len() == candles@.len(),
            cone_of(estimator, candles@, logs@, periods_per_year, windows@, i as nat) == Ok::<
                Seq<VolConeWindow>,
                QuantError,
            >(out@),
        decreases windows@.len() - i,
    {
        let w: usize = windows[i];
        if w > 0 && candles.len() >= w {
            match rolling_vols(estimator, candles, logs, periods_per_year, w) {
                Err(e) => {
                    proof {
                        lemma_cone_error(
                            estimator,
                            candles@,
                            logs@,
                            periods_per_year,
                            windows@,
                            (i + 1) as nat,
                            windows@.len(),
                        );
                    }
                    return Err(e);
                },
                Ok(rvs) => {
                    if rvs.len() >= VOL_CONE_MIN_SAMPLES {
                        let sorted = sorting::sort(&rvs);
                        out.push(
                            VolConeWindow {
                                window: w,
                                min: sorted[0],
                                p25: stats::quantile_sorted(&sorted, Num::of(CONE_P25)),
                                median: stats::quantile_sorted(&sorted, Num::of(CONE_MEDIAN)),
                                p75: stats::quantile_sorted(&sorted, Num::of(CONE_P75)),
                                max: sorted[sorted.len() - 1],
                                current: rvs[rvs.len() - 1],
                                sample_count: rvs.len(),
                            },
                        );
                    }
                },
            }
        }
        i = i + 1;
    }
    Ok(VolCone { windows: out })
}

/// Rank and percentile of an implied vol.
#[derive(Debug, Clone, Copy, PartialEq)]
pub struct IvMetrics {
    /// The implied vol measured.
    pub current_iv: Num,
    /// Place between the least and the greatest of the history, from 0 to 1;
    /// none where the history is too short or has no spread, or the vol is not
    /// a number.
    pub rank: Option<Num>,
    /// Fraction of the history below; none where the history is too short.
    pub percentile: Option<Num>,
    /// Usable observations.
    pub history_len: usize,
}

/// The usable observations of a history.
pub open spec fn usable_history(history: Seq<Num>) -> Seq<Num>
    decreases history.len(),
{
    if history.len() == 0 {
        Seq::empty()
    } else {
        let rest = usable_history(history.drop_last());
        if rnd::usable(history.last()) {
            rest.push(history.last())
        } else {
            rest
        }
    }
}

/// The least of a history, from infinity.
pub open spec fn least(s: Seq<Num>) -> Num
    decreases s.len(),
{
    if s.len() == 0 {
        Num::of(INFINITY)
    } else {
        least(s.drop_last()).fmin(s.last())
    }
}

/// The greatest of a history, from minus infinity.
pub open spec fn greatest(s: Seq<Num>) -> Num
    decreases s.len(),
{
    if s.len() == 0 {
        Num::of(NEG_INFINITY)
    } else {
        greatest(s.drop_last()).fmax(s.last())
    }
}

/// How many observations lie below a level.
pub open spec fn count_below(s: Seq<Num>, level: Num) -> nat
    decreases s.len(),
{
    if s.len() == 0 {
        0
    } else {
        count_below(s.drop_last(), level) + if s.last().flt(level) {
            1nat
        } else {
            0
        }
    }
}

/// Where a level lies between two bounds, from 0 to 1.
pub open spec fn place_between(level: Num, lo: Num, hi: Num) -> Num {
    level.fsub(lo).fdiv(hi.fsub(lo)).fclamp(Num::of(ZERO), Num::of(ONE))
}

impl IvMetrics {
    /// The metrics of a vol against a history.
    pub open spec fn of_history(current_iv: Num, history: Seq<Num>) -> IvMetrics {
        let hist = usable_history(history);
        let n = hist.len();
        let (lo, hi) = (least(hist), greatest(hist));
        if n < IV_METRICS_MIN_HISTORY {
            IvMetrics { current_iv, rank: None, percentile: None, history_len: n as usize }
        } else {
            IvMetrics {
                current_iv,
                rank: if lo.flt(hi) && !current_iv.nan() {
                    Some(place_between(current_iv, lo, hi))
                } else {
                    None
                },
                percentile: Some(
                    Num::whole(false, count_below(hist, current_iv)).fdiv(Num::whole(false, n)),
                ),
                history_len: n as usize,
            }
        }
    }
}

/// Rank and percentile of an implied vol in a history; unusable observations
/// are left out.
pub fn iv_metrics(current_iv: Num, history: &Vec<Num>) -> (r: IvMetrics)
    ensures
        r == IvMetrics::of_history(current_iv, history@),
{
    let mut hist: Vec<Num> = Vec::new();
    let mut i: usize = 0;
    proof {
        assert(history@.take(0) =~= Seq::<Num>::empty());
    }
    while i < history.len()
        invariant
            i <= history@.len(),
            hist@ == usable_history(history@.take(i as int)),
        decreases history@.len() - i,
    {
        proof {
            assert(history@.take(i + 1).drop_last() =~= history@.take(i as int));
        }
        let v = history[i];
        if v.is_finite() && v > Num::of(ZERO) {
            hist.push(v);
        }
        i = i + 1;
    }
    proof {
        assert(history@.take(i as int) =~= history@);
    }
    let n: usize = hist.len();
    if n < IV_METRICS_MIN_HISTORY {
        return IvMetrics { current_iv, rank: None, percentile: None, history_len: n };
    }
    let mut min = Num::of(INFINITY);
    let mut max = Num::of(NEG_INFINITY);
    let mut below: u64 = 0;
    let mut i: usize = 0;
    proof {
        assert(hist@.take(0) =~= Seq::<Num>::empty());
    }
    while i < n
        invariant
            i <= n == hist@.len(),
            min == least(hist@.take(i as int)),
            max == greatest(hist@.take(i as int)),
            below == count_below(hist@.take(i as int), current_iv),
            below <= i,
        decreases n - i,
    {
        proof {
            assert(hist@.take(i + 1).drop_last() =~= hist@.take(i as int));
        }
        min = min.min(hist[i]);
        max = max.max(hist[i]);
        if hist[i] < current_iv {
            below = below + 1;
        }
        i = i + 1;
    }
    proof {
        assert(hist@.take(i as int) =~= hist@);
    }
    let rank = if max > min && !current_iv.is_nan() {
        Some(((current_iv - min) / (max - min)).clamp(Num::of(ZERO), Num::of(ONE)))
    } else {
        None
    };
    let percentile = Some(Num::from_u64(below) / Num::from_u64(n as u64));
    IvMetrics { current_iv, rank, percentile, history_len: n }
}

proof fn lemma_count_below(s: Seq<Num>, level: Num)
    ensures
        count_below(s, level) <= s.len(),
    decreases s.len(),
{
    if s.len() > 0 {
        lemma_count_below(s.drop_last(), level);
    }
}

/// The extremes of a usable history are finite and positive.
proof fn lemma_extremes_usable(history: Seq<Num>)
    requires
        usable_history(history).len() > 0,
    ensures
        rnd::usable(least(usable_history(history))),
        rnd::usable(greatest(usable_history(history))),
    decreases history.len(),
{
    let (h, r) = (usable_history(history), usable_history(history.drop_last()));
    if rnd::usable(history.last()) {
        assert(h.drop_last() =~= r);
        assert(h.last() == history.last());
    }
    if r.len() > 0 {
        lemma_extremes_usable(history.drop_last());
    } else {
        assert(least(r) == Num::of(INFINITY) && greatest(r) == Num::of(NEG_INFINITY));
    }
}

/// The place of a number in a history with spread is a number.
proof fn lemma_place_is_number(level: Num, lo: Num, hi: Num)
    requires
        !level.nan(),
        rnd::usable(lo),
        rnd::usable(hi),
        lo.flt(hi),
    ensures
        !level.fsub(lo).fdiv(hi.fsub(lo)).nan(),
{
    let zero = Num::of(ZERO);
    algebra::lemma_add_finite(level, lo.fneg());
    risk::lemma_opposite_sum(hi, lo.fneg());
    let d = hi.fsub(lo);
    exact::lemma_exact_neg(lo);
    exact::lemma_exact_add(hi, lo.fneg());
    exact::lemma_exact_order(lo, hi);
    exact::lemma_exact_zero(zero);
    exact::lemma_times(exact::eps(), 1real / 2real, hi.exact() - lo.exact());
    exact::lemma_exact_order(zero, d);
    algebra::lemma_div_finite(level.fsub(lo), d);
}

/// A rank and a percentile lie between 0 and 1.  The percentile is absent
/// exactly where the usable history is too short, the rank there, where the
/// history has no spread, and for a vol that is not a number.
pub proof fn law_rank_and_percentile_bounded(current_iv: Num, history: Seq<Num>)
    requires
        usable_history(history).len() < pow2(53),
    ensures
        ({
            let m = IvMetrics::of_history(current_iv, history);
            let hist = usable_history(history);
            let short = hist.len() < IV_METRICS_MIN_HISTORY;
            &&& m.rank matches Some(v) ==> Num::of(ZERO).fle(v) && v.fle(Num::of(ONE))
            &&& m.percentile matches Some(v) ==> Num::of(ZERO).fle(v) && v.fle(Num::of(ONE))
            &&& m.percentile is None <==> short
            &&& m.rank is None <==> short || !least(hist).flt(greatest(hist)) || current_iv.nan()
        }),
{
    let hist = usable_history(history);
    lemma_count_below(hist, current_iv);
    if hist.len() > 0 {
        algebra::lemma_fraction(count_below(hist, current_iv), hist.len());
        lemma_extremes_usable(history);
    }
    if hist.len() > 0 && least(hist).flt(greatest(hist)) && !current_iv.nan() {
        lemma_place_is_number(current_iv, least(hist), greatest(hist));
    }
}

/// Skew at the 25-delta wings.
#[derive(Debug, Clone, Copy, PartialEq)]
pub struct SkewAnalytics {
    /// Mean vol at the strike nearest to spot.
    pub atm_iv: Num,
    /// Vol of the 25-delta call.
    pub call_25d_iv: Option<Num>,
    /// Vol of the 25-delta put.
    pub put_25d_iv: Option<Num>,
    /// Call wing less put wing.
    pub risk_reversal_25d: Option<Num>,
    /// Mean of the wings less the money.
    pub butterfly_25d: Option<Num>,
    /// Vol per point between the wings' strikes.
    pub skew_slope: Option<Num>,
}

/// A quote with a vol and a delta.
#[derive(Debug, Clone, Copy, PartialEq)]
pub struct SkewRow {
    /// Strike, points.
    pub strike: Num,
    /// Call or put.
    pub right: OptionRight,
    /// Absolute delta.
    pub abs_delta: Num,
    /// Implied vol.
    pub iv: Num,
}

/// The contract of a quote at a vol.
pub open spec fn skew_contract(q: OptionQuote, iv: Num, spot: Num, t_years: Num, rate: Num) -> BsInputs {
    BsInputs {
        spot,
        strike: q.strike,
        t_years,
        vol: iv,
        rate,
        div_yield: Num::of(SKEW_DIV_YIELD),
    }
}

/// The contract whose delta the kernel computes for a quote, where the quote
/// carries no usable delta of its own.
pub fn skew_kernel_inputs(
    quote: &OptionQuote,
    solved: Option<Num>,
    spot: Num,
    t_years: Num,
    rate: Num,
) -> (r: Option<BsInputs>)
    ensures
        r == (match rnd::vol_of(*quote, solved) {
            None => None,
            Some(iv) => if quote.greeks is Some && (quote.greeks->0).delta.finite() {
                None
            } else {
                Some(skew_contract(*quote, iv, spot, t_years, rate))
            },
        }),
{
    match rnd::quote_implied_vol(quote, solved) {
        None => None,
        Some(iv) => {
            if let Some(g) = quote.greeks {
                if g.delta.is_finite() {
                    return None;
                }
            }
            Some(
                BsInputs {
                    spot,
                    strike: quote.strike,
                    t_years,
                    vol: iv,
                    rate,
                    div_yield: Num::of(SKEW_DIV_YIELD),
                },
            )
        },
    }
}

/// The row of a quote, if it has a vol and a delta.
pub open spec fn skew_row(
    q: OptionQuote,
    solved: Option<Num>,
    spot: Num,
    t_years: Num,
    rate: Num,
    t: BsTerms,
) -> Option<SkewRow> {
    match rnd::vol_of(q, solved) {
        None => None,
        Some(iv) => {
            let c = skew_contract(q, iv, spot, t_years, rate);
            if q.greeks is Some && (q.greeks->0).delta.finite() {
                Some(
                    SkewRow {
                        strike: q.strike,
                        right: q.right,
                        abs_delta: (q.greeks->0).delta.fabs(),
                        iv,
                    },
                )
            } else if c.in_domain() {
                Some(
                    SkewRow {
                        strike: q.strike,
                        right: q.right,
                        abs_delta: BsGreeks::of_contract(c, q.right, t).delta.fabs(),
                        iv,
                    },
                )
            } else {
                None
            }
        },
    }
}

/// The rows of the first `n` quotes.
pub open spec fn skew_rows(
    quotes: Seq<OptionQuote>,
    solved: Seq<Option<Num>>,
    spot: Num,
    t_years: Num,
    rate: Num,
    terms: Seq<BsTerms>,
    n: nat,
) -> Seq<SkewRow>
    decreases n,
{
    if n == 0 {
        Seq::empty()
    } else {
        let rest = skew_rows(quotes, solved, spot, t_years, rate, terms, (n - 1) as nat);
        match skew_row(quotes[n - 1], solved[n - 1], spot, t_years, rate, terms[n - 1]) {
            Some(row) => rest.push(row),
            None => rest,
        }
    }
}

/// The row nearest to spot among the first `n`, the first of equals.
pub open spec fn nearest_row(rows: Seq<SkewRow>, spot: Num, n: nat) -> int
    decreases n,
{
    if n <= 1 {
        0
    } else {
        let k = nearest_row(rows, spot, (n - 1) as nat);
        if rows[n - 1].strike.fsub(spot).fabs().rank() < rows[k].strike.fsub(spot).fabs().rank() {
            n - 1
        } else {
            k
        }
    }
}

/// The vols of the rows at a strike.
pub open spec fn vols_at(rows: Seq<SkewRow>, strike: Num) -> Seq<Num>
    decreases rows.len(),
{
    if rows.len() == 0 {
        Seq::empty()
    } else {
        let rest = vols_at(rows.drop_last(), strike);
        if rows.last().strike.feq(strike) {
            rest.push(rows.last().iv)
        } else {
            rest
        }
    }
}

/// The rows of one right.
pub open spec fn side_of(rows: Seq<SkewRow>, right: OptionRight) -> Seq<SkewRow>
    decreases rows.len(),
{
    if rows.len() == 0 {
        Seq::empty()
    } else {
        let rest = side_of(rows.drop_last(), right);
        if rows.last().right == right {
            rest.push(rows.last())
        } else {
            rest
        }
    }
}

/// Order of rows: by strike.
pub open spec fn row_before(a: SkewRow, b: SkewRow) -> bool {
    a.strike.rank() < b.strike.rank()
}

/// The rows of one right by strike.
pub open spec fn wing_of(rows: Seq<SkewRow>, right: OptionRight) -> Seq<SkewRow> {
    sorting::stable_sorted(side_of(rows, right), |a: SkewRow, b: SkewRow| row_before(a, b))
}

/// Whether the deltas of two rows straddle a target.
pub open spec fn straddles(a: SkewRow, b: SkewRow, target: Num) -> bool {
    let (d0, d1) = (a.abs_delta, b.abs_delta);
    let (lo, hi) = if d0.fle(d1) {
        (d0, d1)
    } else {
        (d1, d0)
    };
    &&& lo.fle(target)
    &&& target.fle(hi)
    &&& Num::of(DELTA_INTERP_EPS).flt(d1.fsub(d0).fabs())
}

/// Vol and strike at a target delta, in the first pair from row `i` on that
/// straddles it.
pub open spec fn wing_from(rows: Seq<SkewRow>, target: Num, i: nat) -> Option<(Num, Num)>
    decreases rows.len() - i,
{
    if i + 1 >= rows.len() {
        None
    } else {
        let (a, b) = (rows[i as int], rows[i as int + 1]);
        if straddles(a, b, target) {
            let frac = target.fsub(a.abs_delta).fdiv(b.abs_delta.fsub(a.abs_delta));
            Some(
                (
                    a.iv.fadd(frac.fmul(b.iv.fsub(a.iv))),
                    a.strike.fadd(frac.fmul(b.strike.fsub(a.strike))),
                ),
            )
        } else {
            wing_from(rows, target, i + 1)
        }
    }
}

impl SkewAnalytics {
    /// The skew of some rows.
    pub open spec fn of_rows(rows: Seq<SkewRow>, spot: Num) -> SkewAnalytics {
        let ivs = vols_at(rows, rows[nearest_row(rows, spot, rows.len())].strike);
        let atm_iv = sums::sum(ivs).fdiv(Num::whole(false, ivs.len()));
        let call = wing_from(wing_of(rows, OptionRight::Call), Num::of(WING_TARGET_DELTA), 0);
        let put = wing_from(wing_of(rows, OptionRight::Put), Num::of(WING_TARGET_DELTA), 0);
        match (call, put) {
            (Some((c, ck)), Some((p, pk))) => SkewAnalytics {
                atm_iv,
                call_25d_iv: Some(c),
                put_25d_iv: Some(p),
                risk_reversal_25d: Some(c.fsub(p)),
                butterfly_25d: Some(Num::of(HALF).fmul(c.fadd(p)).fsub(atm_iv)),
                skew_slope: if Num::of(DELTA_INTERP_EPS).flt(ck.fsub(pk).fabs()) {
                    Some(c.fsub(p).fdiv(ck.fsub(pk)))
                } else {
                    None
                },
            },
            _ => SkewAnalytics {
                atm_iv,
                call_25d_iv: match call {
                    Some((c, _)) => Some(c),
                    None => None,
                },
                put_25d_iv: match put {
                    Some((p, _)) => Some(p),
                    None => None,
                },
                risk_reversal_25d: None,
                butterfly_25d: None,
                skew_slope: None,
            },
        }
    }
}

/// What keeps a chain from having a skew.
pub open spec fn skew_problem(rows: Seq<SkewRow>, spot: Num, t_years: Num, rate: Num) -> Option<
    QuantError,
> {
    if !rnd::usable(spot) {
        Some(QuantError::Domain("skew: spot must be finite and positive"))
    } else if !rnd::usable(t_years) {
        Some(QuantError::Domain("skew: tenor must be finite and positive"))
    } else if !rate.finite() {
        Some(QuantError::Domain("skew: rate must be finite"))
    } else if rows.len() == 0 {
        Some(QuantError::InsufficientData { needed: 1, got: 0 })
    } else {
        None
    }
}

fn collect_rows(
    quotes: &Vec<OptionQuote>,
    solved: &Vec<Option<Num>>,
    spot: Num,
    t_years: Num,
    rate: Num,
    terms: &Vec<BsTerms>,
) -> (r: Vec<SkewRow>)
    requires
        solved@.len() == quotes@.len(),
        terms@.len() == quotes@.len(),
    ensures
        r@ == skew_rows(quotes@, solved@, spot, t_years, rate, terms@, quotes@.len()),
{
    let mut rows: Vec<SkewRow> = Vec::new();
    let mut i: usize = 0;
    while i < quotes.len()
        invariant
            i <= quotes@.len() == solved@.len(),
            terms@.len() == quotes@.len(),
            rows@ == skew_rows(quotes@, solved@, spot, t_years, rate, terms@, i as nat),
        decreases quotes@.len() - i,
    {
        let q = quotes[i];
        if let Some(iv) = rnd::quote_implied_vol(&q, solved[i]) {
            let own = match q.greeks {
                Some(g) => if g.delta.is_finite() {
                    Some(g.delta.abs())
                } else {
                    None
                },
                None => None,
            };
            match own {
                Some(d) => {
                    rows.push(SkewRow { strike: q.strike, right: q.right, abs_delta: d, iv });
                },
                None => {
                    let inputs = BsInputs {
                        spot,
                        strike: q.strike,
                        t_years,
                        vol: iv,
                        rate,
                        div_yield: Num::of(SKEW_DIV_YIELD),
                    };
                    match black_scholes::greeks(&inputs, q.right, &terms[i]) {
                        Ok(g) => {
                            rows.push(
                                SkewRow {
                                    strike: q.strike,
                                    right: q.right,
                                    abs_delta: g.delta.abs(),
                                    iv,
                                },
                            );
                        },
                        Err(_) => {},
                    }
                },
            }
        }
        i = i + 1;
    }
    rows
}

fn wing(rows: &Vec<SkewRow>, right: OptionRight) -> (r: Option<(Num, Num)>)
    ensures
        r == wing_from(wing_of(rows@, right), Num::of(WING_TARGET_DELTA), 0),
{
    let mut side: Vec<SkewRow> = Vec::new();
    let mut i: usize = 0;
    proof {
        assert(rows@.take(0) =~= Seq::<SkewRow>::empty());
    }
    while i < rows.len()
        invariant
            i <= rows@.len(),
            side@ == side_of(rows@.take(i as int), right),
        decreases rows@.len() - i,
    {
        proof {
            assert(rows@.take(i + 1).drop_last() =~= rows@.take(i as int));
        }
        if rows[i].right == right {
            side.push(rows[i]);
        }
        i = i + 1;
    }
    proof {
        assert(rows@.take(i as int) =~= rows@);
    }
    let ghost order = |a: SkewRow, b: SkewRow| row_before(a, b);
    let less = |a: SkewRow, b: SkewRow| -> (c: bool)
        ensures
            c == row_before(a, b),
        { a.strike.before(b.strike) };
    let sorted = sorting::sort_stable(&side, less, Ghost(order));
    interp_at_abs_delta(&sorted, Num::of(WING_TARGET_DELTA))
}

fn interp_at_abs_delta(points: &Vec<SkewRow>, target: Num) -> (r: Option<(Num, Num)>)
    ensures
        r == wing_from(points@, target, 0),
{
    let n: usize = points.len();
    let mut i: usize = 0;
    while i < n && i + 1 < n
        invariant
            i <= n == points@.len(),
            wing_from(points@, target, 0) == wing_from(points@, target, i as nat),
        decreases n - i,
    {
        let (a, b) = (points[i], points[i + 1]);
        let (d0, d1) = (a.abs_delta, b.abs_delta);
        let (lo, hi) = if d0 <= d1 {
            (d0, d1)
        } else {
            (d1, d0)
        };
        if lo <= target && target <= hi && (d1 - d0).abs() > Num::of(DELTA_INTERP_EPS) {
            let frac = (target - d0) / (d1 - d0);
            return Some(
                (a.iv + frac * (b.iv - a.iv), a.strike + frac * (b.strike - a.strike)),
            );
        }
        i = i + 1;
    }
    None
}

fn money_vol(rows: &Vec<SkewRow>, spot: Num) -> (r: Num)
    requires
        rows@.len() > 0,
    ensures
        r == SkewAnalytics::of_rows(rows@, spot).atm_iv,
{
    let mut k: usize = 0;
    let mut i: usize = 1;
    while i < rows.len()
        invariant
            1 <= i <= rows@.len(),
            k < i,
            k == nearest_row(rows@, spot, i as nat),
        decreases rows@.len() - i,
    {
        if (rows[i].strike - spot).abs().before((rows[k].strike - spot).abs()) {
            k = i;
        }
        i = i + 1;
    }
    let atm_strike = rows[k].strike;
    let mut ivs: Vec<Num> = Vec::new();
    let mut i: usize = 0;
    proof {
        assert(rows@.take(0) =~= Seq::<SkewRow>::empty());
    }
    while i < rows.len()
        invariant
            i <= rows@.len(),
            ivs@ == vols_at(rows@.take(i as int), atm_strike),
        decreases rows@.len() - i,
    {
        proof {
            assert(rows@.take(i + 1).drop_last() =~= rows@.take(i as int));
        }
        if rows[i].strike == atm_strike {
            ivs.push(rows[i].iv);
        }
        i = i + 1;
    }
    proof {
        assert(rows@.take(i as int) =~= rows@);
    }
    sums::total(&ivs) / Num::from_u64(ivs.len() as u64)
}

/// Skew of a chain at the 25-delta wings.  Deltas come with the quotes, or from
/// the kernel.
///
/// `solved` holds, for each quote, what the implied-vol search found (see
/// `rnd::solved_vols`); `terms` the machine's terms of the contract of
/// `skew_kernel_inputs`, anything where there is none.
pub fn skew_analytics(
    quotes: &Vec<OptionQuote>,
    spot: Num,
    t_years: Num,
    rate: Num,
    solved: &Vec<Option<Num>>,
    terms: &Vec<BsTerms>,
) -> (r: Result<SkewAnalytics, QuantError>)
    requires
        solved@.len() == quotes@.len(),
        terms@.len() == quotes@.len(),
    ensures
        ({
            let rows = skew_rows(quotes@, solved@, spot, t_years, rate, terms@, quotes@.len());
            let problem = skew_problem(rows, spot, t_years, rate);
            match r {
                Ok(s) => problem is None && s == SkewAnalytics::of_rows(rows, spot),
                Err(e) => problem == Some(e),
            }
        }),
{
    if !(spot.is_finite() && spot > Num::of(ZERO)) {
        return Err(QuantError::Domain("skew: spot must be finite and positive"));
    }
    if !(t_years.is_finite() && t_years > Num::of(ZERO)) {
        return Err(QuantError::Domain("skew: tenor must be finite and positive"));
    }
    if !rate.is_finite() {
        return Err(QuantError::Domain("skew: rate must be finite"));
    }
    let rows = collect_rows(quotes, solved, spot, t_years, rate, terms);
    if rows.len() == 0 {
        return Err(QuantError::InsufficientData { needed: 1, got: 0 });
    }
    let atm_iv = money_vol(&rows, spot);
    let call25 = wing(&rows, OptionRight::Call);
    let put25 = wing(&rows, OptionRight::Put);
    match (call25, put25) {
        (Some((c, ck)), Some((p, pk))) => Ok(
            SkewAnalytics {
                atm_iv,
                call_25d_iv: Some(c),
                put_25d_iv: Some(p),
                risk_reversal_25d: Some(c - p),
                butterfly_25d: Some(Num::of(HALF) * (c + p) - atm_iv),
                skew_slope: if (ck - pk).abs() > Num::of(DELTA_INTERP_EPS) {
                    Some((c - p) / (ck - pk))
                } else {
                    None
                },
            },
        ),
        _ => Ok(
            SkewAnalytics {
                atm_iv,
                call_25d_iv: match call25 {
                    Some((c, _)) => Some(c),
                    None => None,
                },
                put_25d_iv: match put25 {
                    Some((p, _)) => Some(p),
                    None => None,
                },
                risk_reversal_25d: None,
                butterfly_25d: None,
                skew_slope: None,
            },
        ),
    }
}

/// Implied vol less realized vol.
pub fn vol_risk_premium(current_iv: Num, current_rv: Num) -> (r: Num)
    ensures
        r == current_iv.fsub(current_rv),
{
    current_iv - current_rv
}

/// The quartiles of a cone window lie in order between its ends, where no way
/// between two neighbouring vols rounds beyond its end.
pub proof fn law_cone_window_is_ordered(window: usize, rvs: Seq<Num>)
    requires
        2 <= rvs.len() < pow2(53),
        stats::steady(sorting::sorted(rvs)),
    ensures
        ({
            let c = VolConeWindow::of_samples(window, rvs);
            c.min.fle(c.p25) && c.p25.fle(c.median) && c.median.fle(c.p75) && c.p75.fle(c.max)
        }),
{
    let s = sorting::sorted(rvs);
    sorting::law_sorted_sorts(rvs);
    stats::law_quantiles_never_fall(s, Num::of(CONE_P25), Num::of(CONE_MEDIAN));
    stats::law_quantiles_never_fall(s, Num::of(CONE_MEDIAN), Num::of(CONE_P75));
}

} // verus!
