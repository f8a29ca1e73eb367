//! Realized-volatility estimators over candles, annualized by the caller's
//! number of bars per year.
//!
//! Each estimator works on logarithms of price ratios.  `candle_ratios` gives
//! the ratios of every candle; the host machine takes their logarithms.

use crate::black_scholes::QuantError;
use crate::consts::{HALF, ONE, ZERO};
use crate::market::Candle;
use crate::num::Num;
use crate::stats;
use crate::sums;
use vstd::prelude::*;

verus! {

/// Parkinson divisor, four times the logarithm of two (2.772588722239781).
pub const PARKINSON_DIVISOR: u64 = 0x4006_2E42_FEFA_39EF;

/// Garman-Klass coefficient, twice the logarithm of two less one (0.3862943611198906).
pub const GK_CO_COEFF: u64 = 0x3FD8_B90B_FBE8_E7BC;

/// Numerator of the Yang-Zhang weight (0.34).
pub const YZ_ALPHA: u64 = 0x3FD5_C28F_5C28_F5C3;

/// Constant in the denominator of the Yang-Zhang weight (1.34).
pub const YZ_BETA: u64 = 0x3FF5_70A3_D70A_3D71;

/// Least number of candles of the range estimators.
pub const MIN_BARS_RANGE: usize = 1;

/// Least number of candles of the return estimators.
pub const MIN_BARS_RETURNS: usize = 3;

/// A value for each price ratio of a candle: the ratio, or its logarithm.
#[derive(Debug, Clone, Copy, PartialEq)]
pub struct BarRatios {
    /// High over low.
    pub high_low: Num,
    /// Close over open.
    pub close_open: Num,
    /// High over close.
    pub high_close: Num,
    /// High over open.
    pub high_open: Num,
    /// Low over close.
    pub low_close: Num,
    /// Low over open.
    pub low_open: Num,
    /// Close over the close before; one for the first candle.
    pub close_prev: Num,
    /// Open over the close before; one for the first candle.
    pub open_prev: Num,
}

impl BarRatios {
    /// The ratios of a candle after a close.
    pub open spec fn of_bar(c: Candle, prev_close: Option<Num>) -> BarRatios {
        BarRatios {
            high_low: c.high.fdiv(c.low),
            close_open: c.close.fdiv(c.open),
            high_close: c.high.fdiv(c.close),
            high_open: c.high.fdiv(c.open),
            low_close: c.low.fdiv(c.close),
            low_open: c.low.fdiv(c.open),
            close_prev: match prev_close {
                Some(p) => c.close.fdiv(p),
                None => Num::of(ONE),
            },
            open_prev: match prev_close {
                Some(p) => c.open.fdiv(p),
                None => Num::of(ONE),
            },
        }
    }
}

/// The ratios of candle `i`.
pub open spec fn ratios_at(candles: Seq<Candle>, i: int) -> BarRatios {
    BarRatios::of_bar(
        candles[i],
        if i == 0 {
            None
        } else {
            Some(candles[i - 1].close)
        },
    )
}

/// The price ratios of every candle.
pub fn candle_ratios(candles: &Vec<Candle>) -> (r: Vec<BarRatios>)
    ensures
        r@ == Seq::new(candles@.len(), |i: int| ratios_at(candles@, i)),
{
    let mut r: Vec<BarRatios> = Vec::new();
    let mut i: usize = 0;
    while i < candles.len()
        invariant
            i <= candles@.len(),
            r@ == Seq::new(i as nat, |i: int| ratios_at(candles@, i)),
        decreases candles@.len() - i,
    {
        let c = candles[i];
        let (close_prev, open_prev) = if i == 0 {
            (Num::of(ONE), Num::of(ONE))
        } else {
            (c.close / candles[i - 1].close, c.open / candles[i - 1].close)
        };
        r.push(
            BarRatios {
                high_low: c.high / c.low,
                close_open: c.close / c.open,
                high_close: c.high / c.close,
                high_open: c.high / c.open,
                low_close: c.low / c.close,
                low_open: c.low / c.open,
                close_prev,
                open_prev,
            },
        );
        i = i + 1;
    }
    r
}

/// Whether a candle's prices are positive, finite and in order.
pub open spec fn sane(c: Candle) -> bool {
    &&& Num::of(ZERO).flt(c.open)
    &&& Num::of(ZERO).flt(c.close)
    &&& Num::of(ZERO).flt(c.low)
    &&& c.low.fle(c.high)
    &&& c.open.fmax(c.close).fle(c.high)
    &&& c.low.fle(c.open.fmin(c.close))
    &&& c.open.finite()
    &&& c.high.finite()
    &&& c.low.finite()
    &&& c.close.finite()
}

/// Whether every candle is sane.
pub open spec fn all_sane(candles: Seq<Candle>) -> bool {
    forall|i: int| 0 <= i < candles.len() ==> sane(#[trigger] candles[i])
}

/// What is wrong with a series for an estimator of at least `min` candles.
pub open spec fn series_problem(candles: Seq<Candle>, min: usize) -> Option<QuantError> {
    if candles.len() < min {
        Some(QuantError::InsufficientData { needed: min, got: candles.len() as usize })
    } else if !all_sane(candles) {
        Some(QuantError::Domain("candle OHLC out of domain"))
    } else {
        None
    }
}

fn is_sane(c: &Candle) -> (r: bool)
    ensures
        r == sane(*c),
{
    let zero = Num::of(ZERO);
    c.open > zero && c.close > zero && c.low > zero && c.high >= c.low && c.high >= c.open.max(
        c.close,
    ) && c.low <= c.open.min(c.close) && c.open.is_finite() && c.high.is_finite()
        && c.low.is_finite() && c.close.is_finite()
}

fn validate(candles: &Vec<Candle>, min: usize) -> (r: Result<(), QuantError>)
    ensures
        match r {
            Ok(_) => series_problem(candles@, min) is None,
            Err(e) => series_problem(candles@, min) == Some(e),
        },
{
    if candles.len() < min {
        return Err(QuantError::InsufficientData { needed: min, got: candles.len() });
    }
    let mut i: usize = 0;
    while i < candles.len()
        invariant
            min <= candles@.len(),
            i <= candles@.len(),
            forall|k: int| 0 <= k < i ==> sane(#[trigger] candles@[k]),
        decreases candles@.len() - i,
    {
        if !is_sane(&candles[i]) {
            proof {
                assert(!sane(candles@[i as int]));
            }
            return Err(QuantError::Domain("candle OHLC out of domain"));
        }
        i = i + 1;
    }
    Ok(())
}

/// The log returns after the first candle.
pub open spec fn close_returns(logs: Seq<BarRatios>) -> Seq<Num> {
    Seq::new((logs.len() - 1) as nat, |i: int| logs[i + 1].close_prev)
}

/// The overnight log returns after the first candle.
pub open spec fn overnight_returns(logs: Seq<BarRatios>) -> Seq<Num> {
    Seq::new((logs.len() - 1) as nat, |i: int| logs[i + 1].open_prev)
}

/// The open-to-close log returns after the first candle.
pub open spec fn session_returns(logs: Seq<BarRatios>) -> Seq<Num> {
    Seq::new((logs.len() - 1) as nat, |i: int| logs[i + 1].close_open)
}

/// The Rogers-Satchell term of a candle.
pub open spec fn rs_term(l: BarRatios) -> Num {
    l.high_close.fmul(l.high_open).fadd(l.low_close.fmul(l.low_open))
}

/// The Rogers-Satchell terms after the first candle.
pub open spec fn rs_terms_after_first(logs: Seq<BarRatios>) -> Seq<Num> {
    Seq::new((logs.len() - 1) as nat, |i: int| rs_term(logs[i + 1]))
}

/// The Garman-Klass term of a candle.
pub open spec fn gk_term(l: BarRatios) -> Num {
    Num::of(HALF).fmul(l.high_low).fmul(l.high_low).fsub(
        Num::of(GK_CO_COEFF).fmul(l.close_open).fmul(l.close_open),
    )
}

/// The close-to-close estimate.
pub open spec fn close_to_close_of(logs: Seq<BarRatios>, periods: Num) -> Num {
    stats::variance_of(close_returns(logs)).fmul(periods).fsqrt()
}

/// The Parkinson estimate.
pub open spec fn parkinson_of(logs: Seq<BarRatios>, periods: Num) -> Num {
    let sum = sums::sum(logs.map_values(|l: BarRatios| l.high_low.fmul(l.high_low)));
    periods.fmul(sum).fdiv(
        Num::whole(false, logs.len()).fmul(Num::of(PARKINSON_DIVISOR)),
    ).fsqrt()
}

/// The Garman-Klass estimate.
pub open spec fn garman_klass_of(logs: Seq<BarRatios>, periods: Num) -> Num {
    let sum = sums::sum(logs.map_values(|l: BarRatios| gk_term(l)));
    periods.fmul(sum).fdiv(Num::whole(false, logs.len())).fmax(Num::of(ZERO)).fsqrt()
}

/// The Rogers-Satchell estimate.
pub open spec fn rogers_satchell_of(logs: Seq<BarRatios>, periods: Num) -> Num {
    let sum = sums::sum(logs.map_values(|l: BarRatios| rs_term(l)));
    periods.fmul(sum).fdiv(Num::whole(false, logs.len())).fmax(Num::of(ZERO)).fsqrt()
}

/// The Yang-Zhang weight of `n` gaps.
pub open spec fn yz_weight(n: Num) -> Num {
    Num::of(YZ_ALPHA).fdiv(
        Num::of(YZ_BETA).fadd(n.fadd(Num::of(ONE)).fdiv(n.fsub(Num::of(ONE)))),
    )
}

/// The Yang-Zhang estimate.
pub open spec fn yang_zhang_of(logs: Seq<BarRatios>, periods: Num) -> Num {
    let n = Num::whole(false, (logs.len() - 1) as nat);
    let k = yz_weight(n);
    let rs_mean = sums::sum(rs_terms_after_first(logs)).fdiv(n);
    let var = stats::variance_of(overnight_returns(logs)).fadd(
        k.fmul(stats::variance_of(session_returns(logs))),
    ).fadd(Num::of(ONE).fsub(k).fmul(rs_mean));
    periods.fmul(var).fmax(Num::of(ZERO)).fsqrt()
}

/// Close-to-close estimator: standard deviation of log returns.
///
/// `logs` holds the machine's logarithms at the ratios of each candle.
pub fn close_to_close(candles: &Vec<Candle>, logs: &Vec<BarRatios>, periods_per_year: Num) -> (r:
    Result<Num, QuantError>)
    requires
        logs@.len() == candles@.len(),
    ensures
        match r {
            Ok(v) => {
                &&& series_problem(candles@, MIN_BARS_RETURNS) is None
                &&& v == close_to_close_of(logs@, periods_per_year)
            },
            Err(e) => series_problem(candles@, MIN_BARS_RETURNS) == Some(e),
        },
{
    match validate(candles, MIN_BARS_RETURNS) {
        Ok(_) => {},
        Err(e) => return Err(e),
    }
    let mut moves: Vec<Num> = Vec::new();
    let mut i: usize = 1;
    while i < logs.len()
        invariant
            1 <= i <= logs@.len(),
            moves@ == close_returns(logs@.take(i as int)),
        decreases logs@.len() - i,
    {
        moves.push(logs[i].close_prev);
        i = i + 1;
        proof {
            assert(moves@ =~= close_returns(logs@.take(i as int)));
        }
    }
    proof {
        assert(logs@.take(i as int) =~= logs@);
    }
    Ok((stats::sample_variance(&moves) * periods_per_year).sqrt())
}

/// Parkinson high-low range estimator.
pub fn parkinson(candles: &Vec<Candle>, logs: &Vec<BarRatios>, periods_per_year: Num) -> (r: Result<
    Num,
    QuantError,
>)
    requires
        logs@.len() == candles@.len(),
    ensures
        match r {
            Ok(v) => {
                &&& series_problem(candles@, MIN_BARS_RANGE) is None
                &&& v == parkinson_of(logs@, periods_per_year)
            },
            Err(e) => series_problem(candles@, MIN_BARS_RANGE) == Some(e),
        },
{
    match validate(candles, MIN_BARS_RANGE) {
        Ok(_) => {},
        Err(e) => return Err(e),
    }
    let mut sq: Vec<Num> = Vec::new();
    let mut i: usize = 0;
    while i < logs.len()
        invariant
            i <= logs@.len(),
            sq@ == logs@.take(i as int).map_values(|l: BarRatios| l.high_low.fmul(l.high_low)),
        decreases logs@.len() - i,
    {
        let hl = logs[i].high_low;
        sq.push(hl * hl);
        i = i + 1;
        proof {
            assert(sq@ =~= logs@.take(i as int).map_values(
                |l: BarRatios| l.high_low.fmul(l.high_low),
            ));
        }
    }
    proof {
        assert(logs@.take(i as int) =~= logs@);
    }
    let n = Num::from_u64(candles.len() as u64);
    Ok((periods_per_year * sums::total(&sq) / (n * Num::of(PARKINSON_DIVISOR))).sqrt())
}

/// Garman-Klass estimator.  A negative combination counts as zero.
pub fn garman_klass(candles: &Vec<Candle>, logs: &Vec<BarRatios>, periods_per_year: Num) -> (r:
    Result<Num, QuantError>)
    requires
        logs@.len() == candles@.len(),
    ensures
        match r {
            Ok(v) => {
                &&& series_problem(candles@, MIN_BARS_RANGE) is None
                &&& v == garman_klass_of(logs@, periods_per_year)
            },
            Err(e) => series_problem(candles@, MIN_BARS_RANGE) == Some(e),
        },
{
    match validate(candles, MIN_BARS_RANGE) {
        Ok(_) => {},
        Err(e) => return Err(e),
    }
    let mut terms: Vec<Num> = Vec::new();
    let mut i: usize = 0;
    while i < logs.len()
        invariant
            i <= logs@.len(),
            terms@ == logs@.take(i as int).map_values(|l: BarRatios| gk_term(l)),
        decreases logs@.len() - i,
    {
        let hl = logs[i].high_low;
        let co = logs[i].close_open;
        terms.push(Num::of(HALF) * hl * hl - Num::of(GK_CO_COEFF) * co * co);
        i = i + 1;
        proof {
            assert(terms@ =~= logs@.take(i as int).map_values(|l: BarRatios| gk_term(l)));
        }
    }
    proof {
        assert(logs@.take(i as int) =~= logs@);
    }
    let n = Num::from_u64(candles.len() as u64);
    Ok((periods_per_year * sums::total(&terms) / n).max(Num::of(ZERO)).sqrt())
}

fn rogers_satchell_term(l: &BarRatios) -> (r: Num)
    ensures
        r == rs_term(*l),
{
    l.high_close * l.high_open + l.low_close * l.low_open
}

/// Rogers-Satchell estimator, independent of drift.
pub fn rogers_satchell(candles: &Vec<Candle>, logs: &Vec<BarRatios>, periods_per_year: Num) -> (r:
    Result<Num, QuantError>)
    requires
        logs@.len() == candles@.len(),
    ensures
        match r {
            Ok(v) => {
                &&& series_problem(candles@, MIN_BARS_RANGE) is None
                &&& v == rogers_satchell_of(logs@, periods_per_year)
            },
            Err(e) => series_problem(candles@, MIN_BARS_RANGE) == Some(e),
        },
{
    match validate(candles, MIN_BARS_RANGE) {
        Ok(_) => {},
        Err(e) => return Err(e),
    }
    let mut terms: Vec<Num> = Vec::new();
    let mut i: usize = 0;
    while i < logs.len()
        invariant
            i <= logs@.len(),
            terms@ == logs@.take(i as int).map_values(|l: BarRatios| rs_term(l)),
        decreases logs@.len() - i,
    {
        terms.push(rogers_satchell_term(&logs[i]));
        i = i + 1;
        proof {
            assert(terms@ =~= logs@.take(i as int).map_values(|l: BarRatios| rs_term(l)));
        }
    }
    proof {
        assert(logs@.take(i as int) =~= logs@);
    }
    let n = Num::from_u64(candles.len() as u64);
    Ok((periods_per_year * sums::total(&terms) / n).max(Num::of(ZERO)).sqrt())
}

/// Yang-Zhang estimator, which handles overnight gaps.
pub fn yang_zhang(candles: &Vec<Candle>, logs: &Vec<BarRatios>, periods_per_year: Num) -> (r:
    Result<Num, QuantError>)
    requires
        logs@.len() == candles@.len(),
    ensures
        match r {
            Ok(v) => {
                &&& series_problem(candles@, MIN_BARS_RETURNS) is None
                &&& v == yang_zhang_of(logs@, periods_per_year)
            },
            Err(e) => series_problem(candles@, MIN_BARS_RETURNS) == Some(e),
        },
{
    match validate(candles, MIN_BARS_RETURNS) {
        Ok(_) => {},
        Err(e) => return Err(e),
    }
    let mut overnight: Vec<Num> = Vec::new();
    let mut session: Vec<Num> = Vec::new();
    let mut terms: Vec<Num> = Vec::new();
    let mut i: usize = 1;
    while i < logs.len()
        invariant
            1 <= i <= logs@.len(),
            overnight@ == overnight_returns(logs@.take(i as int)),
            session@ == session_returns(logs@.take(i as int)),
            terms@ == rs_terms_after_first(logs@.take(i as int)),
        decreases logs@.len() - i,
    {
        overnight.push(logs[i].open_prev);
        session.push(logs[i].close_open);
        terms.push(rogers_satchell_term(&logs[i]));
        i = i + 1;
        proof {
            assert(overnight@ =~= overnight_returns(logs@.take(i as int)));
            assert(session@ =~= session_returns(logs@.take(i as int)));
            assert(terms@ =~= rs_terms_after_first(logs@.take(i as int)));
        }
    }
    proof {
        assert(logs@.take(i as int) =~= logs@);
    }
    let one = Num::of(ONE);
    let n = Num::from_u64((candles.len() - 1) as u64);
    let k = Num::of(YZ_ALPHA) / (Num::of(YZ_BETA) + (n + one) / (n - one));
    let rs_mean = sums::total(&terms) / n;
    let var = stats::sample_variance(&overnight) + k * stats::sample_variance(&session) + (one - k)
        * rs_mean;
    Ok((periods_per_year * var).max(Num::of(ZERO)).sqrt())
}

/// The floored estimators never return a negative number.
pub proof fn law_floored_estimates_are_not_negative(logs: Seq<BarRatios>, periods: Num)
    ensures
        !garman_klass_of(logs, periods).flt(Num::of(ZERO)),
        !rogers_satchell_of(logs, periods).flt(Num::of(ZERO)),
        !yang_zhang_of(logs, periods).flt(Num::of(ZERO)),
{
    reveal(Num::fsqrt);
}

} // verus!
