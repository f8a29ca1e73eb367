//! Technical-indicator kernel over a candle series.
//!
//! Every series makes its warm-up explicit: elements are `None` until the
//! estimator is seeded, so a fill value is never mistaken for a reading.

use crate::algebra;
use crate::arith;
use crate::consts::{NEG_ZERO, ONE, ZERO};
use crate::decimal::{self, decimal};
use crate::integral;
use crate::market::Candle;
use crate::num::Num;
use crate::sorting;
use crate::sums;
use vstd::arithmetic::power2::*;
use vstd::prelude::*;

verus! {

/// Default Wilder smoothing period, bars.
pub const WILDER_PERIOD_DEFAULT: usize = 14;

/// Default number of preceding bars in a relative-volume baseline.
pub const RVOL_BASELINE_BARS: usize = 20;

/// Default fractal half-window; a pivot needs `2 * L + 1` bars.
pub const FRACTAL_HALF_WINDOW: usize = 2;

/// RSI output scale (100.0).
pub const RSI_SCALE: u64 = 0x4059_0000_0000_0000;

/// RSI that stands in during warm-up (50.0).
pub const RSI_NEUTRAL: u64 = 0x4049_0000_0000_0000;

/// ATR that stands in during warm-up, price units (0.1).
pub const ATR_FALLBACK: u64 = 0x3FB9_9999_9999_999A;

/// Numerator of the EMA smoothing factor (2.0).
pub const EMA_SMOOTHING: u64 = 0x4000_0000_0000_0000;

/// Divisor of the typical price (3.0).
pub const TYPICAL_PRICE_DIVISOR: u64 = 0x4008_0000_0000_0000;

/// Relative volume without a usable baseline (1.0).
pub const RVOL_NEUTRAL: u64 = 0x3FF0_0000_0000_0000;

/// ATR fraction within which two pivots are equal (0.1).
pub const PIVOT_EQ_ATR_FRAC: u64 = 0x3FB9_9999_9999_999A;

/// Structure with fewer than two highs or two lows (0.5).
pub const STRUCT_NEUTRAL: u64 = 0x3FE0_0000_0000_0000;

/// Structure of a range (0.33).
pub const STRUCT_RANGE: u64 = 0x3FD5_1EB8_51EB_851F;

/// Structure of a partial trend (0.66).
pub const STRUCT_PARTIAL: u64 = 0x3FE5_1EB8_51EB_851F;

/// Structure of a full trend with a shrinking pullback (1.0).
pub const STRUCT_FULL: u64 = 0x3FF0_0000_0000_0000;

/// Structure against the trade direction (0.0).
pub const STRUCT_COUNTER: u64 = 0x0000_0000_0000_0000;

/// Which extreme a fractal pivot marks.
#[derive(Debug, Clone, Copy, PartialEq, Eq, Structural)]
pub enum PivotKind {
    /// A swing high.
    High,
    /// A swing low.
    Low,
}

/// A fractal pivot: the bar it sits on and the extreme price.
#[derive(Debug, Clone, Copy, PartialEq)]
pub struct Pivot {
    /// Index of the pivot bar.
    pub index: usize,
    /// The bar's high for a swing high, its low otherwise.
    pub price: Num,
    /// Swing high or low.
    pub kind: PivotKind,
}

/// A count as a number.
pub open spec fn count_num(n: nat) -> Num {
    Num::whole(false, n)
}

/// Close-to-close change into bar `i`.
pub open spec fn close_change(c: Seq<Candle>, i: int) -> Num {
    c[i].close.fsub(c[i - 1].close)
}

/// Sums of the gains and of the losses over the first `k` changes.
pub open spec fn gain_loss(c: Seq<Candle>, k: nat) -> (Num, Num)
    decreases k,
{
    if k == 0 {
        (Num::of(ZERO), Num::of(ZERO))
    } else {
        let (g, l) = gain_loss(c, (k - 1) as nat);
        let d = close_change(c, k as int);
        if Num::of(ZERO).flt(d) {
            (g.fadd(d), l)
        } else {
            (g, l.fadd(d.fneg()))
        }
    }
}

/// Wilder's smoothing step.
pub open spec fn smooth(prev: Num, x: Num, period: nat) -> Num {
    prev.fmul(count_num(period).fsub(Num::of(ONE))).fadd(x).fdiv(count_num(period))
}

/// Smoothed average gain and loss at bar `i`, seeded at bar `period`.
pub open spec fn average_gain_loss(c: Seq<Candle>, period: nat, i: nat) -> (Num, Num)
    decreases i,
{
    if i <= period {
        let (g, l) = gain_loss(c, period);
        (g.fdiv(count_num(period)), l.fdiv(count_num(period)))
    } else {
        let (g, l) = average_gain_loss(c, period, (i - 1) as nat);
        let d = close_change(c, i as int);
        (
            smooth(g, d.fmax(Num::of(ZERO)), period),
            smooth(l, d.fneg().fmax(Num::of(ZERO)), period),
        )
    }
}

/// RSI of an average gain and loss; maximal where there is no loss.
pub open spec fn rsi_of(gain: Num, loss: Num) -> Num {
    let scale = Num::of(RSI_SCALE);
    if loss.feq(Num::of(ZERO)) {
        scale
    } else {
        scale.fsub(scale.fdiv(Num::of(ONE).fadd(gain.fdiv(loss))))
    }
}

/// RSI at bar `i`: from bar `period` on, where the series is long enough.
pub open spec fn rsi_at(c: Seq<Candle>, period: nat, i: int) -> Option<Num> {
    if period == 0 || c.len() <= period || i < period {
        None
    } else {
        let (g, l) = average_gain_loss(c, period, i as nat);
        Some(rsi_of(g, l))
    }
}

/// Finite closes into bar `k` that do not fall.
pub open spec fn rises_into(c: Seq<Candle>, k: int) -> bool {
    &&& c[k - 1].close.finite()
    &&& c[k].close.finite()
    &&& c[k - 1].close.fle(c[k].close)
}

/// Closes that never fall, up to bar `i`.
pub open spec fn closes_never_fall(c: Seq<Candle>, i: int) -> bool {
    forall|k: int| 0 < k <= i ==> #[trigger] rises_into(c, k)
}

/// The loss part of a change that is no fall is zero.
proof fn lemma_no_loss(d: Num)
    requires
        Num::of(ZERO).fle(d),
    ensures
        !Num::of(ZERO).flt(d) ==> d.fneg().mag() == 0,
        d.fneg().fmax(Num::of(ZERO)).mag() == 0,
{
}

/// Without a fall there is no loss to add up.
proof fn lemma_no_losses(c: Seq<Candle>, k: nat)
    requires
        closes_never_fall(c, k as int),
    ensures
        gain_loss(c, k).1.mag() == 0,
    decreases k,
{
    if k > 0 {
        lemma_no_losses(c, (k - 1) as nat);
        let (l, d) = (gain_loss(c, (k - 1) as nat).1, close_change(c, k as int));
        assert(rises_into(c, k as int));
        algebra::lemma_rise(c[k - 1].close, c[k as int].close);
        lemma_no_loss(d);
        if !Num::of(ZERO).flt(d) {
            algebra::lemma_add_any_zero(l, d.fneg());
        }
    }
}

/// One less than a finite number that is not negative is finite.
proof fn lemma_one_less(n: Num)
    requires
        n.finite(),
        !n.negative(),
    ensures
        n.fsub(Num::of(ONE)).finite(),
{
    let (zero, down) = (Num::of(ZERO), Num::of(ONE).fneg());
    algebra::lemma_add_is_number(n, down);
    algebra::lemma_add_is_number(zero, down);
    algebra::lemma_add_is_number(down, n);
    algebra::lemma_add_is_number(zero, n);
    algebra::law_add_commutes(n, down);
    algebra::law_add_commutes(zero, down);
    algebra::law_add_commutes(zero, n);
    algebra::law_add_zero(n);
    algebra::law_add_zero(down);
    algebra::law_add_monotone(down, zero, n);
    algebra::law_add_monotone(zero, n, down);
}

/// Smoothing a zero with a zero gives a zero.
proof fn lemma_still_zero(prev: Num, x: Num, period: nat)
    requires
        0 < period < pow2(53),
        prev.mag() == 0,
        x.mag() == 0,
    ensures
        smooth(prev, x, period).mag() == 0,
{
    let n = count_num(period);
    integral::lemma_whole_exact(period);
    algebra::lemma_whole_positive(period);
    lemma_one_less(n);
    let y = prev.fmul(n.fsub(Num::of(ONE)));
    algebra::law_zero_mul(prev, n.fsub(Num::of(ONE)));
    algebra::lemma_add_any_zero(y, x);
    arith::lemma_zero_size(y.fadd(x));
    algebra::lemma_zero_over(y.fadd(x), n);
}

/// Without a fall the average loss is zero.
proof fn lemma_no_average_loss(c: Seq<Candle>, period: nat, i: nat)
    requires
        0 < period < pow2(53),
        period <= i,
        closes_never_fall(c, i as int),
    ensures
        average_gain_loss(c, period, i).1.mag() == 0,
    decreases i,
{
    let n = count_num(period);
    integral::lemma_whole_exact(period);
    algebra::lemma_whole_positive(period);
    if i == period {
        let l = gain_loss(c, period).1;
        lemma_no_losses(c, period);
        arith::lemma_zero_size(l);
        algebra::lemma_zero_over(l, n);
    } else {
        lemma_no_average_loss(c, period, (i - 1) as nat);
        let (l, d) = (average_gain_loss(c, period, (i - 1) as nat).1, close_change(c, i as int));
        assert(rises_into(c, i as int));
        algebra::lemma_rise(c[i - 1].close, c[i as int].close);
        lemma_no_loss(d);
        lemma_still_zero(l, d.fneg().fmax(Num::of(ZERO)), period);
    }
}

/// On a series that never falls, RSI is at its greatest from its first bar on.
pub proof fn law_rsi_saturates(c: Seq<Candle>, period: nat, i: int)
    requires
        0 < period < pow2(53),
        period <= i < c.len(),
        closes_never_fall(c, i),
    ensures
        rsi_at(c, period, i) == Some(Num::of(RSI_SCALE)),
{
    lemma_no_average_loss(c, period, i as nat);
}

/// Finite closes into bar `k` that do not rise.
pub open spec fn falls_into(c: Seq<Candle>, k: int) -> bool {
    &&& c[k - 1].close.finite()
    &&& c[k].close.finite()
    &&& c[k].close.fle(c[k - 1].close)
}

/// Closes that never rise, up to bar `i`.
pub open spec fn closes_never_rise(c: Seq<Candle>, i: int) -> bool {
    forall|k: int| 0 < k <= i ==> #[trigger] falls_into(c, k)
}

/// A change into a bar that does not rise has no gain part.
proof fn lemma_no_gain(c: Seq<Candle>, k: int)
    requires
        falls_into(c, k),
    ensures
        !Num::of(ZERO).flt(close_change(c, k)),
        close_change(c, k).fmax(Num::of(ZERO)).mag() == 0,
{
    let (a, b) = (c[k].close, c[k - 1].close);
    algebra::lemma_add_is_number(a, b.fneg());
    algebra::lemma_add_is_number(b, b.fneg());
    algebra::law_add_monotone(a, b, b.fneg());
    algebra::law_sub_self(b);
}

/// Without a rise there is no gain to add up.
proof fn lemma_no_gains(c: Seq<Candle>, k: nat)
    requires
        closes_never_rise(c, k as int),
    ensures
        gain_loss(c, k).0.mag() == 0,
    decreases k,
{
    if k > 0 {
        lemma_no_gains(c, (k - 1) as nat);
        assert(falls_into(c, k as int));
        lemma_no_gain(c, k as int);
    }
}

/// Without a rise the average gain is zero.
proof fn lemma_no_average_gain(c: Seq<Candle>, period: nat, i: nat)
    requires
        0 < period < pow2(53),
        period <= i,
        closes_never_rise(c, i as int),
    ensures
        average_gain_loss(c, period, i).0.mag() == 0,
    decreases i,
{
    let n = count_num(period);
    integral::lemma_whole_exact(period);
    algebra::lemma_whole_positive(period);
    if i == period {
        let g = gain_loss(c, period).0;
        lemma_no_gains(c, period);
        arith::lemma_zero_size(g);
        algebra::lemma_zero_over(g, n);
    } else {
        lemma_no_average_gain(c, period, (i - 1) as nat);
        let (g, d) = (average_gain_loss(c, period, (i - 1) as nat).0, close_change(c, i as int));
        assert(falls_into(c, i as int));
        lemma_no_gain(c, i as int);
        lemma_still_zero(g, d.fmax(Num::of(ZERO)), period);
    }
}

/// On a series that never rises, RSI is zero wherever there is an average loss.
pub proof fn law_rsi_bottoms_out(c: Seq<Candle>, period: nat, i: int)
    requires
        0 < period < pow2(53),
        period <= i < c.len(),
        closes_never_rise(c, i),
        Num::of(ZERO).flt(average_gain_loss(c, period, i as nat).1),
    ensures
        rsi_at(c, period, i) == Some(Num::of(ZERO)),
{
    let (g, l) = average_gain_loss(c, period, i as nat);
    let (one, scale) = (Num::of(ONE), Num::of(RSI_SCALE));
    lemma_no_average_gain(c, period, i as nat);
    let q = g.fdiv(l);
    assert(q.mag() == 0) by {
        arith::lemma_zero_size(g);
        if l.finite() {
            algebra::lemma_zero_over(g, l);
        } else {
            reveal(Num::fdiv);
        }
    }
    algebra::lemma_add_any_zero(one, q);
    assert(one.fadd(q) == one);
    algebra::law_div_one(scale);
    algebra::law_sub_self(scale);
}

/// RSI from the smoothed average gain and loss.
fn rsi_from(avg_gain: Num, avg_loss: Num) -> (r: Num)
    ensures
        r == rsi_of(avg_gain, avg_loss),
{
    if avg_loss == Num::of(ZERO) {
        Num::of(RSI_SCALE)
    } else {
        Num::of(RSI_SCALE) - Num::of(RSI_SCALE) / (Num::of(ONE) + avg_gain / avg_loss)
    }
}

proof fn lemma_gain_loss_kind(c: Seq<Candle>, k: nat)
    ensures
        algebra::no_less_than_zero(gain_loss(c, k).0),
        algebra::no_less_than_zero(gain_loss(c, k).1),
    decreases k,
{
    if k > 0 {
        lemma_gain_loss_kind(c, (k - 1) as nat);
        let (g, l) = gain_loss(c, (k - 1) as nat);
        let d = close_change(c, k as int);
        if Num::of(ZERO).flt(d) {
            algebra::lemma_add_kind(g, d);
        } else {
            algebra::lemma_add_kind(l, d.fneg());
        }
    }
}

proof fn lemma_smooth_kind(prev: Num, x: Num, period: nat)
    requires
        algebra::no_less_than_zero(prev),
        algebra::no_less_than_zero(x),
        0 < period < pow2(53),
    ensures
        algebra::no_less_than_zero(smooth(prev, x, period)),
{
    let (n, one) = (count_num(period), Num::of(ONE));
    algebra::lemma_whole_positive(period);
    lemma_one_is_whole();
    lemma2_to64_rest();
    integral::lemma_whole_order(1, period);
    integral::lemma_whole_exact(period);
    algebra::lemma_rise(one, n);
    algebra::lemma_mul_kind(prev, n.fsub(one));
    algebra::lemma_add_kind(prev.fmul(n.fsub(one)), x);
    algebra::lemma_div_kind(prev.fmul(n.fsub(one)).fadd(x), n);
}

proof fn lemma_one_is_whole()
    ensures
        Num::whole(false, 1) == Num::of(ONE),
{
    reveal(Num::whole);
    algebra::lemma_one_size();
    arith::lemma_round_exact(Num::of(ONE));
    assert(1 * pow2(1074) == pow2(1074));
}

proof fn lemma_average_kind(c: Seq<Candle>, period: nat, i: nat)
    requires
        0 < period < pow2(53),
    ensures
        algebra::no_less_than_zero(average_gain_loss(c, period, i).0),
        algebra::no_less_than_zero(average_gain_loss(c, period, i).1),
    decreases i,
{
    if i <= period {
        let (g, l) = gain_loss(c, period);
        lemma_gain_loss_kind(c, period);
        algebra::lemma_whole_positive(period);
        algebra::lemma_div_kind(g, count_num(period));
        algebra::lemma_div_kind(l, count_num(period));
    } else {
        let (g, l) = average_gain_loss(c, period, (i - 1) as nat);
        let d = close_change(c, i as int);
        lemma_average_kind(c, period, (i - 1) as nat);
        lemma_smooth_kind(g, d.fmax(Num::of(ZERO)), period);
        lemma_smooth_kind(l, d.fneg().fmax(Num::of(ZERO)), period);
    }
}

/// An RSI that is a number lies between 0 and 100.
pub proof fn law_rsi_bounded(c: Seq<Candle>, period: nat, i: int)
    requires
        period < pow2(53),
    ensures
        rsi_at(c, period, i) matches Some(v) ==> v.nan() || (Num::of(ZERO).fle(v) && v.fle(
            Num::of(RSI_SCALE),
        )),
{
    if rsi_at(c, period, i) is Some {
        lemma_average_kind(c, period, i as nat);
        let (g, l) = average_gain_loss(c, period, i as nat);
        let (zero, one, scale) = (Num::of(ZERO), Num::of(ONE), Num::of(RSI_SCALE));
        if !l.feq(zero) {
            let q = g.fdiv(l);
            algebra::lemma_div_kind(g, l);
            if q.nan() {
                reveal(Num::fadd);
                reveal(Num::fdiv);
            } else {
                let d = one.fadd(q);
                assert(one.fle(d)) by {
                    if q.finite() {
                        algebra::lemma_add_is_number(q, one);
                        algebra::lemma_add_is_number(zero, one);
                        algebra::law_add_commutes(zero, one);
                        algebra::law_add_commutes(q, one);
                        algebra::law_add_zero(one);
                        algebra::law_add_monotone(zero, q, one);
                    } else {
                        reveal(Num::fadd);
                    }
                }
                let x = scale.fdiv(d);
                assert(zero.fle(x) && x.fle(scale)) by {
                    if d.finite() {
                        algebra::law_div_antitone(scale, one, d);
                        algebra::law_div_one(scale);
                    } else {
                        reveal(Num::fdiv);
                    }
                }
                algebra::lemma_rise(x, scale);
                algebra::lemma_add_is_number(x.fneg(), scale);
                algebra::lemma_add_is_number(zero, scale);
                algebra::law_add_commutes(x.fneg(), scale);
                algebra::law_add_commutes(zero, scale);
                algebra::law_add_monotone(x.fneg(), zero, scale);
                algebra::law_add_zero(scale);
            }
        }
    }
}

fn none_series(n: usize) -> (r: Vec<Option<Num>>)
    ensures
        r@.len() == n,
        forall|i: int| 0 <= i < n ==> r@[i] is None,
{
    let mut r: Vec<Option<Num>> = Vec::new();
    let mut i: usize = 0;
    while i < n
        invariant
            i <= n,
            r@.len() == i,
            forall|k: int| 0 <= k < i ==> r@[k] is None,
        decreases n - i,
    {
        r.push(None);
        i = i + 1;
    }
    r
}

/// Wilder-smoothed RSI over the closes, one element per candle.
pub fn wilder_rsi(candles: &Vec<Candle>, period: usize) -> (r: Vec<Option<Num>>)
    ensures
        r@ == Seq::new(candles@.len(), |i: int| rsi_at(candles@, period as nat, i)),
{
    let n: usize = candles.len();
    if period == 0 || n <= period {
        let r = none_series(n);
        proof {
            assert(r@ =~= Seq::new(candles@.len(), |i: int| rsi_at(candles@, period as nat, i)));
        }
        return r;
    }
    let zero = Num::of(ZERO);
    let period_f = Num::from_u64(period as u64);
    let mut gain = zero;
    let mut loss = zero;
    let mut i: usize = 1;
    while i <= period
        invariant
            1 <= i <= period + 1,
            period < n == candles@.len(),
            zero == Num::of(ZERO),
            (gain, loss) == gain_loss(candles@, (i - 1) as nat),
        decreases period + 1 - i,
    {
        let d = candles[i].close - candles[i - 1].close;
        if d > zero {
            gain = gain + d;
        } else {
            loss = loss + d.neg();
        }
        i = i + 1;
    }
    let mut avg_gain = gain / period_f;
    let mut avg_loss = loss / period_f;
    let mut out = none_series(period);
    out.push(Some(rsi_from(avg_gain, avg_loss)));
    let mut i: usize = period + 1;
    while i < n
        invariant
            0 < period < i <= n == candles@.len(),
            zero == Num::of(ZERO),
            period_f == count_num(period as nat),
            out@.len() == i,
            (avg_gain, avg_loss) == average_gain_loss(candles@, period as nat, (i - 1) as nat),
            forall|k: int| 0 <= k < i ==> out@[k] == rsi_at(candles@, period as nat, k),
        decreases n - i,
    {
        let d = candles[i].close - candles[i - 1].close;
        avg_gain = (avg_gain * (period_f - Num::of(ONE)) + d.max(zero)) / period_f;
        avg_loss = (avg_loss * (period_f - Num::of(ONE)) + d.neg().max(zero)) / period_f;
        out.push(Some(rsi_from(avg_gain, avg_loss)));
        i = i + 1;
    }
    proof {
        assert(out@ =~= Seq::new(candles@.len(), |i: int| rsi_at(candles@, period as nat, i)));
    }
    out
}

/// True range of bar `i`.
pub open spec fn true_range(c: Seq<Candle>, i: int) -> Num {
    let pc = c[i - 1].close;
    c[i].high.fsub(c[i].low).fmax(c[i].high.fsub(pc).fabs()).fmax(c[i].low.fsub(pc).fabs())
}

/// Sum of the true ranges of bars 1 to `k`.
pub open spec fn range_sum(c: Seq<Candle>, k: nat) -> Num
    decreases k,
{
    if k == 0 {
        Num::of(ZERO)
    } else {
        range_sum(c, (k - 1) as nat).fadd(true_range(c, k as int))
    }
}

/// Smoothed true range at bar `i`, seeded at bar `period`.
pub open spec fn smoothed_range(c: Seq<Candle>, period: nat, i: nat) -> Num
    decreases i,
{
    if i <= period {
        range_sum(c, period).fdiv(count_num(period))
    } else {
        smooth(smoothed_range(c, period, (i - 1) as nat), true_range(c, i as int), period)
    }
}

/// ATR at bar `i`: from bar `period` on, where the series is long enough.
pub open spec fn atr_at(c: Seq<Candle>, period: nat, i: int) -> Option<Num> {
    if period == 0 || c.len() <= period || i < period {
        None
    } else {
        Some(smoothed_range(c, period, i as nat))
    }
}

fn true_range_at(candles: &Vec<Candle>, i: usize) -> (r: Num)
    requires
        1 <= i < candles@.len(),
    ensures
        r == true_range(candles@, i as int),
{
    let h = candles[i].high;
    let l = candles[i].low;
    let pc = candles[i - 1].close;
    (h - l).max((h - pc).abs()).max((l - pc).abs())
}

/// Wilder-smoothed average true range, one element per candle.
pub fn wilder_atr(candles: &Vec<Candle>, period: usize) -> (r: Vec<Option<Num>>)
    ensures
        r@ == Seq::new(candles@.len(), |i: int| atr_at(candles@, period as nat, i)),
{
    let n: usize = candles.len();
    if period == 0 || n <= period {
        let r = none_series(n);
        proof {
            assert(r@ =~= Seq::new(candles@.len(), |i: int| atr_at(candles@, period as nat, i)));
        }
        return r;
    }
    let period_f = Num::from_u64(period as u64);
    let mut sum = Num::of(ZERO);
    let mut i: usize = 1;
    while i <= period
        invariant
            1 <= i <= period + 1,
            period < n == candles@.len(),
            sum == range_sum(candles@, (i - 1) as nat),
        decreases period + 1 - i,
    {
        sum = sum + true_range_at(candles, i);
        i = i + 1;
    }
    let mut prev = sum / period_f;
    let mut out = none_series(period);
    out.push(Some(prev));
    let mut i: usize = period + 1;
    while i < n
        invariant
            0 < period < i <= n == candles@.len(),
            period_f == count_num(period as nat),
            out@.len() == i,
            prev == smoothed_range(candles@, period as nat, (i - 1) as nat),
            forall|k: int| 0 <= k < i ==> out@[k] == atr_at(candles@, period as nat, k),
        decreases n - i,
    {
        prev = (prev * (period_f - Num::of(ONE)) + true_range_at(candles, i)) / period_f;
        out.push(Some(prev));
        i = i + 1;
    }
    proof {
        assert(out@ =~= Seq::new(candles@.len(), |i: int| atr_at(candles@, period as nat, i)));
    }
    out
}

/// EMA at sample `i`, seeded with the mean of the first `period` samples.
pub open spec fn ema_value(v: Seq<Num>, period: nat, i: nat) -> Num
    decreases i,
{
    if i == 0 || i < period {
        sums::sum(v.take(period as int)).fdiv(count_num(period))
    } else {
        let k = Num::of(EMA_SMOOTHING).fdiv(count_num(period).fadd(Num::of(ONE)));
        k.fmul(v[i as int]).fadd(
            Num::of(ONE).fsub(k).fmul(ema_value(v, period, (i - 1) as nat)),
        )
    }
}

/// EMA at sample `i`: from sample `period - 1` on, where the series is long enough.
pub open spec fn ema_at(v: Seq<Num>, period: nat, i: int) -> Option<Num> {
    if period == 0 || v.len() < period || i < period - 1 {
        None
    } else {
        Some(ema_value(v, period, i as nat))
    }
}

/// Exponential moving average, one element per sample.
pub fn ema_series(values: &Vec<Num>, period: usize) -> (r: Vec<Option<Num>>)
    ensures
        r@ == Seq::new(values@.len(), |i: int| ema_at(values@, period as nat, i)),
{
    let n: usize = values.len();
    if period == 0 || n < period {
        let r = none_series(n);
        proof {
            assert(r@ =~= Seq::new(values@.len(), |i: int| ema_at(values@, period as nat, i)));
        }
        return r;
    }
    let one = Num::of(ONE);
    let period_f = Num::from_u64(period as u64);
    let k = Num::of(EMA_SMOOTHING) / (period_f + one);
    let mut acc = Num::of(NEG_ZERO);
    let mut i: usize = 0;
    proof {
        assert(values@.take(0) =~= Seq::<Num>::empty());
    }
    while i < period
        invariant
            i <= period <= values@.len(),
            acc == sums::sum(values@.take(i as int)),
        decreases period - i,
    {
        proof {
            assert(values@.take(i + 1).drop_last() =~= values@.take(i as int));
        }
        acc = acc + values[i];
        i = i + 1;
    }
    let mut prev = acc / period_f;
    let mut out = none_series(period - 1);
    out.push(Some(prev));
    let mut i: usize = period;
    while i < n
        invariant
            0 < period <= i <= n == values@.len(),
            one == Num::of(ONE),
            k == Num::of(EMA_SMOOTHING).fdiv(count_num(period as nat).fadd(one)),
            out@.len() == i,
            prev == ema_value(values@, period as nat, (i - 1) as nat),
            forall|j: int| 0 <= j < i ==> out@[j] == ema_at(values@, period as nat, j),
        decreases n - i,
    {
        prev = k * values[i] + (one - k) * prev;
        out.push(Some(prev));
        i = i + 1;
    }
    proof {
        assert(out@ =~= Seq::new(values@.len(), |i: int| ema_at(values@, period as nat, i)));
    }
    out
}

/// The last EMA value; `None` where the series is too short to seed.
pub fn ema_last(values: &Vec<Num>, period: usize) -> (r: Option<Num>)
    ensures
        r == (if values@.len() == 0 {
            None
        } else {
            ema_at(values@, period as nat, values@.len() - 1)
        }),
{
    let s = ema_series(values, period);
    if s.len() == 0 {
        None
    } else {
        s[s.len() - 1]
    }
}

/// Cumulative price-volume and volume through the first `k` bars.
pub open spec fn vwap_sums(c: Seq<Candle>, k: nat) -> (Num, Num)
    decreases k,
{
    if k == 0 {
        (Num::of(ZERO), Num::of(ZERO))
    } else {
        let (pv, v) = vwap_sums(c, (k - 1) as nat);
        let b = c[k - 1];
        let typical = b.high.fadd(b.low).fadd(b.close).fdiv(Num::of(TYPICAL_PRICE_DIVISOR));
        (pv.fadd(typical.fmul(b.volume)), v.fadd(b.volume))
    }
}

/// VWAP through bar `i`; undefined while no volume has traded.
pub open spec fn vwap_at(c: Seq<Candle>, i: int) -> Option<Num> {
    let (pv, v) = vwap_sums(c, (i + 1) as nat);
    if Num::of(ZERO).flt(v) {
        Some(pv.fdiv(v))
    } else {
        None
    }
}

/// Session VWAP of the typical price, one element per candle.
pub fn session_vwap(candles: &Vec<Candle>) -> (r: Vec<Option<Num>>)
    ensures
        r@ == Seq::new(candles@.len(), |i: int| vwap_at(candles@, i)),
{
    let zero = Num::of(ZERO);
    let mut out: Vec<Option<Num>> = Vec::new();
    let mut pv = zero;
    let mut v = zero;
    let mut i: usize = 0;
    while i < candles.len()
        invariant
            i <= candles@.len(),
            zero == Num::of(ZERO),
            (pv, v) == vwap_sums(candles@, i as nat),
            out@.len() == i,
            forall|k: int| 0 <= k < i ==> out@[k] == vwap_at(candles@, k),
        decreases candles@.len() - i,
    {
        let c = candles[i];
        let typical = (c.high + c.low + c.close) / Num::of(TYPICAL_PRICE_DIVISOR);
        pv = pv + typical * c.volume;
        v = v + c.volume;
        out.push(
            if v > zero {
                Some(pv / v)
            } else {
                None
            },
        );
        i = i + 1;
    }
    proof {
        assert(out@ =~= Seq::new(candles@.len(), |i: int| vwap_at(candles@, i)));
    }
    out
}

pub open spec fn volumes(c: Seq<Candle>) -> Seq<Num> {
    c.map_values(|b: Candle| b.volume)
}

/// Volume of bar `idx` over the mean of up to `bars` bars before it; neutral
/// where that baseline is empty or without volume, or the index out of range.
pub open spec fn relative_volume(c: Seq<Candle>, idx: int, bars: nat) -> Num {
    let start = if idx >= bars {
        idx - bars
    } else {
        0
    };
    let window = volumes(c.subrange(start, idx));
    let sum = sums::sum(window);
    if idx <= 0 || idx >= c.len() || start >= idx || sum.fle(Num::of(ZERO)) {
        Num::of(RVOL_NEUTRAL)
    } else {
        c[idx].volume.fdiv(sum.fdiv(count_num((idx - start) as nat)))
    }
}

/// Relative volume of a bar.
pub fn rvol(candles: &Vec<Candle>, idx: usize, baseline_bars: usize) -> (r: Num)
    ensures
        r == relative_volume(candles@, idx as int, baseline_bars as nat),
{
    if idx == 0 || idx >= candles.len() {
        return Num::of(RVOL_NEUTRAL);
    }
    let start: usize = if idx >= baseline_bars {
        idx - baseline_bars
    } else {
        0
    };
    if start >= idx {
        return Num::of(RVOL_NEUTRAL);
    }
    let mut window: Vec<Num> = Vec::new();
    let mut i: usize = start;
    while i < idx
        invariant
            start <= i <= idx < candles@.len(),
            window@.len() == i - start,
            forall|k: int| 0 <= k < i - start ==> window@[k] == candles@[start + k].volume,
        decreases idx - i,
    {
        window.push(candles[i].volume);
        i = i + 1;
    }
    proof {
        assert(window@ =~= volumes(candles@.subrange(start as int, idx as int)));
    }
    let sum = sums::total(&window);
    if sum <= Num::of(ZERO) {
        return Num::of(RVOL_NEUTRAL);
    }
    let mean = sum / Num::from_u64((idx - start) as u64);
    candles[idx].volume / mean
}

/// Bar `i` tops its window: no bar higher, none to the left as high.
pub open spec fn pivot_high(c: Seq<Candle>, i: int, l: int) -> bool {
    &&& forall|k: int| i - l <= k <= i + l ==> (#[trigger] c[k]).high.fle(c[i].high)
    &&& forall|k: int| i - l <= k < i ==> (#[trigger] c[k]).high.flt(c[i].high)
}

/// Bar `i` bottoms its window: no bar lower, none to the left as low.
pub open spec fn pivot_low(c: Seq<Candle>, i: int, l: int) -> bool {
    &&& forall|k: int| i - l <= k <= i + l ==> c[i].low.fle((#[trigger] c[k]).low)
    &&& forall|k: int| i - l <= k < i ==> c[i].low.flt((#[trigger] c[k]).low)
}

/// The pivots of one bar: the high, then the low.
pub open spec fn pivots_at(c: Seq<Candle>, i: int, l: int) -> Seq<Pivot> {
    let h = if pivot_high(c, i, l) {
        seq![Pivot { index: i as usize, price: c[i].high, kind: PivotKind::High }]
    } else {
        Seq::empty()
    };
    let w = if pivot_low(c, i, l) {
        seq![Pivot { index: i as usize, price: c[i].low, kind: PivotKind::Low }]
    } else {
        Seq::empty()
    };
    h + w
}

/// The pivots of the bars from `l` up to, but not with, `end`.
pub open spec fn pivots_until(c: Seq<Candle>, l: int, end: int) -> Seq<Pivot>
    decreases end - l,
{
    if end <= l {
        Seq::empty()
    } else {
        pivots_until(c, l, end - 1) + pivots_at(c, end - 1, l)
    }
}

/// All pivots of a series, in bar order.
pub open spec fn all_pivots(c: Seq<Candle>, l: nat) -> Seq<Pivot> {
    if l == 0 || c.len() <= 2 * l {
        Seq::empty()
    } else {
        pivots_until(c, l as int, c.len() - l)
    }
}

/// Pivots come in bar order, one of each kind at most per bar.
proof fn lemma_pivots(c: Seq<Candle>, l: int, end: int)
    requires
        0 <= l,
        end <= usize::MAX,
    ensures
        forall|k: int|
            0 <= k < pivots_until(c, l, end).len() ==> {
                let p = #[trigger] pivots_until(c, l, end)[k];
                &&& l <= p.index < end
                &&& p.kind is High ==> pivot_high(c, p.index as int, l)
                &&& p.kind is Low ==> pivot_low(c, p.index as int, l)
            },
        forall|a: int, b: int|
            0 <= a < b < pivots_until(c, l, end).len() ==> {
                let (p, q) = (
                    #[trigger] pivots_until(c, l, end)[a],
                    #[trigger] pivots_until(c, l, end)[b],
                );
                p.index < q.index || (p.index == q.index && p.kind != q.kind)
            },
    decreases end - l,
{
    if l < end {
        lemma_pivots(c, l, end - 1);
    }
}

/// Two pivots of the same kind are more than the lookback apart, so that a
/// plateau of equal highs or lows has exactly its leftmost bar.
pub proof fn law_pivots_stand_apart(c: Seq<Candle>, l: nat, a: int, b: int)
    requires
        c.len() <= usize::MAX,
        0 <= a < b < all_pivots(c, l).len(),
        all_pivots(c, l)[a].kind == all_pivots(c, l)[b].kind,
    ensures
        all_pivots(c, l)[b].index - all_pivots(c, l)[a].index > l,
{
    lemma_pivots(c, l as int, c.len() - l);
    let (p, q) = (all_pivots(c, l)[a], all_pivots(c, l)[b]);
    let (i, j) = (p.index as int, q.index as int);
    if j - i <= l {
        assert(i < j);
        if p.kind is High {
            assert(c[j].high.fle(c[i].high));
            assert(c[i].high.flt(c[j].high));
        } else {
            assert(c[i].low.fle(c[j].low));
            assert(c[j].low.flt(c[i].low));
        }
    }
}

fn is_pivot_high(candles: &Vec<Candle>, i: usize, l: usize) -> (r: bool)
    requires
        l <= i,
        i + l < candles@.len(),
    ensures
        r == pivot_high(candles@, i as int, l as int),
{
    let hi = candles[i].high;
    let n: usize = candles.len();
    let mut k: usize = i - l;
    while k <= i + l
        invariant
            l <= i,
            i + l < n == candles@.len(),
            hi == candles@[i as int].high,
            i - l <= k <= i + l + 1,
            forall|j: int| i - l <= j < k ==> (#[trigger] candles@[j]).high.fle(hi),
            forall|j: int| i - l <= j < k && j < i ==> (#[trigger] candles@[j]).high.flt(hi),
        decreases i + l + 1 - k,
    {
        if !(candles[k].high <= hi) {
            return false;
        }
        if k < i && !(candles[k].high < hi) {
            return false;
        }
        k = k + 1;
    }
    true
}

fn is_pivot_low(candles: &Vec<Candle>, i: usize, l: usize) -> (r: bool)
    requires
        l <= i,
        i + l < candles@.len(),
    ensures
        r == pivot_low(candles@, i as int, l as int),
{
    let lo = candles[i].low;
    let n: usize = candles.len();
    let mut k: usize = i - l;
    while k <= i + l
        invariant
            l <= i,
            i + l < n == candles@.len(),
            lo == candles@[i as int].low,
            i - l <= k <= i + l + 1,
            forall|j: int| i - l <= j < k ==> lo.fle((#[trigger] candles@[j]).low),
            forall|j: int| i - l <= j < k && j < i ==> lo.flt((#[trigger] candles@[j]).low),
        decreases i + l + 1 - k,
    {
        if !(candles[k].low >= lo) {
            return false;
        }
        if k < i && !(candles[k].low > lo) {
            return false;
        }
        k = k + 1;
    }
    true
}

/// Detects fractal swing pivots, in bar order.
///
/// A plateau yields one pivot, its leftmost bar.
pub fn fractal_pivots(candles: &Vec<Candle>, half_window: usize) -> (r: Vec<Pivot>)
    ensures
        r@ == all_pivots(candles@, half_window as nat),
{
    let n: usize = candles.len();
    let mut out: Vec<Pivot> = Vec::new();
    if half_window == 0 || half_window > n / 2 || n <= 2 * half_window {
        proof {
            assert(out@ =~= all_pivots(candles@, half_window as nat));
        }
        return out;
    }
    let l: usize = half_window;
    let mut i: usize = l;
    proof {
        assert(out@ =~= pivots_until(candles@, l as int, l as int));
    }
    while i < n - l
        invariant
            0 < l <= i <= n - l,
            2 * l < n == candles@.len(),
            out@ == pivots_until(candles@, l as int, i as int),
        decreases n - l - i,
    {
        let ghost before = out@;
        if is_pivot_high(candles, i, l) {
            out.push(Pivot { index: i, price: candles[i].high, kind: PivotKind::High });
        }
        if is_pivot_low(candles, i, l) {
            out.push(Pivot { index: i, price: candles[i].low, kind: PivotKind::Low });
        }
        proof {
            assert(out@ =~= before + pivots_at(candles@, i as int, l as int));
        }
        i = i + 1;
    }
    out
}

/// `p` goes further than `top` in its own direction.
pub open spec fn more_extreme(p: Pivot, top: Pivot) -> bool {
    match p.kind {
        PivotKind::High => top.price.flt(p.price),
        PivotKind::Low => p.price.flt(top.price),
    }
}

/// Runs of one kind collapsed to their most extreme pivot.
pub open spec fn alternating(s: Seq<Pivot>) -> Seq<Pivot>
    decreases s.len(),
{
    if s.len() == 0 {
        s
    } else {
        let a = alternating(s.drop_last());
        let p = s.last();
        if a.len() > 0 && a.last().kind == p.kind {
            if more_extreme(p, a.last()) {
                a.update(a.len() - 1, p)
            } else {
                a
            }
        } else {
            a.push(p)
        }
    }
}

/// Collapses a pivot list into an alternating sequence of highs and lows.
fn collapse_alternating(pivots: &Vec<Pivot>) -> (r: Vec<Pivot>)
    ensures
        r@ == alternating(pivots@),
{
    let mut out: Vec<Pivot> = Vec::new();
    let mut i: usize = 0;
    proof {
        assert(pivots@.take(0) =~= Seq::<Pivot>::empty());
        assert(out@ =~= alternating(pivots@.take(0)));
    }
    while i < pivots.len()
        invariant
            i <= pivots@.len(),
            out@ == alternating(pivots@.take(i as int)),
        decreases pivots@.len() - i,
    {
        proof {
            assert(pivots@.take(i + 1).drop_last() =~= pivots@.take(i as int));
        }
        let p = pivots[i];
        let m: usize = out.len();
        if m > 0 && out[m - 1].kind == p.kind {
            let further = match p.kind {
                PivotKind::High => p.price > out[m - 1].price,
                PivotKind::Low => p.price < out[m - 1].price,
            };
            if further {
                out.set(m - 1, p);
            }
        } else {
            out.push(p);
        }
        i = i + 1;
    }
    proof {
        assert(pivots@.take(i as int) =~= pivots@);
    }
    out
}

/// Highs and lows take turns after collapsing.
pub proof fn law_alternating_alternates(s: Seq<Pivot>)
    ensures
        forall|i: int|
            0 < i < alternating(s).len() ==> (#[trigger] alternating(s)[i]).kind != alternating(
                s,
            )[i - 1].kind,
    decreases s.len(),
{
    if s.len() > 0 {
        law_alternating_alternates(s.drop_last());
        let a = alternating(s.drop_last());
        assert forall|i: int| 0 < i < alternating(s).len() implies (#[trigger] alternating(
            s,
        )[i]).kind != alternating(s)[i - 1].kind by {
            if i < a.len() {
                assert(a[i].kind != a[i - 1].kind);
            }
        }
    }
}

/// The prices of one kind, in order.
pub open spec fn prices_of(s: Seq<Pivot>, kind: PivotKind) -> Seq<Num>
    decreases s.len(),
{
    if s.len() == 0 {
        Seq::empty()
    } else {
        let rest = prices_of(s.drop_last(), kind);
        if s.last().kind == kind {
            rest.push(s.last().price)
        } else {
            rest
        }
    }
}

fn collect_prices(pivots: &Vec<Pivot>, kind: PivotKind) -> (r: Vec<Num>)
    ensures
        r@ == prices_of(pivots@, kind),
{
    let mut r: Vec<Num> = Vec::new();
    let mut i: usize = 0;
    proof {
        assert(pivots@.take(0) =~= Seq::<Pivot>::empty());
        assert(r@ =~= prices_of(pivots@.take(0), kind));
    }
    while i < pivots.len()
        invariant
            i <= pivots@.len(),
            r@ == prices_of(pivots@.take(i as int), kind),
        decreases pivots@.len() - i,
    {
        proof {
            assert(pivots@.take(i + 1).drop_last() =~= pivots@.take(i as int));
        }
        if pivots[i].kind == kind {
            r.push(pivots[i].price);
        }
        i = i + 1;
    }
    proof {
        assert(pivots@.take(i as int) =~= pivots@);
    }
    r
}

pub open spec fn earlier(a: Pivot, b: Pivot) -> bool {
    a.index < b.index
}

/// Whether the last swing is shorter than the one before it.
pub open spec fn shrinking(alt: Seq<Pivot>, last_leg: Num, prior_leg: Num) -> bool {
    let m = alt.len();
    if m >= 3 {
        alt[m - 1].price.fsub(alt[m - 2].price).fabs().flt(
            alt[m - 2].price.fsub(alt[m - 3].price).fabs(),
        )
    } else {
        last_leg.fabs().flt(prior_leg.fabs())
    }
}

/// Market-structure quality of pivots in bar order.
pub open spec fn structure_of(s: Seq<Pivot>, atr: Num, dir: Num) -> Num {
    let highs = prices_of(s, PivotKind::High);
    let lows = prices_of(s, PivotKind::Low);
    if highs.len() < 2 || lows.len() < 2 {
        Num::of(STRUCT_NEUTRAL)
    } else {
        let (h1, h0) = (highs.last(), highs[highs.len() - 2]);
        let (l1, l0) = (lows.last(), lows[lows.len() - 2]);
        let eps = Num::of(PIVOT_EQ_ATR_FRAC).fmul(atr);
        let alt = alternating(s);
        let shrinks = shrinking(alt, h1.fsub(l1), h0.fsub(l0));
        if h1.fsub(h0).fabs().flt(eps) && l1.fsub(l0).fabs().flt(eps) {
            Num::of(STRUCT_RANGE)
        } else {
            let up = Num::of(ZERO).flt(dir);
            let (with_h, with_l, against) = if up {
                (h0.flt(h1), l0.flt(l1), l1.flt(l0) && h1.flt(h0))
            } else {
                (h1.flt(h0), l1.flt(l0), l0.flt(l1) && h0.flt(h1))
            };
            let pullback = if up {
                PivotKind::Low
            } else {
                PivotKind::High
            };
            if with_h && with_l && alt.last().kind == pullback && shrinks {
                Num::of(STRUCT_FULL)
            } else if with_h || with_l {
                Num::of(STRUCT_PARTIAL)
            } else if against {
                Num::of(STRUCT_COUNTER)
            } else {
                Num::of(STRUCT_RANGE)
            }
        }
    }
}

/// Something is left after collapsing something.
proof fn lemma_alternating_nonempty(s: Seq<Pivot>)
    ensures
        s.len() > 0 ==> alternating(s).len() > 0,
    decreases s.len(),
{
    if s.len() > 0 {
        lemma_alternating_nonempty(s.drop_last());
    }
}

/// Prices come from pivots.
proof fn lemma_prices_len(s: Seq<Pivot>, kind: PivotKind)
    ensures
        prices_of(s, kind).len() <= s.len(),
    decreases s.len(),
{
    if s.len() > 0 {
        lemma_prices_len(s.drop_last(), kind);
    }
}

/// Market-structure quality: 0, 0.33, 0.5, 0.66 or 1.
///
/// `atr` sets the tolerance of equal pivots; only the sign of `dir` matters.
pub fn structure01(pivots: &Vec<Pivot>, atr: Num, dir: Num) -> (r: Num)
    ensures
        r == structure_of(
            sorting::stable_sorted(pivots@, |a: Pivot, b: Pivot| earlier(a, b)),
            atr,
            dir,
        ),
{
    let ghost order = |a: Pivot, b: Pivot| earlier(a, b);
    let less = |a: Pivot, b: Pivot| -> (c: bool)
        ensures
            c == earlier(a, b),
        { a.index < b.index };
    let sorted = sorting::sort_stable(pivots, less, Ghost(order));
    let highs = collect_prices(&sorted, PivotKind::High);
    let lows = collect_prices(&sorted, PivotKind::Low);
    if highs.len() < 2 || lows.len() < 2 {
        return Num::of(STRUCT_NEUTRAL);
    }
    let last_h = highs[highs.len() - 1];
    let prev_h = highs[highs.len() - 2];
    let last_l = lows[lows.len() - 1];
    let prev_l = lows[lows.len() - 2];
    let eps = Num::of(PIVOT_EQ_ATR_FRAC) * atr;
    if (last_h - prev_h).abs() < eps && (last_l - prev_l).abs() < eps {
        return Num::of(STRUCT_RANGE);
    }
    let alt = collapse_alternating(&sorted);
    proof {
        lemma_prices_len(sorted@, PivotKind::High);
        lemma_alternating_nonempty(sorted@);
    }
    let m: usize = alt.len();
    let (last_leg, prior_leg) = if m >= 3 {
        (alt[m - 1].price - alt[m - 2].price, alt[m - 2].price - alt[m - 3].price)
    } else {
        (last_h - last_l, prev_h - prev_l)
    };
    let shrinks = last_leg.abs() < prior_leg.abs();
    let last_kind = alt[m - 1].kind;
    if dir > Num::of(ZERO) {
        let hh = last_h > prev_h;
        let hl = last_l > prev_l;
        if hh && hl && last_kind == PivotKind::Low && shrinks {
            Num::of(STRUCT_FULL)
        } else if hh || hl {
            Num::of(STRUCT_PARTIAL)
        } else if last_l < prev_l && last_h < prev_h {
            Num::of(STRUCT_COUNTER)
        } else {
            Num::of(STRUCT_RANGE)
        }
    } else {
        let lh = last_h < prev_h;
        let ll = last_l < prev_l;
        if lh && ll && last_kind == PivotKind::High && shrinks {
            Num::of(STRUCT_FULL)
        } else if lh || ll {
            Num::of(STRUCT_PARTIAL)
        } else if last_l > prev_l && last_h > prev_h {
            Num::of(STRUCT_COUNTER)
        } else {
            Num::of(STRUCT_RANGE)
        }
    }
}

/// Rising highs and lows are a trend for a long and none for a short, and falling
/// ones the reverse: 1 with a shrinking pullback as the last swing and 0.66
/// without for the side that they go with, 0 for the other.  Where only one of the
/// two goes with the trade it is 0.66, where both moved less than a tenth of the
/// ATR it is 0.33, and with too few swings 0.5.
pub proof fn law_structure_follows_the_swings(s: Seq<Pivot>, atr: Num, dir: Num)
    ensures
        ({
            let (highs, lows) = (prices_of(s, PivotKind::High), prices_of(s, PivotKind::Low));
            let (h1, h0) = (highs.last(), highs[highs.len() - 2]);
            let (l1, l0) = (lows.last(), lows[lows.len() - 2]);
            let r = structure_of(s, atr, dir);
            let long = Num::of(ZERO).flt(dir);
            let near = decimal(1, 10).fmul(atr);
            let still = h1.fsub(h0).fabs().flt(near) && l1.fsub(l0).fabs().flt(near);
            let rising = h0.flt(h1) && l0.flt(l1);
            let falling = h1.flt(h0) && l1.flt(l0);
            let alt = alternating(s);
            let shrinks = shrinking(alt, h1.fsub(l1), h0.fsub(l0));
            if highs.len() < 2 || lows.len() < 2 {
                r == decimal(1, 2)
            } else if still {
                r == decimal(33, 100)
            } else {
                &&& rising && long ==> r == (if alt.last().kind == PivotKind::Low && shrinks {
                    decimal(1, 1)
                } else {
                    decimal(66, 100)
                })
                &&& falling && !long ==> r == (if alt.last().kind == PivotKind::High && shrinks {
                    decimal(1, 1)
                } else {
                    decimal(66, 100)
                })
                &&& rising && !long ==> r == Num::of(ZERO)
                &&& falling && long ==> r == Num::of(ZERO)
                &&& long && h0.flt(h1) && l1.fle(l0) ==> r == decimal(66, 100)
                &&& long && l0.flt(l1) && h1.fle(h0) ==> r == decimal(66, 100)
                &&& !long && h1.flt(h0) && l0.fle(l1) ==> r == decimal(66, 100)
                &&& !long && l1.flt(l0) && h0.fle(h1) ==> r == decimal(66, 100)
            }
        }),
{
    lemma2_to64_rest();
    decimal::lemma_decimal(STRUCT_NEUTRAL, 1, 2, 53);
    decimal::lemma_decimal(STRUCT_RANGE, 33, 100, 54);
    decimal::lemma_decimal(STRUCT_PARTIAL, 66, 100, 53);
    decimal::lemma_decimal(STRUCT_FULL, 1, 1, 52);
    decimal::lemma_decimal(PIVOT_EQ_ATR_FRAC, 1, 10, 56);
}

/// Structure quality is one of five rungs.
pub proof fn law_structure_has_five_rungs(s: Seq<Pivot>, atr: Num, dir: Num)
    ensures
        ({
            let r = structure_of(s, atr, dir);
            ||| r == Num::of(STRUCT_NEUTRAL)
            ||| r == Num::of(STRUCT_RANGE)
            ||| r == Num::of(STRUCT_PARTIAL)
            ||| r == Num::of(STRUCT_FULL)
            ||| r == Num::of(STRUCT_COUNTER)
        }),
{
}

/// RSI and ATR have their first reading at the same bar, `period`.
pub proof fn law_rsi_and_atr_seed_together(c: Seq<Candle>, period: nat, i: int)
    requires
        0 <= i < c.len(),
    ensures
        rsi_at(c, period, i) is Some <==> atr_at(c, period, i) is Some,
        rsi_at(c, period, i) is Some <==> 0 < period <= i,
{
}

} // verus!
