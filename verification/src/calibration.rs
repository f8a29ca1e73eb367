//! Probability calibration: the Wilson score interval, isotonic recalibration
//! by pooling adjacent violators, and the calibration error and Brier score of
//! a track record.
//!
//! Forecast and history share one probability scale.  Below the least number of
//! labeled outcomes nothing is adjusted; without history the diagnostics are
//! declared priors.

use crate::algebra;
use crate::arith;
use crate::bounds;
use crate::consts::{ONE, TWO, ZERO};
use crate::exact;
use crate::integral;
use crate::num::Num;
use crate::rounding;
use crate::sums;
use vstd::arithmetic::power2::*;
use vstd::prelude::*;

verus! {

/// Fewest labeled outcomes that a curve is fitted to.
pub const CALIBRATION_MIN_SAMPLES: usize = 200;

/// Probability bins.
pub const CALIBRATION_BINS: usize = 10;

/// Multiplier of a 95% two-sided interval (1.96).
pub const WILSON_Z_95: u64 = 0x3FFF_5C28_F5C2_8F5C;

/// Factor of the squared sample size (4.0).
pub const FOUR: u64 = 0x4010_0000_0000_0000;

/// Declared calibration error without history (0.05).
pub const DEFAULT_ECE: u64 = 0x3FA9_9999_9999_999A;

/// Declared Brier score without history (0.15).
pub const DEFAULT_BRIER: u64 = 0x3FC3_3333_3333_3333;

/// A score interval, both ends in `[0, 1]`.
#[derive(Debug, Clone, Copy, PartialEq)]
pub struct WilsonInterval {
    /// Lower end.
    pub lo: Num,
    /// Upper end.
    pub hi: Num,
}

/// Diagnostics and the recalibrated probability of one forecast.
#[derive(Debug, Clone, Copy, PartialEq)]
pub struct CalibrationReport {
    /// Expected calibration error.
    pub ece: Num,
    /// Brier score.
    pub brier: Num,
    /// Recalibrated probability.
    pub calibrated_p: Num,
}

/// A number moved into `[0, 1]`; what is not finite counts as 0.
pub open spec fn unit(v: Num) -> Num {
    if !v.finite() {
        Num::of(ZERO)
    } else {
        v.fclamp(Num::of(ZERO), Num::of(ONE))
    }
}

fn clamp01(v: Num) -> (r: Num)
    ensures
        r == unit(v),
{
    if !v.is_finite() {
        Num::of(ZERO)
    } else {
        v.clamp(Num::of(ZERO), Num::of(ONE))
    }
}

impl WilsonInterval {
    /// Square of the multiplier.
    pub open spec fn z2() -> Num {
        Num::of(WILSON_Z_95).fmul(Num::of(WILSON_Z_95))
    }

    /// Common denominator.
    pub open spec fn denom(n: Num) -> Num {
        Num::of(ONE).fadd(WilsonInterval::z2().fdiv(n))
    }

    /// Middle of the interval of a proportion.
    pub open spec fn center(p: Num, n: Num) -> Num {
        p.fadd(WilsonInterval::z2().fdiv(Num::of(TWO).fmul(n))).fdiv(WilsonInterval::denom(n))
    }

    /// Half-width of the interval of a proportion.
    pub open spec fn half(p: Num, n: Num) -> Num {
        Num::of(WILSON_Z_95).fmul(wilson_spread(p, n).fsqrt()).fdiv(WilsonInterval::denom(n))
    }

    /// The interval of a proportion from `n` trials.
    pub open spec fn of_proportion(p: Num, n: u64) -> WilsonInterval {
        let q = unit(p);
        let nf = Num::whole(false, n as nat);
        if n == 0 {
            WilsonInterval { lo: Num::of(ZERO), hi: Num::of(ZERO) }
        } else {
            let (c, h) = (WilsonInterval::center(q, nf), WilsonInterval::half(q, nf));
            WilsonInterval { lo: unit(c.fsub(h)), hi: unit(c.fadd(h)) }
        }
    }
}

/// Wilson score interval of a proportion `p` from `n` trials at the 95% level.
/// Without trials it is `[0, 0]`.
pub fn wilson_interval(p: Num, n: u64) -> (r: WilsonInterval)
    ensures
        r == WilsonInterval::of_proportion(p, n),
{
    if n == 0 {
        return WilsonInterval { lo: Num::of(ZERO), hi: Num::of(ZERO) };
    }
    let p = clamp01(p);
    let z = Num::of(WILSON_Z_95);
    let z2 = z * z;
    let nf = Num::from_u64(n);
    let denom = Num::of(ONE) + z2 / nf;
    let center = (p + z2 / (Num::of(TWO) * nf)) / denom;
    let half = z * (p * (Num::of(ONE) - p) / nf + z2 / (Num::of(FOUR) * nf * nf)).sqrt() / denom;
    WilsonInterval { lo: clamp01(center - half), hi: clamp01(center + half) }
}

/// Both ends of a Wilson interval lie in `[0, 1]`.
pub proof fn law_wilson_ends_bounded(p: Num, n: u64)
    ensures
        ({
            let w = WilsonInterval::of_proportion(p, n);
            &&& Num::of(ZERO).fle(w.lo) && w.lo.fle(Num::of(ONE))
            &&& Num::of(ZERO).fle(w.hi) && w.hi.fle(Num::of(ONE))
        }),
{
}

/// A Wilson interval is never upside down.
pub proof fn law_wilson_is_ordered(p: Num, n: u64)
    ensures
        WilsonInterval::of_proportion(p, n).lo.fle(WilsonInterval::of_proportion(p, n).hi),
{
    if n > 0 {
        let nf = Num::whole(false, n as nat);
        let (c, h) = (WilsonInterval::center(unit(p), nf), WilsonInterval::half(unit(p), nf));
        lemma_wilson_parts(p, n);
        algebra::law_add_commutes(c, h.fneg());
        algebra::law_add_commutes(c, h);
        algebra::lemma_add_is_number(c, h);
        algebra::lemma_add_is_number(c, h.fneg());
        algebra::law_add_monotone(h.fneg(), h, c);
        bounds::lemma_power(3);
        bounds::lemma_add_within(c, h, 3);
        bounds::lemma_add_within(c, h.fneg(), 3);
    }
}

/// A count of trials lies between 1 and 2^64.
pub proof fn lemma_trials(n: u64)
    requires
        n > 0,
    ensures
        Num::of(ONE).fle(Num::whole(false, n as nat)),
        bounds::within(Num::whole(false, n as nat), 64),
{
    let nf = Num::whole(false, n as nat);
    lemma2_to64();
    lemma2_to64_rest();
    integral::lemma_whole_order(1, n as nat);
    integral::lemma_whole_exact(1);
    algebra::lemma_one_size();
    arith::lemma_round_exact(Num::of(ONE));
    assert(Num::whole(false, 1) == Num::of(ONE)) by {
        reveal(Num::whole);
        assert(1 * pow2(1074) == pow2(1074));
    }
    reveal(Num::whole);
    bounds::lemma_power(64);
    arith::lemma_round_exact(bounds::power(64));
    lemma_pow2_adds(64, 1074);
    let (m, q) = (n as nat, pow2(1074));
    assert(m * q <= pow2(64) * q) by (nonlinear_arith)
        requires
            m <= pow2(64),
    ;
    rounding::lemma_round_monotone(m * q, pow2(1138), 1);
}

/// The divisors of a Wilson interval are at least 1 and finite.
pub proof fn lemma_wilson_divisors(n: u64)
    requires
        n > 0,
    ensures
        ({
            let nf = Num::whole(false, n as nat);
            let (two, four) = (Num::of(TWO).fmul(nf), Num::of(FOUR).fmul(nf).fmul(nf));
            &&& Num::of(ONE).fle(two) && two.finite()
            &&& Num::of(ONE).fle(four) && four.finite()
            &&& Num::of(ONE).fle(WilsonInterval::denom(nf)) && WilsonInterval::denom(nf).finite()
        }),
        bounds::within(WilsonInterval::z2(), 2),
        !WilsonInterval::z2().negative(),
{
    let (nf, one, z) = (Num::whole(false, n as nat), Num::of(ONE), Num::of(WILSON_Z_95));
    let (two, four) = (Num::of(TWO), Num::of(FOUR));
    lemma_trials(n);
    bounds::lemma_power(0);
    bounds::lemma_power(1);
    bounds::lemma_power(2);
    bounds::lemma_mul_within(two, nf, 1, 64);
    bounds::lemma_mul_within(four, nf, 2, 64);
    bounds::lemma_mul_within(four.fmul(nf), nf, 66, 64);
    algebra::law_mul_one(nf);
    algebra::law_mul_monotone(one, two, nf);
    algebra::law_mul_monotone(one, four, nf);
    algebra::law_mul_monotone(one, four.fmul(nf), nf);
    bounds::lemma_mul_within(z, z, 1, 1);
    algebra::lemma_mul_is_number(z, z);
    let z2 = WilsonInterval::z2();
    bounds::lemma_div_within(z2, nf, 2, 0);
    algebra::law_div_antitone(z2, nf, nf);
    bounds::lemma_within_more(one, 0, 2);
    bounds::lemma_add_within(one, z2.fdiv(nf), 2);
    let q = z2.fdiv(nf);
    assert(!q.negative()) by {
        reveal(Num::fdiv);
    }
    algebra::lemma_add_not_negative(one, q);
}

/// Middle and half-width of a Wilson interval are bounded, and the half-width
/// is not negative.
pub proof fn lemma_wilson_parts(p: Num, n: u64)
    requires
        n > 0,
    ensures
        ({
            let nf = Num::whole(false, n as nat);
            let (c, h) = (WilsonInterval::center(unit(p), nf), WilsonInterval::half(unit(p), nf));
            &&& bounds::within(c, 3)
            &&& bounds::within(h, 3)
            &&& Num::of(ZERO).fle(h)
        }),
{
    let (nf, one, zero) = (Num::whole(false, n as nat), Num::of(ONE), Num::of(ZERO));
    let (q, z, z2) = (unit(p), Num::of(WILSON_Z_95), WilsonInterval::z2());
    let (two, four) = (Num::of(TWO).fmul(nf), Num::of(FOUR).fmul(nf).fmul(nf));
    let d = WilsonInterval::denom(nf);
    lemma_trials(n);
    lemma_wilson_divisors(n);
    bounds::lemma_power(0);
    bounds::lemma_power(1);
    bounds::lemma_power(2);
    // The middle.
    bounds::lemma_div_within(z2, two, 2, 0);
    bounds::lemma_within_more(q, 0, 2);
    bounds::lemma_add_within(q, z2.fdiv(two), 2);
    bounds::lemma_div_within(q.fadd(z2.fdiv(two)), d, 3, 0);
    // The half-width.
    lemma_wilson_spread(p, n);
    let spread = wilson_spread(q, nf);
    bounds::lemma_div_within(z.fmul(spread.fsqrt()), d, 3, 0);
    algebra::law_div_antitone(z.fmul(spread.fsqrt()), d, d);
}

/// What the half-width takes the root of: the variance of the proportion, and
/// a part that vanishes with the number of trials.
pub open spec fn wilson_spread(q: Num, nf: Num) -> Num {
    q.fmul(Num::of(ONE).fsub(q)).fdiv(nf).fadd(
        WilsonInterval::z2().fdiv(Num::of(FOUR).fmul(nf).fmul(nf)),
    )
}

pub proof fn lemma_wilson_spread(p: Num, n: u64)
    requires
        n > 0,
    ensures
        ({
            let nf = Num::whole(false, n as nat);
            let v = unit(p).fmul(Num::of(ONE).fsub(unit(p)));
            let s = wilson_spread(unit(p), nf);
            let r = Num::of(WILSON_Z_95).fmul(s.fsqrt());
            &&& Num::of(ZERO).fle(v) && v.finite()
            &&& Num::of(ZERO).fle(s) && s.finite()
            &&& bounds::within(r, 3)
            &&& Num::of(ZERO).fle(r)
        }),
{
    let (nf, one, zero) = (Num::whole(false, n as nat), Num::of(ONE), Num::of(ZERO));
    let (q, z, z2) = (unit(p), Num::of(WILSON_Z_95), WilsonInterval::z2());
    let four = Num::of(FOUR).fmul(nf).fmul(nf);
    lemma_trials(n);
    lemma_wilson_divisors(n);
    bounds::lemma_power(0);
    bounds::lemma_power(1);
    bounds::lemma_power(2);
    bounds::lemma_power(3);
    let rest = one.fsub(q);
    let v = q.fmul(rest);
    algebra::lemma_rise(q, one);
    bounds::lemma_add_within(one, q.fneg(), 0);
    bounds::lemma_mul_within(q, rest, 0, 1);
    algebra::lemma_mul_is_number(zero, rest);
    algebra::lemma_scale_order(zero, q, rest);
    algebra::law_zero_mul(zero, rest);
    let x = v.fdiv(nf);
    bounds::lemma_div_within(v, nf, 1, 0);
    algebra::law_div_antitone(v, nf, nf);
    let y = z2.fdiv(four);
    bounds::lemma_div_within(z2, four, 2, 0);
    algebra::law_div_antitone(z2, four, four);
    bounds::lemma_within_more(x, 1, 2);
    bounds::lemma_add_within(x, y, 2);
    algebra::lemma_sum_from_zero(x, y);
    bounds::lemma_within_more(x.fadd(y), 3, 4);
    bounds::lemma_sqrt_within(x.fadd(y), 2);
    let s = x.fadd(y).fsqrt();
    bounds::lemma_mul_within(z, s, 1, 2);
    algebra::lemma_mul_is_number(s, z);
    algebra::lemma_mul_is_number(zero, z);
    algebra::law_mul_monotone(zero, s, z);
    algebra::law_mul_commutes(z, s);
    algebra::law_zero_mul(zero, z);
}

/// More trials never widen the half-width, before it is put over the common
/// denominator.
pub proof fn law_wilson_spread_shrinks(p: Num, n: u64, m: u64)
    requires
        0 < n <= m,
    ensures
        ({
            let (nf, mf) = (Num::whole(false, n as nat), Num::whole(false, m as nat));
            Num::of(WILSON_Z_95).fmul(wilson_spread(unit(p), mf).fsqrt()).fle(
                Num::of(WILSON_Z_95).fmul(wilson_spread(unit(p), nf).fsqrt()),
            )
        }),
{
    let (nf, mf) = (Num::whole(false, n as nat), Num::whole(false, m as nat));
    let (q, z, z2) = (unit(p), Num::of(WILSON_Z_95), WilsonInterval::z2());
    let four = Num::of(FOUR);
    lemma_trials(n);
    lemma_trials(m);
    lemma_wilson_divisors(n);
    lemma_wilson_divisors(m);
    lemma_wilson_spread(p, n);
    lemma_wilson_spread(p, m);
    integral::lemma_whole_order(n as nat, m as nat);
    bounds::lemma_power(2);
    bounds::lemma_mul_within(four, nf, 2, 64);
    bounds::lemma_mul_within(four, mf, 2, 64);
    bounds::lemma_mul_within(four.fmul(nf), mf, 66, 64);
    algebra::law_mul_commutes(four, nf);
    algebra::law_mul_commutes(four, mf);
    algebra::law_mul_monotone(nf, mf, four);
    algebra::lemma_mul_is_number(four, nf);
    algebra::law_mul_commutes(four.fmul(nf), nf);
    algebra::law_mul_commutes(four.fmul(nf), mf);
    algebra::law_mul_monotone(nf, mf, four.fmul(nf));
    algebra::law_mul_monotone(four.fmul(nf), four.fmul(mf), mf);
    let v = q.fmul(Num::of(ONE).fsub(q));
    let (a, b) = (v.fdiv(mf), v.fdiv(nf));
    let (dm, dn) = (four.fmul(mf).fmul(mf), four.fmul(nf).fmul(nf));
    let (c, d) = (z2.fdiv(dm), z2.fdiv(dn));
    algebra::law_div_antitone(v, nf, mf);
    algebra::law_div_antitone(z2, dn, dm);
    algebra::law_add_commutes(a, c);
    algebra::law_add_commutes(a, d);
    assert(!a.fadd(c).nan() && !b.fadd(d).nan());
    assert(!a.fadd(d).nan()) by {
        reveal(Num::fadd);
    }
    algebra::law_add_monotone(c, d, a);
    algebra::law_add_monotone(a, b, d);
    algebra::law_sqrt_monotone(a.fadd(c), b.fadd(d));
    let (r, s) = (a.fadd(c).fsqrt(), b.fadd(d).fsqrt());
    algebra::law_mul_commutes(z, r);
    algebra::law_mul_commutes(z, s);
    algebra::law_mul_monotone(r, s, z);
}

/// A labeled outcome: the predicted probability and what came of it.
pub type Labeled = (Num, Num);

/// Whether both parts of a labeled outcome are finite.
pub open spec fn counts(h: Labeled) -> bool {
    h.0.finite() && h.1.finite()
}

/// The bin of a prediction; one out of range counts to the bin at the edge.
pub open spec fn bin_of(pred: Num) -> u64 {
    pred.fmul(Num::whole(false, CALIBRATION_BINS as nat)).ffloor().fclamp(
        Num::whole(false, 0),
        Num::whole(false, (CALIBRATION_BINS - 1) as nat),
    ).trunc_u64()
}

/// Every finite prediction has one of the bins.
pub proof fn law_every_prediction_has_a_bin(pred: Num)
    requires
        pred.finite(),
    ensures
        bin_of(pred) < CALIBRATION_BINS,
{
    let ten = Num::whole(false, CALIBRATION_BINS as nat);
    let nine = Num::whole(false, (CALIBRATION_BINS - 1) as nat);
    lemma2_to64_rest();
    integral::lemma_whole_exact(CALIBRATION_BINS as nat);
    integral::lemma_whole_exact((CALIBRATION_BINS - 1) as nat);
    integral::lemma_whole_exact(0);
    integral::lemma_whole_order(0, (CALIBRATION_BINS - 1) as nat);
    algebra::lemma_mul_is_number(pred, ten);
    let f = pred.fmul(ten).ffloor();
    assert(!f.nan()) by {
        reveal(Num::whole);
    }
    integral::lemma_int_part_between(
        f.fclamp(Num::whole(false, 0), nine),
        0,
        (CALIBRATION_BINS - 1) as nat,
    );
}

/// Sums of one bin.
#[derive(Debug, Clone, Copy, PartialEq)]
pub struct BinSums {
    /// Predictions added up.
    pub pred: Num,
    /// Outcomes added up.
    pub win: Num,
    /// Number of outcomes.
    pub count: Num,
}

impl BinSums {
    /// Sums of nothing.
    #[verifier::allow_in_spec]
    pub fn empty() -> BinSums
        returns
            (BinSums { pred: Num::of(ZERO), win: Num::of(ZERO), count: Num::of(ZERO) }),
    {
        BinSums { pred: Num::of(ZERO), win: Num::of(ZERO), count: Num::of(ZERO) }
    }

    /// Sums with one more outcome.
    pub open spec fn plus(self, h: Labeled) -> BinSums {
        BinSums {
            pred: self.pred.fadd(h.0),
            win: self.win.fadd(h.1),
            count: self.count.fadd(Num::of(ONE)),
        }
    }
}

/// Sums of bin `b` over the first `n` outcomes.
pub open spec fn bin_sums(history: Seq<Labeled>, b: int, n: nat) -> BinSums
    decreases n,
{
    if n == 0 {
        BinSums::empty()
    } else {
        let rest = bin_sums(history, b, (n - 1) as nat);
        let h = history[n - 1];
        if counts(h) && bin_of(h.0) == b {
            rest.plus(h)
        } else {
            rest
        }
    }
}

/// Number of finite outcomes among the first `n`.
pub open spec fn finite_count(history: Seq<Labeled>, n: nat) -> Num
    decreases n,
{
    if n == 0 {
        Num::of(ZERO)
    } else if counts(history[n - 1]) {
        finite_count(history, (n - 1) as nat).fadd(Num::of(ONE))
    } else {
        finite_count(history, (n - 1) as nat)
    }
}

/// A populated bin.
#[derive(Debug, Clone, Copy, PartialEq)]
pub struct Bin {
    /// Mean prediction.
    pub mean_pred: Num,
    /// Mean outcome.
    pub mean_win: Num,
    /// Number of outcomes.
    pub count: Num,
}

/// The populated bins among the first `n`, ascending.
pub open spec fn populated(history: Seq<Labeled>, n: nat) -> Seq<Bin>
    decreases n,
{
    if n == 0 {
        Seq::empty()
    } else {
        let rest = populated(history, (n - 1) as nat);
        let s = bin_sums(history, n - 1, history.len());
        if Num::of(ZERO).flt(s.count) {
            rest.push(
                Bin {
                    mean_pred: s.pred.fdiv(s.count),
                    mean_win: s.win.fdiv(s.count),
                    count: s.count,
                },
            )
        } else {
            rest
        }
    }
}

/// The populated bins of a history.
pub open spec fn bins_of(history: Seq<Labeled>) -> Seq<Bin> {
    populated(history, CALIBRATION_BINS as nat)
}

fn bin_history(history: &Vec<Labeled>) -> (r: (Vec<Bin>, Num))
    ensures
        r.0@ == bins_of(history@),
        r.1 == finite_count(history@, history@.len()),
{
    let mut acc: Vec<BinSums> = Vec::new();
    let mut b: usize = 0;
    while b < CALIBRATION_BINS
        invariant
            b <= CALIBRATION_BINS,
            acc@.len() == b,
            forall|k: int| 0 <= k < b ==> acc@[k] == bin_sums(history@, k, 0),
        decreases CALIBRATION_BINS - b,
    {
        acc.push(BinSums::empty());
        b = b + 1;
    }
    let mut total = Num::of(ZERO);
    let mut i: usize = 0;
    while i < history.len()
        invariant
            i <= history@.len(),
            acc@.len() == CALIBRATION_BINS,
            total == finite_count(history@, i as nat),
            forall|k: int|
                0 <= k < CALIBRATION_BINS ==> acc@[k] == bin_sums(history@, k, i as nat),
        decreases history@.len() - i,
    {
        let (pred, win) = history[i];
        if pred.is_finite() && win.is_finite() {
            proof {
                law_every_prediction_has_a_bin(pred);
                integral::lemma_whole_order(0, (CALIBRATION_BINS - 1) as nat);
            }
            let scaled = pred * Num::from_u64(CALIBRATION_BINS as u64);
            let at: usize = scaled.floor().clamp(
                Num::from_u64(0),
                Num::from_u64((CALIBRATION_BINS - 1) as u64),
            ).to_u64() as usize;
            let s = acc[at];
            acc.set(
                at,
                BinSums { pred: s.pred + pred, win: s.win + win, count: s.count + Num::of(ONE) },
            );
            total = total + Num::of(ONE);
        }
        i = i + 1;
    }
    let mut bins: Vec<Bin> = Vec::new();
    let mut b: usize = 0;
    while b < CALIBRATION_BINS
        invariant
            b <= CALIBRATION_BINS,
            acc@.len() == CALIBRATION_BINS,
            forall|k: int|
                0 <= k < CALIBRATION_BINS ==> acc@[k] == bin_sums(history@, k, history@.len()),
            bins@ == populated(history@, b as nat),
        decreases CALIBRATION_BINS - b,
    {
        let s = acc[b];
        if s.count > Num::of(ZERO) {
            bins.push(
                Bin { mean_pred: s.pred / s.count, mean_win: s.win / s.count, count: s.count },
            );
        }
        b = b + 1;
    }
    (bins, total)
}

/// A node of the calibration curve.
#[derive(Debug, Clone, Copy, PartialEq)]
pub struct Node {
    /// Mean prediction.
    pub x: Num,
    /// Calibrated probability.
    pub value: Num,
    /// Number of outcomes.
    pub weight: Num,
}

impl Node {
    /// The node of a bin.
    pub open spec fn of_bin(b: Bin) -> Node {
        Node { x: b.mean_pred, value: b.mean_win, weight: b.count }
    }

    /// Two nodes averaged by weight.
    pub open spec fn pooled(a: Node, b: Node) -> Node {
        let w = a.weight.fadd(b.weight);
        Node {
            x: a.x.fmul(a.weight).fadd(b.x.fmul(b.weight)).fdiv(w),
            value: a.value.fmul(a.weight).fadd(b.value.fmul(b.weight)).fdiv(w),
            weight: w,
        }
    }
}

/// The first pair from node `i` on whose value falls, or none.
pub open spec fn violation_from(nodes: Seq<Node>, i: nat) -> Option<nat>
    decreases nodes.len() - i,
{
    if i + 1 >= nodes.len() {
        None
    } else if nodes[i as int + 1].value.flt(nodes[i as int].value) {
        Some(i)
    } else {
        violation_from(nodes, i + 1)
    }
}

/// The nodes with the pair at `i` pooled.
pub open spec fn pool_at(nodes: Seq<Node>, i: nat) -> Seq<Node> {
    nodes.update(i as int, Node::pooled(nodes[i as int], nodes[i as int + 1])).remove(i as int + 1)
}

pub proof fn lemma_violation(nodes: Seq<Node>, i: nat)
    ensures
        violation_from(nodes, i) matches Some(k) ==> i <= k && k + 1 < nodes.len()
            && nodes[k as int + 1].value.flt(nodes[k as int].value),
        violation_from(nodes, i) is None ==> forall|k: int|
            i <= k && k + 1 < nodes.len() ==> !(#[trigger] nodes[k + 1]).value.flt(nodes[k].value),
    decreases nodes.len() - i,
{
    if i + 1 < nodes.len() && !nodes[i as int + 1].value.flt(nodes[i as int].value) {
        lemma_violation(nodes, i + 1);
    }
}

/// Pools adjacent violators, from the left, until none is left.
pub open spec fn pav(nodes: Seq<Node>) -> Seq<Node>
    decreases nodes.len(),
{
    match violation_from(nodes, 0) {
        None => nodes,
        Some(i) => {
            proof {
                lemma_violation(nodes, 0);
            }
            if i + 1 < nodes.len() {
                pav(pool_at(nodes, i))
            } else {
                nodes
            }
        },
    }
}

/// The calibration curve of a history.
pub open spec fn curve_of(history: Seq<Labeled>) -> Seq<Node> {
    pav(bins_of(history).map_values(|b: Bin| Node::of_bin(b)))
}

/// After pooling, no value is below the one before it.
pub proof fn law_pooled_curve_never_falls(nodes: Seq<Node>)
    ensures
        forall|k: int|
            0 <= k && k + 1 < pav(nodes).len() ==> !(#[trigger] pav(nodes)[k + 1]).value.flt(
                pav(nodes)[k].value,
            ),
        nodes.len() > 0 ==> pav(nodes).len() > 0,
        pav(nodes).len() <= nodes.len(),
    decreases nodes.len(),
{
    lemma_violation(nodes, 0);
    if let Some(i) = violation_from(nodes, 0) {
        law_pooled_curve_never_falls(pool_at(nodes, i));
    }
}

/// Pooling a pooled curve changes nothing.
pub proof fn law_pooling_twice_is_once(nodes: Seq<Node>)
    ensures
        pav(pav(nodes)) == pav(nodes),
    decreases nodes.len(),
{
    lemma_violation(nodes, 0);
    if let Some(i) = violation_from(nodes, 0) {
        law_pooling_twice_is_once(pool_at(nodes, i));
    }
}

fn find_violation(nodes: &Vec<Node>) -> (r: Option<usize>)
    ensures
        match r {
            Some(i) => {
                &&& violation_from(nodes@, 0) == Some(i as nat)
                &&& i + 1 < nodes@.len()
            },
            None => violation_from(nodes@, 0) is None,
        },
{
    let n: usize = nodes.len();
    let mut i: usize = 0;
    while i < n && i + 1 < n
        invariant
            i <= n == nodes@.len(),
            violation_from(nodes@, 0) == violation_from(nodes@, i as nat),
        decreases n - i,
    {
        if nodes[i].value > nodes[i + 1].value {
            return Some(i);
        }
        i = i + 1;
    }
    None
}

fn pool_violators(start: Vec<Node>) -> (r: Vec<Node>)
    ensures
        r@ == pav(start@),
{
    let mut nodes: Vec<Node> = start;
    loop
        invariant
            pav(nodes@) == pav(start@),
        ensures
            violation_from(nodes@, 0) is None,
        decreases nodes@.len(),
    {
        match find_violation(&nodes) {
            None => {
                break;
            },
            Some(i) => {
                let ghost was = nodes@;
                let n: usize = nodes.len();
                proof {
                    assert(i + 1 < n);
                }
                let (a, b) = (nodes[i], nodes[i + 1]);
                let w = a.weight + b.weight;
                let x = (a.x * a.weight + b.x * b.weight) / w;
                let value = (a.value * a.weight + b.value * b.weight) / w;
                nodes.set(i, Node { x, value, weight: w });
                nodes.remove(i + 1);
                proof {
                    assert(nodes@ =~= pool_at(was, i as nat));
                }
            },
        }
    }
    nodes
}

/// The segment that holds `p`: the first node from `i` on that is the last, or
/// whose successor is not below `p`.
pub open spec fn segment_from(nodes: Seq<Node>, p: Num, i: nat) -> nat
    decreases nodes.len() - i,
{
    if i + 1 < nodes.len() && nodes[i as int + 1].x.flt(p) {
        segment_from(nodes, p, i + 1)
    } else {
        i
    }
}

/// The curve within the segment that starts at node `i`.
pub open spec fn segment_value(nodes: Seq<Node>, p: Num, i: nat) -> Num {
    let (a, b) = (nodes[i as int], nodes[i as int + 1]);
    let span = b.x.fsub(a.x);
    let t = if Num::of(ZERO).flt(span) {
        p.fsub(a.x).fdiv(span)
    } else {
        Num::of(ZERO)
    };
    a.value.fadd(t.fmul(b.value.fsub(a.value)))
}

/// The curve at `p`: flat outside its nodes, linear between them.
pub open spec fn curve_at(nodes: Seq<Node>, p: Num) -> Num {
    let last = nodes.len() - 1;
    if p.fle(nodes[0].x) {
        nodes[0].value
    } else if nodes[last].x.fle(p) {
        nodes[last].value
    } else {
        let i = segment_from(nodes, p, 0);
        if i + 1 < nodes.len() {
            segment_value(nodes, p, i)
        } else {
            nodes[last].value
        }
    }
}

/// A probability recalibrated against a history.
pub open spec fn calibrated(p_hat: Num, history: Seq<Labeled>) -> Num {
    if history.len() < CALIBRATION_MIN_SAMPLES || bins_of(history).len() == 0 || !p_hat.finite() {
        p_hat
    } else {
        curve_at(curve_of(history), p_hat)
    }
}

/// Maps a probability through the calibration curve of a history.
///
/// Too short a history, one without finite outcomes, and a probability that is
/// not finite leave it unchanged.
pub fn calibrate_isotonic(p_hat: Num, history: &Vec<Labeled>) -> (r: Num)
    ensures
        r == calibrated(p_hat, history@),
{
    if history.len() < CALIBRATION_MIN_SAMPLES {
        return p_hat;
    }
    let (bins, _total) = bin_history(history);
    if bins.len() == 0 || !p_hat.is_finite() {
        return p_hat;
    }
    let mut start: Vec<Node> = Vec::new();
    let mut i: usize = 0;
    while i < bins.len()
        invariant
            i <= bins@.len(),
            start@ == bins@.take(i as int).map_values(|b: Bin| Node::of_bin(b)),
        decreases bins@.len() - i,
    {
        let b = bins[i];
        start.push(Node { x: b.mean_pred, value: b.mean_win, weight: b.count });
        i = i + 1;
        proof {
            assert(start@ =~= bins@.take(i as int).map_values(|b: Bin| Node::of_bin(b)));
        }
    }
    proof {
        assert(bins@.take(i as int) =~= bins@);
        law_pooled_curve_never_falls(start@);
    }
    let nodes = pool_violators(start);
    let n: usize = nodes.len();
    let last: usize = n - 1;
    if p_hat <= nodes[0].x {
        return nodes[0].value;
    }
    if p_hat >= nodes[last].x {
        return nodes[last].value;
    }
    let mut i: usize = 0;
    while i < last && nodes[i + 1].x < p_hat
        invariant
            i <= last == n - 1,
            n == nodes@.len(),
            segment_from(nodes@, p_hat, 0) == segment_from(nodes@, p_hat, i as nat),
        decreases last - i,
    {
        i = i + 1;
    }
    if i == last {
        return nodes[last].value;
    }
    let (a, b) = (nodes[i], nodes[i + 1]);
    let span = b.x - a.x;
    let t = if span > Num::of(ZERO) {
        (p_hat - a.x) / span
    } else {
        Num::of(ZERO)
    };
    a.value + t * (b.value - a.value)
}

/// Whether the segment at node `i` rises between finite nodes, and its linear
/// course does not round above its end.
pub open spec fn sound_segment(nodes: Seq<Node>, i: int) -> bool {
    rising_segment(nodes, i) && algebra::sound_gap(nodes[i].value, nodes[i + 1].value)
}

/// Whether the segment at node `i` rises between finite nodes.
pub open spec fn rising_segment(nodes: Seq<Node>, i: int) -> bool {
    let (a, b) = (nodes[i], nodes[i + 1]);
    algebra::gap(a.x, b.x) && algebra::gap(a.value, b.value)
}

/// The place of a probability within a segment, from 0 to 1.
pub open spec fn place(a: Node, b: Node, p: Num) -> Num {
    let span = b.x.fsub(a.x);
    if Num::of(ZERO).flt(span) {
        p.fsub(a.x).fdiv(span)
    } else {
        Num::of(ZERO)
    }
}

proof fn lemma_place(nodes: Seq<Node>, p: Num, i: int)
    requires
        0 <= i && i + 1 < nodes.len(),
        rising_segment(nodes, i),
        nodes[i].x.fle(p),
        p.fle(nodes[i + 1].x),
    ensures
        Num::of(ZERO).fle(place(nodes[i], nodes[i + 1], p)),
        place(nodes[i], nodes[i + 1], p).fle(Num::of(ONE)),
{
    let (a, b) = (nodes[i], nodes[i + 1]);
    let span = b.x.fsub(a.x);
    if Num::of(ZERO).flt(span) {
        algebra::lemma_rise(a.x, p);
        algebra::lemma_add_is_number(p, a.x.fneg());
        algebra::law_add_monotone(p, b.x, a.x.fneg());
        algebra::law_div_monotone(Num::of(ZERO), p.fsub(a.x), span);
        algebra::law_div_monotone(p.fsub(a.x), span, span);
        algebra::law_div_self(span);
        assert(Num::of(ZERO).size() == 0) by {
            arith::lemma_zero_size(Num::of(ZERO));
        }
        algebra::lemma_zero_over(Num::of(ZERO), span);
    }
}

/// Within a segment the curve stays between the values of its two nodes.
pub proof fn law_segment_stays_between(nodes: Seq<Node>, p: Num, i: nat)
    requires
        i + 1 < nodes.len(),
        sound_segment(nodes, i as int),
        nodes[i as int].x.fle(p),
        p.fle(nodes[i as int + 1].x),
    ensures
        nodes[i as int].value.fle(segment_value(nodes, p, i)),
        segment_value(nodes, p, i).fle(nodes[i as int + 1].value),
{
    let (a, b) = (nodes[i as int], nodes[i as int + 1]);
    lemma_place(nodes, p, i as int);
    algebra::lemma_blend(a.value, b.value, place(a, b, p), place(a, b, p));
}

/// Within a segment, a greater probability never maps lower.
pub proof fn law_segment_never_falls(nodes: Seq<Node>, p: Num, q: Num, i: nat)
    requires
        i + 1 < nodes.len(),
        sound_segment(nodes, i as int),
        nodes[i as int].x.fle(p),
        p.fle(q),
        q.fle(nodes[i as int + 1].x),
    ensures
        segment_value(nodes, p, i).fle(segment_value(nodes, q, i)),
{
    let (a, b) = (nodes[i as int], nodes[i as int + 1]);
    let span = b.x.fsub(a.x);
    lemma_place(nodes, p, i as int);
    lemma_place(nodes, q, i as int);
    if Num::of(ZERO).flt(span) {
        algebra::lemma_add_is_number(p, a.x.fneg());
        algebra::lemma_add_is_number(q, a.x.fneg());
        algebra::law_add_monotone(p, q, a.x.fneg());
        algebra::law_div_monotone(p.fsub(a.x), q.fsub(a.x), span);
    }
    algebra::lemma_blend(a.value, b.value, place(a, b, p), place(a, b, q));
}

proof fn lemma_segment(nodes: Seq<Node>, p: Num, i: nat)
    requires
        i < nodes.len(),
    ensures
        i <= segment_from(nodes, p, i) < nodes.len(),
        segment_from(nodes, p, i) > i ==> nodes[segment_from(nodes, p, i) as int].x.flt(p),
        segment_from(nodes, p, i) + 1 < nodes.len() ==> !nodes[segment_from(nodes, p, i) as int
            + 1].x.flt(p),
    decreases nodes.len() - i,
{
    if i + 1 < nodes.len() && nodes[i as int + 1].x.flt(p) {
        lemma_segment(nodes, p, i + 1);
    }
}

proof fn lemma_segment_order(nodes: Seq<Node>, p: Num, q: Num, i: nat)
    requires
        i < nodes.len(),
        p.fle(q),
    ensures
        segment_from(nodes, p, i) <= segment_from(nodes, q, i),
    decreases nodes.len() - i,
{
    lemma_segment(nodes, q, i);
    if i + 1 < nodes.len() && nodes[i as int + 1].x.flt(p) {
        lemma_segment_order(nodes, p, q, i + 1);
    }
}

proof fn lemma_values_ascend(nodes: Seq<Node>, i: int, j: int)
    requires
        0 <= i <= j < nodes.len(),
        nodes[i].value.finite(),
        forall|k: int| 0 <= k && k + 1 < nodes.len() ==> #[trigger] rising_segment(nodes, k),
    ensures
        nodes[i].value.fle(nodes[j].value),
    decreases j - i,
{
    if i < j {
        lemma_values_ascend(nodes, i, j - 1);
        assert(rising_segment(nodes, j - 1));
    }
}

/// On a curve whose segments do not round above their ends, a greater
/// probability never maps lower.
pub proof fn law_curve_never_falls(nodes: Seq<Node>, p: Num, q: Num)
    requires
        nodes.len() > 0,
        nodes[0].value.finite(),
        forall|k: int| 0 <= k && k + 1 < nodes.len() ==> #[trigger] sound_segment(nodes, k),
        p.finite(),
        q.finite(),
        p.fle(q),
        nodes.len() == 1 ==> nodes[0].x.finite(),
    ensures
        curve_at(nodes, p).fle(curve_at(nodes, q)),
{
    let last = nodes.len() - 1;
    assert forall|k: int| 0 <= k && k + 1 < nodes.len() implies #[trigger] rising_segment(
        nodes,
        k,
    ) by {
        assert(sound_segment(nodes, k));
    }
    if last > 0 {
        assert(rising_segment(nodes, 0));
        assert(rising_segment(nodes, last - 1));
    }
    lemma_values_ascend(nodes, 0, last);
    lemma_segment(nodes, p, 0);
    lemma_segment(nodes, q, 0);
    lemma_segment_order(nodes, p, q, 0);
    let (i, j) = (segment_from(nodes, p, 0), segment_from(nodes, q, 0));
    let inner_p = !p.fle(nodes[0].x) && !nodes[last].x.fle(p);
    let inner_q = !q.fle(nodes[0].x) && !nodes[last].x.fle(q);
    if inner_p {
        assert(i + 1 < nodes.len());
        assert(sound_segment(nodes, i as int));
        law_segment_stays_between(nodes, p, i);
        lemma_values_ascend(nodes, 0, i as int);
        assert(nodes[i as int].value.finite());
        lemma_values_ascend(nodes, i as int + 1, last);
    }
    if inner_q {
        assert(j + 1 < nodes.len());
        assert(sound_segment(nodes, j as int));
        law_segment_stays_between(nodes, q, j);
        lemma_values_ascend(nodes, 0, j as int);
        lemma_values_ascend(nodes, j as int + 1, last);
    }
    if inner_p && inner_q {
        if i == j {
            law_segment_never_falls(nodes, p, q, i);
        } else {
            lemma_values_ascend(nodes, i as int + 1, j as int);
        }
    }
}

/// A rate from 0 to 1.
pub open spec fn rate(v: Num) -> bool {
    Num::of(ZERO).fle(v) && v.fle(Num::of(ONE))
}

/// A way between two rates ends at the second, up to a few roundings.
proof fn lemma_way_ends(a: Num, b: Num)
    requires
        algebra::gap(a, b),
        rate(a),
        rate(b),
    ensures
        ({
            let end = a.fadd(b.fsub(a));
            &&& end.finite()
            &&& end.exact() <= b.exact() + 8real * exact::eps()
        }),
{
    let (zero, one, d) = (Num::of(ZERO), Num::of(ONE), b.fsub(a));
    exact::lemma_exact_zero(zero);
    algebra::lemma_one_size();
    lemma2_to64();
    exact::lemma_exact_power(one, 0);
    exact::lemma_exact_order(zero, a);
    exact::lemma_exact_order(a, b);
    exact::lemma_exact_order(b, one);
    exact::lemma_exact_neg(a);
    exact::lemma_exact_add(b, a.fneg());
    let (x, y, e) = (a.exact(), b.exact(), exact::eps());
    exact::lemma_times(y - x, 1real, e);
    bounds::lemma_power(0);
    bounds::lemma_power(1);
    bounds::lemma_add_within(b, a.fneg(), 0);
    bounds::lemma_within_more(a, 0, 1);
    bounds::lemma_add_within(a, d, 1);
    exact::lemma_exact_add(a, d);
    exact::lemma_times(exact::rabs(x + d.exact()), 3real, e);
}

/// Rates in order have a finite gap.
proof fn lemma_rates_gap(a: Num, b: Num)
    requires
        rate(a),
        rate(b),
        a.fle(b),
    ensures
        algebra::gap(a, b),
{
    bounds::lemma_power(0);
    bounds::lemma_power(1);
    bounds::lemma_add_within(b, a.fneg(), 0);
}

/// Whether a curve leads through rates that do not fall.
pub open spec fn rising_rates(nodes: Seq<Node>) -> bool {
    &&& forall|k: int|
        0 <= k < nodes.len() ==> rate((#[trigger] nodes[k]).x) && rate(nodes[k].value)
    &&& forall|k: int|
        0 <= k && k + 1 < nodes.len() ==> nodes[k].value.fle((#[trigger] nodes[k + 1]).value)
}

proof fn lemma_rates_ascend(nodes: Seq<Node>, i: int, j: int)
    requires
        rising_rates(nodes),
        0 <= i <= j < nodes.len(),
    ensures
        nodes[i].value.fle(nodes[j].value),
        nodes[i].value.exact() <= nodes[j].value.exact(),
    decreases j - i,
{
    assert(rate(nodes[i].value) && rate(nodes[j].value));
    if i < j {
        lemma_rates_ascend(nodes, i, j - 1);
        assert(nodes[j - 1].value.fle(nodes[(j - 1) + 1].value));
    }
    exact::lemma_exact_order(nodes[i].value, nodes[j].value);
}

/// Where a probability lies between the ends of a curve, its segment rises
/// around it.
proof fn lemma_inner(nodes: Seq<Node>, p: Num)
    requires
        nodes.len() > 0,
        rising_rates(nodes),
        p.finite(),
        !p.fle(nodes[0].x),
        !nodes[nodes.len() - 1].x.fle(p),
    ensures
        ({
            let i = segment_from(nodes, p, 0);
            &&& i + 1 < nodes.len()
            &&& rising_segment(nodes, i as int)
            &&& nodes[i as int].x.fle(p)
            &&& p.fle(nodes[i as int + 1].x)
        }),
{
    let i = segment_from(nodes, p, 0);
    lemma_segment(nodes, p, 0);
    assert(rate(nodes[0].x) && rate(nodes[nodes.len() - 1].x) && rate(nodes[i as int].x));
    if i + 1 < nodes.len() {
        assert(rate(nodes[i as int + 1].x) && rate(nodes[i as int + 1].value));
        assert(nodes[i as int].value.fle(nodes[i as int + 1].value));
        lemma_rates_gap(nodes[i as int].x, nodes[i as int + 1].x);
        lemma_rates_gap(nodes[i as int].value, nodes[i as int + 1].value);
    }
}

/// On a curve through rates that do not fall, a greater probability does not
/// map lower, up to a few roundings, and every probability maps to a rate, up to
/// as much.
pub proof fn law_curve_nearly_never_falls(nodes: Seq<Node>, p: Num, q: Num)
    requires
        nodes.len() > 0,
        rising_rates(nodes),
        p.finite(),
        q.finite(),
        p.fle(q),
    ensures
        curve_at(nodes, p).exact() <= curve_at(nodes, q).exact() + 8real * exact::eps(),
        0real <= curve_at(nodes, p).exact() <= 1real + 8real * exact::eps(),
{
    let last = nodes.len() - 1;
    let (i, j) = (segment_from(nodes, p, 0), segment_from(nodes, q, 0));
    let inner_p = !p.fle(nodes[0].x) && !nodes[last].x.fle(p);
    let inner_q = !q.fle(nodes[0].x) && !nodes[last].x.fle(q);
    let (zero, one) = (Num::of(ZERO), Num::of(ONE));
    assert(rate(nodes[0].x) && rate(nodes[last].x));
    assert(rate(nodes[0].value) && rate(nodes[last].value));
    exact::lemma_exact_zero(zero);
    algebra::lemma_one_size();
    lemma2_to64();
    exact::lemma_exact_power(one, 0);
    exact::lemma_exact_order(zero, nodes[0].value);
    exact::lemma_exact_order(nodes[last].value, one);
    lemma_rates_ascend(nodes, 0, last);
    lemma_segment_order(nodes, p, q, 0);
    if inner_p {
        lemma_inner(nodes, p);
        assert(rate(nodes[i as int].value) && rate(nodes[i as int + 1].value));
        lemma_in_segment(nodes, p, i);
        lemma_rates_ascend(nodes, 0, i as int);
        lemma_rates_ascend(nodes, i as int + 1, last);
    }
    if inner_q {
        lemma_inner(nodes, q);
        assert(rate(nodes[j as int].value) && rate(nodes[j as int + 1].value));
        lemma_in_segment(nodes, q, j);
        lemma_rates_ascend(nodes, 0, j as int);
    }
    if inner_p && inner_q {
        if i == j {
            let (a, b) = (nodes[i as int], nodes[i as int + 1]);
            lemma_place(nodes, p, i as int);
            lemma_place(nodes, q, i as int);
            lemma_place_order(nodes, p, q, i);
            algebra::lemma_blend_rises(a.value, b.value, place(a, b, p), place(a, b, q));
            exact::lemma_exact_order(segment_value(nodes, p, i), segment_value(nodes, q, i));
        } else {
            lemma_rates_ascend(nodes, i as int + 1, j as int);
        }
    }
}

/// Within a segment, a greater probability has no lower place.
proof fn lemma_place_order(nodes: Seq<Node>, p: Num, q: Num, i: nat)
    requires
        i + 1 < nodes.len(),
        rising_segment(nodes, i as int),
        nodes[i as int].x.fle(p),
        p.fle(q),
        q.fle(nodes[i as int + 1].x),
        p.finite(),
        q.finite(),
    ensures
        place(nodes[i as int], nodes[i as int + 1], p).fle(
            place(nodes[i as int], nodes[i as int + 1], q),
        ),
{
    let (a, b) = (nodes[i as int], nodes[i as int + 1]);
    let span = b.x.fsub(a.x);
    if Num::of(ZERO).flt(span) {
        algebra::lemma_add_is_number(p, a.x.fneg());
        algebra::lemma_add_is_number(q, a.x.fneg());
        algebra::law_add_monotone(p, q, a.x.fneg());
        algebra::law_div_monotone(p.fsub(a.x), q.fsub(a.x), span);
    }
}

/// Within a segment the curve starts at the first rate and ends near the second.
proof fn lemma_in_segment(nodes: Seq<Node>, p: Num, i: nat)
    requires
        i + 1 < nodes.len(),
        rising_segment(nodes, i as int),
        rate(nodes[i as int].value),
        rate(nodes[i as int + 1].value),
        nodes[i as int].x.fle(p),
        p.fle(nodes[i as int + 1].x),
    ensures
        ({
            let v = segment_value(nodes, p, i);
            &&& v.finite()
            &&& nodes[i as int].value.exact() <= v.exact()
            &&& v.exact() <= nodes[i as int + 1].value.exact() + 8real * exact::eps()
        }),
{
    let (a, b) = (nodes[i as int], nodes[i as int + 1]);
    let (t, v) = (place(a, b, p), segment_value(nodes, p, i));
    lemma_place(nodes, p, i as int);
    algebra::lemma_blend_rises(a.value, b.value, t, t);
    lemma_way_ends(a.value, b.value);
    let end = a.value.fadd(b.value.fsub(a.value));
    exact::lemma_exact_order(a.value, v);
    exact::lemma_exact_order(v, end);
}

/// Calibration never turns two probabilities round, on a history whose curve
/// has finite, ascending segments that do not round above their ends.
pub proof fn law_calibration_never_falls(p: Num, q: Num, history: Seq<Labeled>)
    requires
        p.finite(),
        q.finite(),
        p.fle(q),
        ({
            let curve = curve_of(history);
            &&& curve.len() > 0 ==> curve[0].x.finite() && curve[0].value.finite()
            &&& forall|k: int|
                0 <= k && k + 1 < curve.len() ==> #[trigger] sound_segment(curve, k)
        }),
    ensures
        calibrated(p, history).fle(calibrated(q, history)),
{
    let start = bins_of(history).map_values(|b: Bin| Node::of_bin(b));
    law_pooled_curve_never_falls(start);
    if history.len() >= CALIBRATION_MIN_SAMPLES && bins_of(history).len() > 0 {
        law_curve_never_falls(curve_of(history), p, q);
    }
}

/// Whether every prediction and every outcome of a history is a rate.
pub open spec fn all_rates(history: Seq<Labeled>) -> bool {
    forall|i: int|
        0 <= i < history.len() ==> rate((#[trigger] history[i]).0) && rate(history[i].1)
}

/// A count that stands still at 2^54 at the latest grows no further.
proof fn lemma_count_step(c: Num)
    requires
        Num::of(ZERO).fle(c),
        c.fle(bounds::power(54)),
    ensures
        c.fadd(Num::of(ONE)).fle(bounds::power(54)),
        Num::of(ONE).fle(c.fadd(Num::of(ONE))),
{
    let (zero, one, top) = (Num::of(ZERO), Num::of(ONE), bounds::power(54));
    bounds::lemma_power(54);
    algebra::lemma_one_size();
    lemma2_to64();
    lemma_pow2_pos(1074);
    lemma_pow2_unfold(1075);
    lemma_pow2_unfold(1076);
    assert(top.scale() == 1076);
    algebra::lemma_sum_near(top, one, top);
    algebra::lemma_add_is_number(c, one);
    algebra::lemma_add_is_number(zero, one);
    algebra::law_add_monotone(c, top, one);
    algebra::law_add_monotone(zero, c, one);
    algebra::law_add_commutes(zero, one);
    algebra::law_add_zero(one);
}

/// The sums of a bin lie between zero and its count.
proof fn lemma_bin_sums(history: Seq<Labeled>, b: int, n: nat)
    requires
        n <= history.len(),
        all_rates(history),
    ensures
        ({
            let s = bin_sums(history, b, n);
            &&& Num::of(ZERO).fle(s.pred) && s.pred.fle(s.count)
            &&& Num::of(ZERO).fle(s.win) && s.win.fle(s.count)
            &&& s.count.fle(bounds::power(54))
        }),
    decreases n,
{
    bounds::lemma_power(54);
    if n > 0 {
        lemma_bin_sums(history, b, (n - 1) as nat);
        let r = bin_sums(history, b, (n - 1) as nat);
        let h = history[n - 1];
        assert(rate(h.0) && rate(h.1));
        if counts(h) && bin_of(h.0) == b {
            lemma_count_step(r.count);
            lemma_sum_step(r.pred, r.count, h.0);
            lemma_sum_step(r.win, r.count, h.1);
        }
    }
}

/// A sum of rates stays between zero and their number.
proof fn lemma_sum_step(sum: Num, count: Num, r: Num)
    requires
        Num::of(ZERO).fle(sum),
        sum.fle(count),
        count.finite(),
        rate(r),
    ensures
        Num::of(ZERO).fle(sum.fadd(r)),
        sum.fadd(r).fle(count.fadd(Num::of(ONE))),
{
    let one = Num::of(ONE);
    algebra::lemma_add_is_number(sum, r);
    algebra::lemma_add_is_number(count, r);
    algebra::lemma_add_is_number(count, one);
    algebra::law_add_monotone(sum, count, r);
    algebra::law_add_commutes(count, r);
    algebra::law_add_commutes(count, one);
    algebra::law_add_monotone(r, one, count);
    algebra::lemma_add_kind(sum, r);
}

/// A node of rates whose weight is positive and at most `2^k`.
pub open spec fn sound_node(n: Node, k: int) -> bool {
    &&& rate(n.x)
    &&& rate(n.value)
    &&& Num::of(ZERO).flt(n.weight)
    &&& bounds::within(n.weight, k)
}

/// A share of a positive weight is a rate.
proof fn lemma_share_is_rate(s: Num, w: Num)
    requires
        Num::of(ZERO).fle(s),
        s.fle(w),
        w.finite(),
        Num::of(ZERO).flt(w),
    ensures
        rate(s.fdiv(w)),
{
    let zero = Num::of(ZERO);
    algebra::law_div_monotone(zero, s, w);
    algebra::law_div_monotone(s, w, w);
    algebra::law_div_self(w);
    arith::lemma_zero_size(zero);
    algebra::lemma_zero_over(zero, w);
}

/// The nodes of the populated bins.
proof fn lemma_populated(history: Seq<Labeled>, n: nat)
    requires
        all_rates(history),
    ensures
        populated(history, n).len() <= n,
        forall|k: int|
            0 <= k < populated(history, n).len() ==> sound_node(
                Node::of_bin(#[trigger] populated(history, n)[k]),
                54,
            ),
    decreases n,
{
    if n > 0 {
        lemma_populated(history, (n - 1) as nat);
        let s = bin_sums(history, n - 1, history.len());
        lemma_bin_sums(history, n - 1, history.len());
        bounds::lemma_power(54);
        if Num::of(ZERO).flt(s.count) {
            lemma_share_is_rate(s.pred, s.count);
            lemma_share_is_rate(s.win, s.count);
            let (all, rest) = (populated(history, n), populated(history, (n - 1) as nat));
            assert forall|k: int| 0 <= k < all.len() implies sound_node(
                Node::of_bin(#[trigger] all[k]),
                54,
            ) by {
                if k < rest.len() {
                    assert(all[k] == rest[k]);
                }
            }
        }
    }
}

/// A weighted part of a node lies between zero and its weight.
proof fn lemma_weighted_rate(r: Num, w: Num)
    requires
        rate(r),
        w.finite(),
        Num::of(ZERO).flt(w),
    ensures
        Num::of(ZERO).fle(r.fmul(w)),
        r.fmul(w).fle(w),
{
    let (zero, one) = (Num::of(ZERO), Num::of(ONE));
    algebra::lemma_mul_is_number(r, w);
    algebra::lemma_mul_is_number(zero, w);
    algebra::lemma_mul_is_number(one, w);
    algebra::law_mul_monotone(zero, r, w);
    algebra::law_mul_monotone(r, one, w);
    algebra::law_zero_mul(zero, w);
    algebra::law_mul_one(w);
}

/// Two rates averaged by weight are a rate.
proof fn lemma_mean_rate(a: Num, v: Num, b: Num, w: Num, k: int)
    requires
        rate(a),
        rate(b),
        Num::of(ZERO).flt(v),
        Num::of(ZERO).flt(w),
        bounds::within(v, k),
        bounds::within(w, k),
        0 <= k <= 100,
    ensures
        rate(a.fmul(v).fadd(b.fmul(w)).fdiv(v.fadd(w))),
        Num::of(ZERO).flt(v.fadd(w)),
        bounds::within(v.fadd(w), k + 1),
{
    let (x, y) = (a.fmul(v), b.fmul(w));
    lemma_weighted_rate(a, v);
    lemma_weighted_rate(b, w);
    bounds::lemma_add_within(v, w, k);
    algebra::lemma_add_not_negative(v, w);
    algebra::lemma_add_is_number(x, y);
    algebra::lemma_add_is_number(v, y);
    algebra::lemma_add_kind(x, y);
    algebra::law_add_monotone(x, v, y);
    algebra::law_add_commutes(v, y);
    algebra::law_add_commutes(v, w);
    algebra::law_add_monotone(y, w, v);
    lemma_share_is_rate(x.fadd(y), v.fadd(w));
}

/// Pooling keeps nodes of rates.
proof fn lemma_pav_rates(nodes: Seq<Node>)
    requires
        nodes.len() <= CALIBRATION_BINS,
        forall|k: int| 0 <= k < nodes.len() ==> sound_node(#[trigger] nodes[k], 64 - nodes.len()),
    ensures
        forall|k: int|
            0 <= k < pav(nodes).len() ==> rate((#[trigger] pav(nodes)[k]).x) && rate(
                pav(nodes)[k].value,
            ),
    decreases nodes.len(),
{
    lemma_violation(nodes, 0);
    if let Some(i) = violation_from(nodes, 0) {
        let next = pool_at(nodes, i);
        let bound = 64 - nodes.len();
        let (a, b) = (nodes[i as int], nodes[i as int + 1]);
        assert(sound_node(a, bound) && sound_node(b, bound));
        lemma_mean_rate(a.x, a.weight, b.x, b.weight, bound);
        lemma_mean_rate(a.value, a.weight, b.value, b.weight, bound);
        assert forall|k: int| 0 <= k < next.len() implies sound_node(
            #[trigger] next[k],
            64 - next.len(),
        ) by {
            if k < i {
                assert(next[k] == nodes[k]);
                bounds::lemma_within_more(nodes[k].weight, bound, bound + 1);
            } else if k > i {
                assert(next[k] == nodes[k + 1]);
                bounds::lemma_within_more(nodes[k + 1].weight, bound, bound + 1);
            }
        }
        lemma_pav_rates(next);
        assert(pav(nodes) == pav(next));
    } else {
        assert forall|k: int| 0 <= k < pav(nodes).len() implies rate((#[trigger] pav(nodes)[k]).x)
            && rate(pav(nodes)[k].value) by {
            assert(sound_node(nodes[k], 64 - nodes.len()));
        }
    }
}

/// A bin with an outcome is populated.
proof fn lemma_some_bin(history: Seq<Labeled>, b: int, n: nat)
    requires
        0 <= b < n,
        Num::of(ZERO).flt(bin_sums(history, b, history.len()).count),
    ensures
        populated(history, n).len() > 0,
    decreases n,
{
    if b < n - 1 {
        lemma_some_bin(history, b, (n - 1) as nat);
    }
}

/// A bin that an outcome falls into counts it.
proof fn lemma_counted_bin(history: Seq<Labeled>, i: int, n: nat)
    requires
        0 <= i < n <= history.len(),
        all_rates(history),
        counts(history[i]),
    ensures
        Num::of(ONE).fle(bin_sums(history, bin_of(history[i].0) as int, n).count),
    decreases n,
{
    let b = bin_of(history[i].0) as int;
    lemma_bin_sums(history, b, (n - 1) as nat);
    let c = bin_sums(history, b, (n - 1) as nat).count;
    lemma_count_step(c);
    if i < n - 1 {
        lemma_counted_bin(history, i, (n - 1) as nat);
    }
}

/// The curve of a history of rates leads through rates that do not fall.
proof fn lemma_curve_rises(history: Seq<Labeled>)
    requires
        history.len() > 0,
        all_rates(history),
    ensures
        bins_of(history).len() > 0,
        curve_of(history).len() > 0,
        rising_rates(curve_of(history)),
{
    let start = bins_of(history).map_values(|b: Bin| Node::of_bin(b));
    let curve = curve_of(history);
    assert(rate(history[0].0) && rate(history[0].1));
    law_every_prediction_has_a_bin(history[0].0);
    lemma_counted_bin(history, 0, history.len());
    lemma_some_bin(history, bin_of(history[0].0) as int, CALIBRATION_BINS as nat);
    lemma_populated(history, CALIBRATION_BINS as nat);
    assert forall|k: int| 0 <= k < start.len() implies sound_node(
        #[trigger] start[k],
        64 - start.len(),
    ) by {
        assert(sound_node(Node::of_bin(bins_of(history)[k]), 54));
        bounds::lemma_within_more(start[k].weight, 54, 64 - start.len());
    }
    lemma_pav_rates(start);
    law_pooled_curve_never_falls(start);
    assert forall|k: int| 0 <= k && k + 1 < curve.len() implies curve[k].value.fle(
        (#[trigger] curve[k + 1]).value,
    ) by {
        assert(rate(curve[k].value) && rate(curve[k + 1].value));
        assert(!curve[k + 1].value.flt(curve[k].value));
    }
}

/// Calibration against a history of predictions and outcomes between 0 and 1
/// does not turn two probabilities round by more than a few roundings, and gives
/// a probability, up to as much.
pub proof fn law_calibration_nearly_never_falls(p: Num, q: Num, history: Seq<Labeled>)
    requires
        history.len() >= CALIBRATION_MIN_SAMPLES,
        all_rates(history),
        p.finite(),
        q.finite(),
        p.fle(q),
    ensures
        calibrated(p, history).exact() <= calibrated(q, history).exact() + 8real * exact::eps(),
        0real <= calibrated(p, history).exact() <= 1real + 8real * exact::eps(),
{
    lemma_curve_rises(history);
    law_curve_nearly_never_falls(curve_of(history), p, q);
}

/// Errors of each bin, weighted by its share of the outcomes.
pub open spec fn bin_errors(bins: Seq<Bin>, total: Num) -> Seq<Num> {
    bins.map_values(
        |b: Bin| b.count.fdiv(total).fmul(b.mean_win.fsub(b.mean_pred).fabs()),
    )
}

/// Expected calibration error of a history.
pub open spec fn ece_of(history: Seq<Labeled>) -> Num {
    if bins_of(history).len() == 0 {
        Num::of(DEFAULT_ECE)
    } else {
        sums::sum(bin_errors(bins_of(history), finite_count(history, history.len())))
    }
}

/// Expected calibration error: the distance of predicted and realized rates,
/// bin by bin.  Without finite outcomes it is the declared prior.
pub fn ece(history: &Vec<Labeled>) -> (r: Num)
    ensures
        r == ece_of(history@),
{
    let (bins, total) = bin_history(history);
    if bins.len() == 0 {
        return Num::of(DEFAULT_ECE);
    }
    let mut errors: Vec<Num> = Vec::new();
    let mut i: usize = 0;
    while i < bins.len()
        invariant
            i <= bins@.len(),
            errors@ == bin_errors(bins@.take(i as int), total),
        decreases bins@.len() - i,
    {
        let b = bins[i];
        errors.push((b.count / total) * (b.mean_win - b.mean_pred).abs());
        i = i + 1;
        proof {
            assert(errors@ =~= bin_errors(bins@.take(i as int), total));
        }
    }
    proof {
        assert(bins@.take(i as int) =~= bins@);
    }
    sums::total(&errors)
}

/// Squared errors of the finite outcomes among the first `n`, and their number.
pub open spec fn squared_errors(history: Seq<Labeled>, n: nat) -> (Num, nat)
    decreases n,
{
    if n == 0 {
        (Num::of(ZERO), 0)
    } else {
        let (sum, k) = squared_errors(history, (n - 1) as nat);
        let h = history[n - 1];
        if counts(h) {
            (sum.fadd(h.0.fsub(h.1).fmul(h.0.fsub(h.1))), k + 1)
        } else {
            (sum, k)
        }
    }
}

/// Brier score of a history.
pub open spec fn brier_of(history: Seq<Labeled>) -> Num {
    let (sum, k) = squared_errors(history, history.len());
    if k == 0 {
        Num::of(DEFAULT_BRIER)
    } else {
        sum.fdiv(Num::whole(false, k))
    }
}

/// Predictions that are all their outcomes.
pub open spec fn all_hit(history: Seq<Labeled>) -> bool {
    forall|i: int|
        0 <= i < history.len() && counts(#[trigger] history[i]) ==> history[i].0.feq(history[i].1)
}

/// Predictions that are their outcomes have no squared error.
proof fn lemma_no_error(history: Seq<Labeled>, n: nat)
    requires
        n <= history.len(),
        all_hit(history),
    ensures
        squared_errors(history, n).0.mag() == 0,
        squared_errors(history, n).1 <= n,
    decreases n,
{
    if n > 0 {
        lemma_no_error(history, (n - 1) as nat);
        let h = history[n - 1];
        if counts(h) {
            let (sum, d) = (squared_errors(history, (n - 1) as nat).0, h.0.fsub(h.1));
            lemma_no_difference(h.0, h.1);
            algebra::law_zero_mul(d, d);
            algebra::lemma_add_any_zero(sum, d.fmul(d));
        }
    }
}

/// Equal finite numbers differ by nothing.
proof fn lemma_no_difference(a: Num, b: Num)
    requires
        a.finite(),
        b.finite(),
        a.feq(b),
    ensures
        a.fsub(b).mag() == 0,
{
    if a == b {
        algebra::law_sub_self(a);
    } else {
        algebra::lemma_add_any_zero(a, b.fneg());
    }
}

/// Predictions that are all their outcomes have a Brier score of zero.
pub proof fn law_sure_hits_score_zero(history: Seq<Labeled>)
    requires
        history.len() <= u64::MAX,
        all_hit(history),
        exists|i: int| 0 <= i < history.len() && counts(#[trigger] history[i]),
    ensures
        brier_of(history).feq(Num::of(ZERO)),
{
    let (sum, k) = squared_errors(history, history.len());
    let i = choose|i: int| 0 <= i < history.len() && counts(#[trigger] history[i]);
    lemma_no_error(history, history.len());
    lemma_counted(history, i, history.len());
    lemma_trials(k as u64);
    arith::lemma_zero_size(sum);
    algebra::lemma_zero_over(sum, Num::whole(false, k));
}

/// An outcome that counts is counted.
proof fn lemma_counted(history: Seq<Labeled>, i: int, n: nat)
    requires
        0 <= i < n <= history.len(),
        counts(history[i]),
    ensures
        squared_errors(history, n).1 > 0,
    decreases n,
{
    if i < n - 1 {
        lemma_counted(history, i, (n - 1) as nat);
    }
}

/// Brier score: the mean squared error of the predictions.  Without finite
/// outcomes it is the declared prior.
pub fn brier_score(history: &Vec<Labeled>) -> (r: Num)
    ensures
        r == brier_of(history@),
{
    let mut sum_sq = Num::of(ZERO);
    let mut n: u64 = 0;
    let mut i: usize = 0;
    let len: usize = history.len();
    while i < len
        invariant
            i <= len == history@.len(),
            n <= i,
            (sum_sq, n as nat) == squared_errors(history@, i as nat),
        decreases len - i,
    {
        let (pred, win) = history[i];
        if pred.is_finite() && win.is_finite() {
            let d = pred - win;
            sum_sq = sum_sq + d * d;
            n = n + 1;
        }
        i = i + 1;
    }
    if n == 0 {
        Num::of(DEFAULT_BRIER)
    } else {
        sum_sq / Num::from_u64(n)
    }
}

/// The full report of one forecast.
pub fn calibration_report(p_hat: Num, history: &Vec<Labeled>) -> (r: CalibrationReport)
    ensures
        r == (CalibrationReport {
            ece: ece_of(history@),
            brier: brier_of(history@),
            calibrated_p: calibrated(p_hat, history@),
        }),
{
    CalibrationReport {
        ece: ece(history),
        brier: brier_score(history),
        calibrated_p: calibrate_isotonic(p_hat, history),
    }
}

/// Below the least number of outcomes a probability is passed through.
pub proof fn law_cold_start_passes_through(p_hat: Num, history: Seq<Labeled>)
    requires
        history.len() < CALIBRATION_MIN_SAMPLES,
    ensures
        calibrated(p_hat, history) == p_hat,
{
}

} // verus!
