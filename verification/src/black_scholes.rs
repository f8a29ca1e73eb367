//! Black-Scholes-Merton pricing, greeks and implied volatility.
//!
//! Units are natural: time in years, rates and vols as annualized decimals,
//! theta per year, vega per unit vol.
//!
//! Logarithms and exponentials come from the host machine, as `BsTerms`;
//! `BsInputs` says at which points they are to be taken.

use crate::algebra;
use crate::bounds;
use crate::consts::{HALF, ONE, TWO, ZERO};
use crate::dist;
use crate::exact;
use crate::market::OptionRight;
use crate::num::Num;
use crate::risk;
use vstd::arithmetic::power2::*;
use vstd::prelude::*;

verus! {

/// Divide annual theta by this to quote per calendar day (365.0).
pub const THETA_PER_DAY: u64 = 0x4076_D000_0000_0000;

/// Divide unit-vol vega by this to quote per vol point (100.0).
pub const VEGA_PER_VOL_POINT: u64 = 0x4059_0000_0000_0000;

/// Most Newton steps before the search falls back to bisection.
pub const IV_NEWTON_MAX_ITER: u32 = 32;

/// Most bisection steps.
pub const IV_BISECT_MAX_ITER: u32 = 128;

/// Absolute price tolerance of the implied-vol search, points (1e-10).
pub const IV_PRICE_TOL: u64 = 0x3DDB_7CDF_D9D7_BDBB;

/// Lower bound of the search, annualized vol (0.0001).
pub const IV_LO: u64 = 0x3F1A_36E2_EB1C_432D;

/// Upper bound of the search, annualized vol (5.0).
pub const IV_HI: u64 = 0x4014_0000_0000_0000;

/// Vega below which a Newton step is meaningless (1e-12).
pub const IV_VEGA_FLOOR: u64 = 0x3D71_9799_812D_EA11;

/// 2 pi (6.283185307179586).
pub const TAU: u64 = 0x4019_21FB_5444_2D18;

/// -1.0.
pub const MINUS_ONE: u64 = 0xBFF0_0000_0000_0000;

/// Errors producible by the math kernel.
#[derive(Debug, Clone, Copy, PartialEq, Eq)]
pub enum QuantError {
    /// Inputs outside the mathematical domain of the routine.
    Domain(&'static str),
    /// No solution exists within the search bracket.
    NoSolution(&'static str),
    /// A series was shorter than the estimator's minimum window.
    InsufficientData {
        /// Minimum observations required.
        needed: usize,
        /// Observations supplied.
        got: usize,
    },
}

/// Contract inputs to the BSM model.
#[derive(Debug, Clone, Copy, PartialEq)]
pub struct BsInputs {
    /// Underlying spot, points.
    pub spot: Num,
    /// Strike, points.
    pub strike: Num,
    /// Time to expiry, years.
    pub t_years: Num,
    /// Annualized volatility, decimal.
    pub vol: Num,
    /// Continuously-compounded risk-free rate, decimal.
    pub rate: Num,
    /// Continuous dividend yield, decimal.
    pub div_yield: Num,
}

/// What the host machine evaluates for one contract.
#[derive(Debug, Clone, Copy, PartialEq)]
pub struct BsTerms {
    /// Logarithm at `BsInputs::moneyness`.
    pub ln_moneyness: Num,
    /// Exponential at `dist::gauss_arg` of d1.
    pub exp_d1: Num,
    /// Exponential at `dist::gauss_arg` of d2.
    pub exp_d2: Num,
    /// Exponential at `BsInputs::rate_exponent`.
    pub disc_rate: Num,
    /// Exponential at `BsInputs::yield_exponent`.
    pub disc_yield: Num,
    /// Exponential at `BsInputs::carry_exponent`.
    pub growth: Num,
}

impl BsInputs {
    /// Spot and strike positive, time and vol not negative, everything finite.
    pub open spec fn in_domain(self) -> bool {
        let zero = Num::of(ZERO);
        &&& zero.flt(self.spot)
        &&& zero.flt(self.strike)
        &&& zero.fle(self.t_years)
        &&& zero.fle(self.vol)
        &&& self.spot.finite()
        &&& self.strike.finite()
        &&& self.t_years.finite()
        &&& self.vol.finite()
        &&& self.rate.finite()
        &&& self.div_yield.finite()
    }

    /// Expired, or without volatility: the payoff is certain.
    pub open spec fn degenerate(self) -> bool {
        self.t_years.feq(Num::of(ZERO)) || self.vol.feq(Num::of(ZERO))
    }

    pub open spec fn d1(self, ln_moneyness: Num) -> Num {
        let drift = self.rate.fsub(self.div_yield).fadd(
            Num::of(HALF).fmul(self.vol).fmul(self.vol),
        );
        ln_moneyness.fadd(drift.fmul(self.t_years)).fdiv(self.vol.fmul(self.t_years.fsqrt()))
    }

    pub open spec fn d2(self, ln_moneyness: Num) -> Num {
        self.d1(ln_moneyness).fsub(self.vol.fmul(self.t_years.fsqrt()))
    }

    /// Validates the pricing domain.
    pub fn validate(&self) -> (r: Result<(), QuantError>)
        ensures
            match r {
                Ok(_) => self.in_domain(),
                Err(e) => !self.in_domain() && e == QuantError::Domain("BsInputs out of domain"),
            },
    {
        let zero = Num::of(ZERO);
        let ok = self.spot > zero && self.strike > zero && self.t_years >= zero && self.vol >= zero
            && self.spot.is_finite() && self.strike.is_finite() && self.t_years.is_finite()
            && self.vol.is_finite() && self.rate.is_finite() && self.div_yield.is_finite();
        if ok {
            Ok(())
        } else {
            Err(QuantError::Domain("BsInputs out of domain"))
        }
    }

    /// Where the logarithm is to be taken: spot over strike.
    pub fn moneyness(&self) -> (r: Num)
        ensures
            r == self.spot.fdiv(self.strike),
    {
        self.spot / self.strike
    }

    /// Exponent of the rate discount.
    pub fn rate_exponent(&self) -> (r: Num)
        ensures
            r == self.rate.fneg().fmul(self.t_years),
    {
        self.rate.neg() * self.t_years
    }

    /// Exponent of the dividend discount.
    pub fn yield_exponent(&self) -> (r: Num)
        ensures
            r == self.div_yield.fneg().fmul(self.t_years),
    {
        self.div_yield.neg() * self.t_years
    }

    /// Exponent of the forward growth.
    pub fn carry_exponent(&self) -> (r: Num)
        ensures
            r == self.rate.fsub(self.div_yield).fmul(self.t_years),
    {
        (self.rate - self.div_yield) * self.t_years
    }

    /// The two normal arguments of the model.
    pub fn d1_d2(&self, ln_moneyness: Num) -> (r: (Num, Num))
        ensures
            r.0 == self.d1(ln_moneyness),
            r.1 == self.d2(ln_moneyness),
    {
        let denom = self.vol * self.t_years.sqrt();
        let d1 = (ln_moneyness + (self.rate - self.div_yield + Num::of(HALF) * self.vol * self.vol)
            * self.t_years) / denom;
        (d1, d1 - denom)
    }

    /// Payoff at the forward, discounted: the value where nothing is uncertain.
    pub open spec fn certain_value(self, right: OptionRight, t: BsTerms) -> Num {
        let fwd = self.spot.fmul(t.growth);
        let intrinsic = match right {
            OptionRight::Call => fwd.fsub(self.strike).fmax(Num::of(ZERO)),
            OptionRight::Put => self.strike.fsub(fwd).fmax(Num::of(ZERO)),
        };
        t.disc_rate.fmul(intrinsic)
    }

    /// Payoff at the forward, discounted: the value where nothing is uncertain.
    pub fn deterministic_value(&self, right: OptionRight, t: &BsTerms) -> (r: Num)
        ensures
            r == self.certain_value(right, *t),
    {
        let fwd = self.spot * t.growth;
        let intrinsic = match right {
            OptionRight::Call => (fwd - self.strike).max(Num::of(ZERO)),
            OptionRight::Put => (self.strike - fwd).max(Num::of(ZERO)),
        };
        t.disc_rate * intrinsic
    }

    /// The model price.
    pub open spec fn value(self, right: OptionRight, t: BsTerms) -> Num {
        if self.degenerate() {
            self.certain_value(right, t)
        } else {
            let d1 = self.d1(t.ln_moneyness);
            let d2 = self.d2(t.ln_moneyness);
            let s = self.spot.fmul(t.disc_yield);
            let k = self.strike.fmul(t.disc_rate);
            match right {
                OptionRight::Call => s.fmul(dist::cdf_from(d1, t.exp_d1)).fsub(
                    k.fmul(dist::cdf_from(d2, t.exp_d2)),
                ),
                OptionRight::Put => k.fmul(dist::cdf_from(d2.fneg(), t.exp_d2)).fsub(
                    s.fmul(dist::cdf_from(d1.fneg(), t.exp_d1)),
                ),
            }
        }
    }
}

/// Full greek set for one contract, natural units.
#[derive(Debug, Clone, Copy, PartialEq)]
pub struct BsGreeks {
    /// Value per spot point.
    pub delta: Num,
    /// Delta per spot point.
    pub gamma: Num,
    /// Value per year.
    pub theta: Num,
    /// Value per unit vol.
    pub vega: Num,
    /// Delta per unit vol.
    pub vanna: Num,
    /// Delta per year.
    pub charm: Num,
}

impl BsGreeks {
    /// The greeks of a certain payoff: a discounted unit delta in the money, else nothing.
    pub open spec fn certain(i: BsInputs, right: OptionRight, t: BsTerms) -> BsGreeks {
        let fwd = i.spot.fmul(t.growth);
        let zero = Num::of(ZERO);
        let delta = match right {
            OptionRight::Call => if i.strike.flt(fwd) {
                Num::of(ONE).fmul(t.disc_yield)
            } else {
                zero
            },
            OptionRight::Put => if fwd.flt(i.strike) {
                Num::of(MINUS_ONE).fmul(t.disc_yield)
            } else {
                zero
            },
        };
        BsGreeks { delta, gamma: zero, theta: zero, vega: zero, vanna: zero, charm: zero }
    }

    /// The greeks of the model away from its degenerate inputs.
    pub open spec fn regular(i: BsInputs, right: OptionRight, t: BsTerms) -> BsGreeks {
        let d1 = i.d1(t.ln_moneyness);
        let d2 = i.d2(t.ln_moneyness);
        let root = i.t_years.fsqrt();
        let (dr, dq) = (t.disc_rate, t.disc_yield);
        let pdf = dist::pdf_from(t.exp_d1);
        let two = Num::of(TWO);
        let spread = i.spot.fneg().fmul(dq).fmul(pdf).fmul(i.vol).fdiv(two.fmul(root));
        let drift = pdf.fmul(
            two.fmul(i.rate.fsub(i.div_yield)).fmul(i.t_years).fsub(d2.fmul(i.vol).fmul(root)),
        ).fdiv(two.fmul(i.t_years).fmul(i.vol).fmul(root));
        let carry = i.rate.fmul(i.strike).fmul(dr);
        let yields = i.div_yield.fmul(i.spot).fmul(dq);
        let (n1, n2) = match right {
            OptionRight::Call => (dist::cdf_from(d1, t.exp_d1), dist::cdf_from(d2, t.exp_d2)),
            OptionRight::Put => (
                dist::cdf_from(d1.fneg(), t.exp_d1),
                dist::cdf_from(d2.fneg(), t.exp_d2),
            ),
        };
        BsGreeks {
            delta: match right {
                OptionRight::Call => dq.fmul(n1),
                OptionRight::Put => dq.fneg().fmul(n1),
            },
            gamma: dq.fmul(pdf).fdiv(i.spot.fmul(i.vol).fmul(root)),
            vega: i.spot.fmul(dq).fmul(pdf).fmul(root),
            theta: match right {
                OptionRight::Call => spread.fsub(carry.fmul(n2)).fadd(yields.fmul(n1)),
                OptionRight::Put => spread.fadd(carry.fmul(n2)).fsub(yields.fmul(n1)),
            },
            vanna: dq.fneg().fmul(pdf).fmul(d2).fdiv(i.vol),
            charm: match right {
                OptionRight::Call => dq.fmul(i.div_yield.fmul(n1).fsub(drift)),
                OptionRight::Put => dq.fmul(i.div_yield.fneg().fmul(n1).fsub(drift)),
            },
        }
    }

    /// The greeks of a contract in the pricing domain.
    pub open spec fn of_contract(i: BsInputs, right: OptionRight, t: BsTerms) -> BsGreeks {
        if i.degenerate() {
            BsGreeks::certain(i, right, t)
        } else {
            BsGreeks::regular(i, right, t)
        }
    }
}

/// BSM price of a European option.
pub fn price(inputs: &BsInputs, right: OptionRight, t: &BsTerms) -> (r: Result<Num, QuantError>)
    ensures
        match r {
            Ok(v) => inputs.in_domain() && v == inputs.value(right, *t),
            Err(e) => !inputs.in_domain() && e == QuantError::Domain("BsInputs out of domain"),
        },
{
    match inputs.validate() {
        Err(e) => return Err(e),
        Ok(_) => {},
    }
    if inputs.t_years == Num::of(ZERO) || inputs.vol == Num::of(ZERO) {
        return Ok(inputs.deterministic_value(right, t));
    }
    let (d1, d2) = inputs.d1_d2(t.ln_moneyness);
    let v = match right {
        OptionRight::Call => inputs.spot * t.disc_yield * dist::norm_cdf(d1, t.exp_d1)
            - inputs.strike * t.disc_rate * dist::norm_cdf(d2, t.exp_d2),
        OptionRight::Put => inputs.strike * t.disc_rate * dist::norm_cdf(d2.neg(), t.exp_d2)
            - inputs.spot * t.disc_yield * dist::norm_cdf(d1.neg(), t.exp_d1),
    };
    Ok(v)
}

/// Full BSM greeks.  Expired or zero-vol inputs have the greeks of the certain payoff.
pub fn greeks(inputs: &BsInputs, right: OptionRight, t: &BsTerms) -> (r: Result<
    BsGreeks,
    QuantError,
>)
    ensures
        match r {
            Ok(g) => inputs.in_domain() && g == BsGreeks::of_contract(*inputs, right, *t),
            Err(e) => !inputs.in_domain() && e == QuantError::Domain("BsInputs out of domain"),
        },
{
    match inputs.validate() {
        Err(e) => return Err(e),
        Ok(_) => {},
    }
    let zero = Num::of(ZERO);
    if inputs.t_years == zero || inputs.vol == zero {
        let fwd = inputs.spot * t.growth;
        let delta = match right {
            OptionRight::Call => if fwd > inputs.strike {
                Num::of(ONE) * t.disc_yield
            } else {
                zero
            },
            OptionRight::Put => if fwd < inputs.strike {
                Num::of(MINUS_ONE) * t.disc_yield
            } else {
                zero
            },
        };
        return Ok(
            BsGreeks { delta, gamma: zero, theta: zero, vega: zero, vanna: zero, charm: zero },
        );
    }
    let (d1, d2) = inputs.d1_d2(t.ln_moneyness);
    let root = inputs.t_years.sqrt();
    let (dr, dq) = (t.disc_rate, t.disc_yield);
    let pdf = dist::norm_pdf(t.exp_d1);
    let two = Num::of(TWO);
    let (n1, n2) = match right {
        OptionRight::Call => (dist::norm_cdf(d1, t.exp_d1), dist::norm_cdf(d2, t.exp_d2)),
        OptionRight::Put => (
            dist::norm_cdf(d1.neg(), t.exp_d1),
            dist::norm_cdf(d2.neg(), t.exp_d2),
        ),
    };
    let delta = match right {
        OptionRight::Call => dq * n1,
        OptionRight::Put => dq.neg() * n1,
    };
    let gamma = dq * pdf / (inputs.spot * inputs.vol * root);
    let vega = inputs.spot * dq * pdf * root;
    let spread = inputs.spot.neg() * dq * pdf * inputs.vol / (two * root);
    let carry = inputs.rate * inputs.strike * dr;
    let yields = inputs.div_yield * inputs.spot * dq;
    let theta = match right {
        OptionRight::Call => spread - carry * n2 + yields * n1,
        OptionRight::Put => spread + carry * n2 - yields * n1,
    };
    let vanna = dq.neg() * pdf * d2 / inputs.vol;
    let drift = pdf * (two * (inputs.rate - inputs.div_yield) * inputs.t_years - d2 * inputs.vol
        * root) / (two * inputs.t_years * inputs.vol * root);
    let charm = match right {
        OptionRight::Call => dq * (inputs.div_yield * n1 - drift),
        OptionRight::Put => dq * (inputs.div_yield.neg() * n1 - drift),
    };
    Ok(BsGreeks { delta, gamma, theta, vega, vanna, charm })
}

/// Where an implied-vol search stands.
#[derive(Debug, Clone, Copy, PartialEq)]
pub enum IvSearch {
    /// Wants the price at the lower bound.
    Low,
    /// Wants the price at the upper bound.
    High,
    /// A Newton step at `vol`, with `left` steps to go.
    Newton { vol: Num, left: u32 },
    /// Bisection of `[lo, hi]`, with `left` steps to go.
    Bisect { lo: Num, hi: Num, left: u32 },
    /// The search ended with this volatility.
    Found(Num),
    /// The price lies outside the no-arbitrage bracket.
    Failed(QuantError),
}

impl IvSearch {
    /// Steps that are left at most.
    pub open spec fn steps_left(self) -> nat {
        match self {
            IvSearch::Low => 3 + IV_NEWTON_MAX_ITER as nat + IV_BISECT_MAX_ITER as nat,
            IvSearch::High => 2 + IV_NEWTON_MAX_ITER as nat + IV_BISECT_MAX_ITER as nat,
            IvSearch::Newton { left, .. } => 1 + left as nat + IV_BISECT_MAX_ITER as nat,
            IvSearch::Bisect { left, .. } => left as nat,
            _ => 0,
        }
    }

    /// The middle of a bisection interval.
    pub open spec fn middle(lo: Num, hi: Num) -> Num {
        Num::of(HALF).fmul(lo.fadd(hi))
    }

    /// Bisection with `left` steps to go: at none the middle is the answer.
    pub open spec fn bisecting(lo: Num, hi: Num, left: u32) -> IvSearch {
        if left == 0 {
            IvSearch::Found(IvSearch::middle(lo, hi))
        } else {
            IvSearch::Bisect { lo, hi, left }
        }
    }

    /// The volatility at which the next price is wanted.
    pub open spec fn wanted(self) -> Option<Num> {
        match self {
            IvSearch::Low => Some(Num::of(IV_LO)),
            IvSearch::High => Some(Num::of(IV_HI)),
            IvSearch::Newton { vol, .. } => Some(vol),
            IvSearch::Bisect { lo, hi, .. } => Some(IvSearch::middle(lo, hi)),
            _ => None,
        }
    }

    /// The volatility at which the next price is wanted, until the search has ended.
    pub fn probe(&self) -> (r: Option<Num>)
        ensures
            r == self.wanted(),
    {
        match *self {
            IvSearch::Low => Some(Num::of(IV_LO)),
            IvSearch::High => Some(Num::of(IV_HI)),
            IvSearch::Newton { vol, .. } => Some(vol),
            IvSearch::Bisect { lo, hi, .. } => Some(Num::of(HALF) * (lo + hi)),
            _ => None,
        }
    }

    /// First guess of Brenner and Subrahmanyam, moved into the bracket.
    pub open spec fn seed(market_price: Num, base: BsInputs) -> Num {
        Num::of(TAU).fdiv(base.t_years).fsqrt().fmul(market_price).fdiv(base.spot).fclamp(
            Num::of(IV_LO),
            Num::of(IV_HI),
        )
    }

    /// What follows once the price `p` and the vega at the wanted volatility are known.
    pub open spec fn after(self, market_price: Num, base: BsInputs, p: Num, vega: Num) -> IvSearch {
        let diff = p.fsub(market_price);
        let close = diff.fabs().flt(Num::of(IV_PRICE_TOL));
        let full = IvSearch::bisecting(Num::of(IV_LO), Num::of(IV_HI), IV_BISECT_MAX_ITER);
        match self {
            IvSearch::Low => if market_price.flt(p.fsub(Num::of(IV_PRICE_TOL))) {
                IvSearch::Failed(QuantError::NoSolution("price outside no-arbitrage vol bracket"))
            } else {
                IvSearch::High
            },
            IvSearch::High => if p.fadd(Num::of(IV_PRICE_TOL)).flt(market_price) {
                IvSearch::Failed(QuantError::NoSolution("price outside no-arbitrage vol bracket"))
            } else {
                IvSearch::Newton {
                    vol: IvSearch::seed(market_price, base),
                    left: IV_NEWTON_MAX_ITER,
                }
            },
            IvSearch::Newton { vol, left } => {
                let next = vol.fsub(diff.fdiv(vega));
                if close {
                    IvSearch::Found(vol)
                } else if vega.flt(Num::of(IV_VEGA_FLOOR)) || !(Num::of(IV_LO).fle(next)
                    && next.fle(Num::of(IV_HI))) || left <= 1 {
                    full
                } else {
                    IvSearch::Newton { vol: next, left: (left - 1) as u32 }
                }
            },
            IvSearch::Bisect { lo, hi, left } => {
                let mid = IvSearch::middle(lo, hi);
                if close {
                    IvSearch::Found(mid)
                } else if left == 0 {
                    IvSearch::Found(mid)
                } else if p.flt(market_price) {
                    IvSearch::bisecting(mid, hi, (left - 1) as u32)
                } else {
                    IvSearch::bisecting(lo, mid, (left - 1) as u32)
                }
            },
            other => other,
        }
    }

    /// What one step gives, with the machine's terms for the contract at the
    /// wanted volatility.
    pub open spec fn stepped(
        self,
        market_price: Num,
        base: BsInputs,
        right: OptionRight,
        t: BsTerms,
    ) -> IvSearch {
        match self.wanted() {
            Some(vol) => {
                let at = BsInputs { vol, ..base };
                if at.in_domain() {
                    self.after(
                        market_price,
                        base,
                        at.value(right, t),
                        BsGreeks::of_contract(at, right, t).vega,
                    )
                } else {
                    IvSearch::Failed(QuantError::Domain("BsInputs out of domain"))
                }
            },
            None => self,
        }
    }

    /// Where the search stands after the first `n` of the machine's terms.
    pub open spec fn traced(
        self,
        market_price: Num,
        base: BsInputs,
        right: OptionRight,
        trace: Seq<BsTerms>,
        n: nat,
    ) -> IvSearch
        decreases n,
    {
        if n == 0 {
            self
        } else {
            self.traced(market_price, base, right, trace, (n - 1) as nat).stepped(
                market_price,
                base,
                right,
                trace[n - 1],
            )
        }
    }

    /// The volatility of a search that has ended with one.
    pub open spec fn vol_found(self) -> Option<Num> {
        match self {
            IvSearch::Found(vol) => Some(vol),
            _ => None,
        }
    }

    /// The volatility of a search that has ended with one.
    pub fn found(&self) -> (r: Option<Num>)
        ensures
            r == self.vol_found(),
    {
        match *self {
            IvSearch::Found(vol) => Some(vol),
            _ => None,
        }
    }

    /// Takes one step, given the machine's terms for the contract at the wanted volatility.
    pub fn advance(
        &self,
        market_price: Num,
        base: &BsInputs,
        right: OptionRight,
        t: &BsTerms,
    ) -> (r: IvSearch)
        requires
            base.in_domain(),
        ensures
            r == self.stepped(market_price, *base, right, *t),
    {
        let vol = match self.probe() {
            Some(vol) => vol,
            None => return *self,
        };
        let at = BsInputs { vol, ..*base };
        let p = match price(&at, right, t) {
            Ok(p) => p,
            Err(e) => return IvSearch::Failed(e),
        };
        let g = match greeks(&at, right, t) {
            Ok(g) => g,
            Err(e) => return IvSearch::Failed(e),
        };
        let diff = p - market_price;
        let close = diff.abs() < Num::of(IV_PRICE_TOL);
        match *self {
            IvSearch::Low => if market_price < p - Num::of(IV_PRICE_TOL) {
                IvSearch::Failed(QuantError::NoSolution("price outside no-arbitrage vol bracket"))
            } else {
                IvSearch::High
            },
            IvSearch::High => if market_price > p + Num::of(IV_PRICE_TOL) {
                IvSearch::Failed(QuantError::NoSolution("price outside no-arbitrage vol bracket"))
            } else {
                let guess = (Num::of(TAU) / base.t_years).sqrt() * market_price / base.spot;
                IvSearch::Newton {
                    vol: guess.clamp(Num::of(IV_LO), Num::of(IV_HI)),
                    left: IV_NEWTON_MAX_ITER,
                }
            },
            IvSearch::Newton { vol, left } => {
                let next = vol - diff / g.vega;
                if close {
                    IvSearch::Found(vol)
                } else if g.vega < Num::of(IV_VEGA_FLOOR) || !(next >= Num::of(IV_LO) && next
                    <= Num::of(IV_HI)) || left <= 1 {
                    IvSearch::Bisect {
                        lo: Num::of(IV_LO),
                        hi: Num::of(IV_HI),
                        left: IV_BISECT_MAX_ITER,
                    }
                } else {
                    IvSearch::Newton { vol: next, left: left - 1 }
                }
            },
            IvSearch::Bisect { lo, hi, left } => {
                if close || left == 0 {
                    return IvSearch::Found(vol);
                }
                let (lo, hi) = if p < market_price {
                    (vol, hi)
                } else {
                    (lo, vol)
                };
                if left == 1 {
                    IvSearch::Found(Num::of(HALF) * (lo + hi))
                } else {
                    IvSearch::Bisect { lo, hi, left: left - 1 }
                }
            },
            other => other,
        }
    }
}

/// Starts the search for the volatility that gives `market_price`.
///
/// The search alternates with the host machine: `probe` names a volatility,
/// the machine evaluates the terms there, `advance` takes the next step.
/// Newton steps come first, from the seed of Brenner and Subrahmanyam;
/// bisection of the whole bracket is the fallback.
pub fn implied_vol(market_price: Num, base: &BsInputs) -> (r: Result<IvSearch, QuantError>)
    ensures
        match r {
            Ok(s) => {
                &&& s == IvSearch::Low
                &&& base.in_domain()
                &&& Num::of(ZERO).flt(base.t_years)
                &&& market_price.finite()
                &&& Num::of(ZERO).fle(market_price)
            },
            Err(e) => if !base.in_domain() {
                e == QuantError::Domain("BsInputs out of domain")
            } else if base.t_years.fle(Num::of(ZERO)) {
                e == QuantError::Domain("implied vol undefined at expiry")
            } else {
                &&& e == QuantError::Domain("market price must be finite and non-negative")
                &&& !market_price.finite() || market_price.flt(Num::of(ZERO))
            },
        },
{
    match base.validate() {
        Err(e) => return Err(e),
        Ok(_) => {},
    }
    if base.t_years <= Num::of(ZERO) {
        return Err(QuantError::Domain("implied vol undefined at expiry"));
    }
    if !market_price.is_finite() || market_price < Num::of(ZERO) {
        return Err(QuantError::Domain("market price must be finite and non-negative"));
    }
    Ok(IvSearch::Low)
}

/// Whether a search can begin: a contract of the kernel's domain before its
/// expiry, and a finite price that is not negative.
pub open spec fn searchable(market_price: Num, base: BsInputs) -> bool {
    &&& base.in_domain()
    &&& !base.t_years.fle(Num::of(ZERO))
    &&& market_price.finite()
    &&& !market_price.flt(Num::of(ZERO))
}

/// What a search for an implied vol found, along the machine's terms; none
/// where it could not begin, failed, or has not ended.
pub open spec fn traced_vol(
    market_price: Num,
    base: BsInputs,
    right: OptionRight,
    trace: Seq<BsTerms>,
) -> Option<Num> {
    if searchable(market_price, base) {
        IvSearch::Low.traced(market_price, base, right, trace, trace.len()).vol_found()
    } else {
        None
    }
}

/// Follows a search for an implied vol along the machine's terms, one for each
/// volatility it asks for.
pub fn follow_search(
    market_price: Num,
    base: &BsInputs,
    right: OptionRight,
    trace: &Vec<BsTerms>,
) -> (r: Option<Num>)
    ensures
        r == traced_vol(market_price, *base, right, trace@),
{
    let mut s = match implied_vol(market_price, base) {
        Ok(s) => s,
        Err(_) => return None,
    };
    let mut i: usize = 0;
    while i < trace.len()
        invariant
            i <= trace@.len(),
            base.in_domain(),
            s == IvSearch::Low.traced(market_price, *base, right, trace@, i as nat),
        decreases trace@.len() - i,
    {
        s = s.advance(market_price, base, right, &trace[i]);
        i = i + 1;
    }
    s.found()
}

/// Every step brings an implied-vol search closer to its end, so it ends
/// after at most 163 of them.
pub proof fn law_search_ends(s: IvSearch, market_price: Num, base: BsInputs, p: Num, vega: Num)
    requires
        s.wanted() is Some,
        s matches IvSearch::Newton { left, .. } ==> 1 <= left <= IV_NEWTON_MAX_ITER,
        s matches IvSearch::Bisect { left, .. } ==> 1 <= left <= IV_BISECT_MAX_ITER,
    ensures
        s.after(market_price, base, p, vega).steps_left() < s.steps_left(),
        s.steps_left() <= 163,
{
}

impl IvSearch {
    /// Whether every volatility of a search lies in the bracket.
    pub open spec fn in_bracket(self) -> bool {
        let (low, high) = (Num::of(IV_LO), Num::of(IV_HI));
        match self {
            IvSearch::Newton { vol, .. } => low.fle(vol) && vol.fle(high),
            IvSearch::Bisect { lo, hi, .. } => low.fle(lo) && lo.fle(hi) && hi.fle(high),
            IvSearch::Found(vol) => low.fle(vol) && vol.fle(high),
            _ => true,
        }
    }
}

/// A search never leaves the volatility bracket: what it finds lies there.
pub proof fn law_search_stays_in_bracket(
    s: IvSearch,
    market_price: Num,
    base: BsInputs,
    p: Num,
    vega: Num,
)
    requires
        !IvSearch::seed(market_price, base).nan(),
        s.in_bracket(),
    ensures
        s.after(market_price, base, p, vega).in_bracket(),
{
    if let IvSearch::Bisect { lo, hi, left } = s {
        let mid = IvSearch::middle(lo, hi);
        algebra::law_middle_lies_between(lo, hi);
        if lo.fle(mid) && mid.fle(hi) {
            algebra::law_middle_lies_between(mid, hi);
            algebra::law_middle_lies_between(lo, mid);
        }
    }
}

/// What a search finds gives the market price back within the tolerance, but
/// for the middle that is left once the bisection steps have run out.
pub proof fn law_found_vol_gives_the_price_back(
    s: IvSearch,
    market_price: Num,
    base: BsInputs,
    p: Num,
    vega: Num,
)
    requires
        s.wanted() is Some,
        !(s matches IvSearch::Bisect { left, .. } && left <= 1),
        s.after(market_price, base, p, vega) is Found,
    ensures
        s.after(market_price, base, p, vega) == IvSearch::Found(s.wanted().unwrap()),
        p.fsub(market_price).fabs().flt(Num::of(IV_PRICE_TOL)),
{
}

/// Whether a normal tail is a probability.
pub open spec fn sound_tail(x: Num, e: Num) -> bool {
    !x.nan() && x.mag() > 0 && risk::in_unit(dist::upper_tail(x.fabs(), e))
}

/// The two sides of a normal distribution add up to one, up to a rounding.
pub proof fn law_normal_sides_add_up(x: Num, e: Num)
    requires
        sound_tail(x, e),
    ensures
        ({
            let (a, b) = (dist::cdf_from(x, e), dist::cdf_from(x.fneg(), e));
            &&& risk::in_unit(a) && risk::in_unit(b)
            &&& exact::rabs(a.exact() + b.exact() - 1real) <= exact::eps()
        }),
{
    let (zero, one, t) = (Num::of(ZERO), Num::of(ONE), dist::upper_tail(x.fabs(), e));
    assert(x.fneg().fabs() == x.fabs());
    exact::lemma_exact_zero(zero);
    lemma_one_exact();
    risk::lemma_complement(t);
    let r = one.fsub(t);
    exact::lemma_exact_neg(t);
    exact::lemma_exact_add(one, t.fneg());
    exact::lemma_exact_order(zero, t);
    exact::lemma_exact_order(t, one);
    exact::lemma_times(exact::rabs(1real - t.exact()), 1real, exact::eps());
}

/// One is exact.
proof fn lemma_one_exact()
    ensures
        Num::of(ONE).exact() == 1real,
{
    algebra::lemma_one_size();
    lemma2_to64();
    exact::lemma_exact_power(Num::of(ONE), 0);
}

/// A part of a value: finite, not more than the value, and off by one rounding.
proof fn lemma_part(s: Num, n: Num)
    requires
        s.finite(),
        !s.negative(),
        risk::in_unit(n),
    ensures
        ({
            let v = s.fmul(n);
            &&& v.finite()
            &&& 0real <= v.exact() <= s.exact()
            &&& exact::rabs(v.exact() - s.exact() * n.exact()) <= exact::eps() * s.exact()
                + exact::tiny()
            &&& s.exact() >= 0real
            &&& 0real <= n.exact() <= 1real
        }),
{
    let (zero, one, v) = (Num::of(ZERO), Num::of(ONE), s.fmul(n));
    algebra::lemma_weighted(s, n);
    exact::lemma_exact_zero(zero);
    lemma_one_exact();
    exact::lemma_exact_order(zero, s);
    exact::lemma_exact_order(zero, n);
    exact::lemma_exact_order(n, one);
    exact::lemma_exact_order(zero, v);
    exact::lemma_exact_order(v, s);
    exact::lemma_exact_mul(s, n);
    exact::lemma_times(n.exact(), 1real, s.exact());
    exact::lemma_not_negative(s.exact(), n.exact());
    exact::lemma_times(s.exact() * n.exact(), s.exact(), exact::eps());
}

/// Two parts whose shares add up to one add up to the value.
proof fn lemma_parts(s: Num, a: Num, b: Num)
    requires
        s.finite(),
        !s.negative(),
        risk::in_unit(a),
        risk::in_unit(b),
        exact::rabs(a.exact() + b.exact() - 1real) <= exact::eps(),
    ensures
        exact::rabs(s.fmul(a).exact() + s.fmul(b).exact() - s.exact()) <= 3real * (exact::eps()
            * s.exact()) + 2real * exact::tiny(),
{
    lemma_part(s, a);
    lemma_part(s, b);
    let (x, y, z) = (s.exact(), a.exact(), b.exact());
    let g = y + z - 1real;
    exact::lemma_times(g, exact::eps(), x);
    exact::lemma_times(-exact::eps(), g, x);
    assert(x * y + x * z == x + x * g) by (nonlinear_arith)
        requires
            g == y + z - 1real,
    ;
    assert(x * (-exact::eps()) == -(exact::eps() * x)) by (nonlinear_arith);
    assert(x * exact::eps() == exact::eps() * x) by (nonlinear_arith);
}

/// Put-call parity: a call less a put is worth the discounted spot less the
/// discounted strike, up to a few roundings.
pub proof fn law_put_call_parity(c: BsInputs, t: BsTerms)
    requires
        !c.degenerate(),
        sound_tail(c.d1(t.ln_moneyness), t.exp_d1),
        sound_tail(c.d2(t.ln_moneyness), t.exp_d2),
        c.spot.fmul(t.disc_yield).finite() && !c.spot.fmul(t.disc_yield).negative(),
        c.strike.fmul(t.disc_rate).finite() && !c.strike.fmul(t.disc_rate).negative(),
    ensures
        ({
            let (call, put) = (c.value(OptionRight::Call, t), c.value(OptionRight::Put, t));
            let (s, k) = (c.spot.fmul(t.disc_yield).exact(), c.strike.fmul(t.disc_rate).exact());
            exact::rabs(call.exact() - put.exact() - (s - k)) <= 5real * (exact::eps() * (s + k))
                + 4real * exact::tiny()
        }),
{
    let (d1, d2) = (c.d1(t.ln_moneyness), c.d2(t.ln_moneyness));
    let (s, k) = (c.spot.fmul(t.disc_yield), c.strike.fmul(t.disc_rate));
    let (n1, m1) = (dist::cdf_from(d1, t.exp_d1), dist::cdf_from(d1.fneg(), t.exp_d1));
    let (n2, m2) = (dist::cdf_from(d2, t.exp_d2), dist::cdf_from(d2.fneg(), t.exp_d2));
    law_normal_sides_add_up(d1, t.exp_d1);
    law_normal_sides_add_up(d2, t.exp_d2);
    lemma_parts(s, n1, m1);
    lemma_parts(k, n2, m2);
    lemma_part(s, n1);
    lemma_part(s, m1);
    lemma_part(k, n2);
    lemma_part(k, m2);
    lemma_difference(s.fmul(n1), k.fmul(n2), s, k);
    lemma_difference(k.fmul(m2), s.fmul(m1), k, s);
    let (x, y) = (s.exact(), k.exact());
    assert(exact::eps() * (x + y) == exact::eps() * x + exact::eps() * y) by (nonlinear_arith);
}

/// The difference of two parts is finite and off by one rounding.
pub proof fn lemma_difference(a: Num, b: Num, s: Num, k: Num)
    requires
        a.finite(),
        b.finite(),
        0real <= a.exact() <= s.exact(),
        0real <= b.exact() <= k.exact(),
    ensures
        ({
            let v = a.fsub(b);
            &&& v.finite()
            &&& exact::rabs(v.exact() - (a.exact() - b.exact())) <= exact::eps() * (s.exact()
                + k.exact())
        }),
{
    let zero = Num::of(ZERO);
    exact::lemma_exact_zero(zero);
    exact::lemma_exact_order(zero, a);
    exact::lemma_exact_order(zero, b);
    exact::lemma_exact_neg(b);
    if a.negative() != b.fneg().negative() {
        risk::lemma_opposite_sum(a, b.fneg());
    } else if b.negative() {
        // The second is zero.
        algebra::lemma_add_any_zero(a, b.fneg());
    } else {
        // The first is zero.
        algebra::law_add_commutes(a, b.fneg());
        algebra::lemma_add_any_zero(b.fneg(), a);
    }
    exact::lemma_exact_add(a, b.fneg());
    let (x, y) = (a.exact(), b.exact());
    exact::lemma_times(exact::rabs(x - y), s.exact() + k.exact(), exact::eps());
}

/// The scale of a gamma has no sign.
proof fn lemma_not_below(spot: Num, vol: Num, t: Num)
    requires
        !spot.negative(),
        !vol.negative(),
        Num::of(ZERO).flt(t),
    ensures
        ({
            let scale = spot.fmul(vol).fmul(t.fsqrt());
            scale.nan() || !scale.negative()
        }),
{
    reveal(Num::fmul);
    reveal(Num::fsqrt);
}

/// A quotient of a number from zero on, or of NaN, and one without a sign is of
/// the same kind.
proof fn lemma_over_kind(a: Num, b: Num)
    requires
        algebra::no_less_than_zero(a),
        b.nan() || !b.negative(),
    ensures
        algebra::no_less_than_zero(a.fdiv(b)),
{
    if !b.nan() && b.mag() == 0 {
        reveal(Num::fdiv);
    } else {
        algebra::lemma_div_kind(a, b);
    }
}

/// A finite product with a finite factor has a finite other one.
proof fn lemma_product_parts(w: Num, u: Num)
    requires
        w.fmul(u).finite(),
    ensures
        u.finite(),
{
    reveal(Num::fmul);
}

/// Whether the machine's terms, the spread of the log spot in points and the
/// discounted spot are finite, and the spread is above zero.
pub open spec fn finite_terms(c: BsInputs, t: BsTerms) -> bool {
    let spread = c.spot.fmul(c.vol).fmul(c.t_years.fsqrt());
    &&& t.disc_yield.finite()
    &&& t.exp_d1.finite()
    &&& spread.finite()
    &&& Num::of(ZERO).flt(spread)
    &&& c.spot.fmul(t.disc_yield).finite()
}

/// Gamma and vega of finite terms are numbers.
proof fn lemma_greeks_are_numbers(c: BsInputs, t: BsTerms)
    requires
        c.in_domain(),
        !c.degenerate(),
        finite_terms(c, t),
        algebra::no_less_than_zero(t.disc_yield),
        algebra::no_less_than_zero(t.exp_d1),
    ensures
        !BsGreeks::of_contract(c, OptionRight::Call, t).gamma.nan(),
        !BsGreeks::of_contract(c, OptionRight::Call, t).vega.nan(),
{
    let zero = Num::of(ZERO);
    let (root, dq, pdf) = (c.t_years.fsqrt(), t.disc_yield, dist::pdf_from(t.exp_d1));
    let spread = c.spot.fmul(c.vol).fmul(root);
    bounds::lemma_sqrt_finite(c.t_years);
    exact::lemma_exact_zero(zero);
    exact::lemma_exact_order(zero, c.t_years);
    exact::lemma_exact_sqrt(c.t_years);
    exact::lemma_exact_order(zero, root);
    let (x, y) = (root.exact(), c.t_years.exact());
    assert(x > 0real) by (nonlinear_arith)
        requires
            x * x >= y * (1real - 8real * exact::eps()),
            y > 0real,
            x >= 0real,
            exact::eps() == 1real / (0x20_0000_0000_0000int as real),
    ;
    lemma_pdf_finite(t.exp_d1);
    algebra::lemma_mul_is_number(dq, pdf);
    algebra::lemma_div_finite(dq.fmul(pdf), spread);
    algebra::lemma_mul_is_number(c.spot.fmul(dq), pdf);
    let v = c.spot.fmul(dq).fmul(pdf);
    assert(!v.fmul(root).nan()) by {
        reveal(Num::fmul);
    }
}

/// A density is finite where the machine's exponential is.
proof fn lemma_pdf_finite(e: Num)
    requires
        e.finite(),
        algebra::no_less_than_zero(e),
    ensures
        dist::pdf_from(e).finite(),
{
    let (one, c) = (Num::of(ONE), Num::of(dist::INV_SQRT_TAU));
    algebra::lemma_weighted(e.fabs(), c);
    algebra::law_mul_commutes(c, e);
    if e.negative() {
        algebra::law_zero_mul(e, c);
    }
}

/// A call and a put share gamma, vega and vanna; gamma and vega are not
/// negative, and they are numbers where the machine's terms and the products
/// that they are made of are finite.
pub proof fn law_calls_and_puts_share_greeks(c: BsInputs, t: BsTerms)
    requires
        c.in_domain(),
        algebra::no_less_than_zero(t.disc_yield),
        algebra::no_less_than_zero(t.exp_d1),
    ensures
        ({
            let call = BsGreeks::of_contract(c, OptionRight::Call, t);
            let put = BsGreeks::of_contract(c, OptionRight::Put, t);
            &&& call.gamma == put.gamma
            &&& call.vega == put.vega
            &&& call.vanna == put.vanna
            &&& algebra::no_less_than_zero(call.gamma)
            &&& algebra::no_less_than_zero(call.vega)
            &&& finite_terms(c, t) ==> Num::of(ZERO).fle(call.gamma) && Num::of(ZERO).fle(call.vega)
        }),
{
    if !c.degenerate() {
        let root = c.t_years.fsqrt();
        if finite_terms(c, t) {
            lemma_greeks_are_numbers(c, t);
        }
        let (dq, pdf) = (t.disc_yield, dist::pdf_from(t.exp_d1));
        algebra::law_sqrt_monotone(c.t_years, c.t_years);
        lemma_not_below(c.spot, c.vol, c.t_years);
        algebra::lemma_mul_kind(Num::of(dist::INV_SQRT_TAU), t.exp_d1);
        algebra::lemma_mul_kind(dq, pdf);
        algebra::lemma_mul_kind(c.spot, c.vol);
        algebra::lemma_mul_kind(c.spot.fmul(c.vol), root);
        lemma_over_kind(dq.fmul(pdf), c.spot.fmul(c.vol).fmul(root));
        algebra::lemma_mul_kind(c.spot, dq);
        algebra::lemma_mul_kind(c.spot.fmul(dq), pdf);
        algebra::lemma_mul_kind(c.spot.fmul(dq).fmul(pdf), root);
    }
}

/// The deltas of a call and a put lie in the yield discount, and differ by it,
/// up to rounding.
pub proof fn law_deltas_differ_by_the_discount(c: BsInputs, t: BsTerms)
    requires
        !c.degenerate(),
        sound_tail(c.d1(t.ln_moneyness), t.exp_d1),
        t.disc_yield.finite() && !t.disc_yield.negative(),
    ensures
        ({
            let call = BsGreeks::of_contract(c, OptionRight::Call, t).delta.exact();
            let put = BsGreeks::of_contract(c, OptionRight::Put, t).delta.exact();
            let w = t.disc_yield.exact();
            &&& 0real <= call <= w
            &&& -w <= put <= 0real
            &&& exact::rabs(call - put - w) <= 3real * (exact::eps() * w) + 2real * exact::tiny()
        }),
{
    let d1 = c.d1(t.ln_moneyness);
    let (n, m) = (dist::cdf_from(d1, t.exp_d1), dist::cdf_from(d1.fneg(), t.exp_d1));
    let w = t.disc_yield;
    law_normal_sides_add_up(d1, t.exp_d1);
    lemma_parts(w, n, m);
    lemma_part(w, n);
    lemma_part(w, m);
    algebra::law_mul_commutes(w, m);
    algebra::law_mul_neg(m, w);
    exact::lemma_exact_neg(w.fmul(m));
}

/// A yield times the two sides of a normal distribution: the difference of the
/// signed parts is the yield.
proof fn lemma_yield_parts(q: Num, n: Num, m: Num)
    requires
        q.finite(),
        risk::in_unit(n),
        risk::in_unit(m),
        exact::rabs(n.exact() + m.exact() - 1real) <= exact::eps(),
    ensures
        ({
            let (a, b, s) = (q.fmul(n), q.fneg().fmul(m), exact::rabs(q.exact()));
            &&& a.finite() && b.finite()
            &&& exact::rabs(a.exact()) <= s
            &&& exact::rabs(b.exact()) <= s
            &&& exact::rabs(a.exact() - b.exact() - q.exact()) <= 3real * (exact::eps() * s) + 2real
                * exact::tiny()
        }),
{
    let s = q.fabs();
    lemma_parts(s, n, m);
    lemma_part(s, n);
    lemma_part(s, m);
    algebra::law_mul_commutes(s, n);
    algebra::law_mul_commutes(s, m);
    algebra::law_mul_neg(n, s);
    algebra::law_mul_neg(m, s);
    exact::lemma_exact_neg(s);
    exact::lemma_exact_neg(s.fmul(n));
    exact::lemma_exact_neg(s.fmul(m));
    if q.negative() {
        assert(q == s.fneg());
        assert(q.fneg() == s);
    } else {
        assert(q == s);
    }
}

/// How far roundings take the difference of two products with one factor.
proof fn lemma_scaled_difference(
    c: real,
    p: real,
    u: real,
    v: real,
    q: real,
    w: real,
    m: real,
    e: real,
    t: real,
)
    requires
        0real <= w,
        0real <= m,
        0real <= e,
        0real <= t,
        exact::rabs(u) <= 2real * m,
        exact::rabs(v) <= 2real * m,
        exact::rabs(u - v - q) <= 5real * (e * m) + 2real * t,
        exact::rabs(c - w * u) <= e * exact::rabs(w * u) + t,
        exact::rabs(p - w * v) <= e * exact::rabs(w * v) + t,
    ensures
        exact::rabs(c - p - w * q) <= 9real * (e * (w * m)) + 2real * (t * w) + 2real * t,
{
    let g = u - v - q;
    let k = 5real * (e * m) + 2real * t;
    exact::lemma_times(u, 2real * m, w);
    exact::lemma_times(-(2real * m), u, w);
    exact::lemma_times(v, 2real * m, w);
    exact::lemma_times(-(2real * m), v, w);
    exact::lemma_times(g, k, w);
    exact::lemma_times(-k, g, w);
    assert(w * (2real * m) == 2real * (w * m)) by (nonlinear_arith);
    assert(w * (-(2real * m)) == -(2real * (w * m))) by (nonlinear_arith);
    exact::lemma_times(exact::rabs(w * u), 2real * (w * m), e);
    exact::lemma_times(exact::rabs(w * v), 2real * (w * m), e);
    assert(e * (2real * (w * m)) == 2real * (e * (w * m))) by (nonlinear_arith);
    assert(w * g == w * u - w * v - w * q) by (nonlinear_arith)
        requires
            g == u - v - q,
    ;
    assert(w * (-k) == -(w * k)) by (nonlinear_arith);
    assert(w * k == 5real * (e * (w * m)) + 2real * (t * w)) by (nonlinear_arith)
        requires
            k == 5real * (e * m) + 2real * t,
    ;
}

/// What the charm of a contract takes from the drift of its moneyness.
pub open spec fn charm_drift(i: BsInputs, t: BsTerms) -> Num {
    let d2 = i.d2(t.ln_moneyness);
    let (root, two, pdf) = (i.t_years.fsqrt(), Num::of(TWO), dist::pdf_from(t.exp_d1));
    pdf.fmul(
        two.fmul(i.rate.fsub(i.div_yield)).fmul(i.t_years).fsub(d2.fmul(i.vol).fmul(root)),
    ).fdiv(two.fmul(i.t_years).fmul(i.vol).fmul(root))
}

/// Two charms over the sides of a normal distribution.
proof fn lemma_charms(w: Num, q: Num, d: Num, n: Num, m: Num)
    requires
        w.finite() && !w.negative(),
        q.finite(),
        d.finite(),
        risk::in_unit(n),
        risk::in_unit(m),
        exact::rabs(n.exact() + m.exact() - 1real) <= exact::eps(),
        w.fmul(q.fmul(n).fsub(d)).finite(),
        w.fmul(q.fneg().fmul(m).fsub(d)).finite(),
    ensures
        ({
            let c = w.fmul(q.fmul(n).fsub(d)).exact();
            let p = w.fmul(q.fneg().fmul(m).fsub(d)).exact();
            let (x, y) = (w.exact(), q.exact());
            let big = exact::rabs(y) + exact::rabs(d.exact());
            exact::rabs(c - p - x * y) <= 9real * (exact::eps() * (x * big)) + 2real * (
            exact::tiny() * x) + 2real * exact::tiny()
        }),
{
    let (a, b) = (q.fmul(n), q.fneg().fmul(m));
    let (u, v) = (a.fsub(d), b.fsub(d));
    lemma_yield_parts(q, n, m);
    lemma_product_parts(w, u);
    lemma_product_parts(w, v);
    exact::lemma_exact_neg(d);
    exact::lemma_exact_add(a, d.fneg());
    exact::lemma_exact_add(b, d.fneg());
    exact::lemma_exact_mul(w, u);
    exact::lemma_exact_mul(w, v);
    exact::lemma_exact_zero(Num::of(ZERO));
    exact::lemma_exact_order(Num::of(ZERO), w);
    exact::lemma_units_positive();
    let (e, t) = (exact::eps(), exact::tiny());
    let (x, y, z) = (a.exact(), b.exact(), d.exact());
    let big = exact::rabs(q.exact()) + exact::rabs(z);
    lemma_shifted(x, y, z, u.exact(), v.exact(), q.exact(), e, t);
    lemma_scaled_difference(
        w.fmul(u).exact(),
        w.fmul(v).exact(),
        u.exact(),
        v.exact(),
        q.exact(),
        w.exact(),
        big,
        e,
        t,
    );
}

/// How far roundings take the difference of two differences.
proof fn lemma_shifted(x: real, y: real, z: real, u: real, v: real, q: real, e: real, t: real)
    requires
        0real <= e <= 1real,
        0real <= t,
        exact::rabs(x) <= exact::rabs(q),
        exact::rabs(y) <= exact::rabs(q),
        exact::rabs(x - y - q) <= 3real * (e * exact::rabs(q)) + 2real * t,
        exact::rabs(u - (x - z)) <= e * exact::rabs(x - z),
        exact::rabs(v - (y - z)) <= e * exact::rabs(y - z),
    ensures
        ({
            let m = exact::rabs(q) + exact::rabs(z);
            &&& exact::rabs(u) <= 2real * m
            &&& exact::rabs(v) <= 2real * m
            &&& exact::rabs(u - v - q) <= 5real * (e * m) + 2real * t
        }),
{
    let m = exact::rabs(q) + exact::rabs(z);
    exact::lemma_times(exact::rabs(x - z), m, e);
    exact::lemma_times(exact::rabs(y - z), m, e);
    exact::lemma_times(exact::rabs(q), m, e);
    exact::lemma_times(e, 1real, m);
}

/// The charms of a call and a put differ by the yield times its discount, up to
/// rounding.
pub proof fn law_charms_differ_by_the_yield(c: BsInputs, t: BsTerms)
    requires
        !c.degenerate(),
        c.div_yield.finite(),
        sound_tail(c.d1(t.ln_moneyness), t.exp_d1),
        t.disc_yield.finite() && !t.disc_yield.negative(),
        charm_drift(c, t).finite(),
        BsGreeks::of_contract(c, OptionRight::Call, t).charm.finite(),
        BsGreeks::of_contract(c, OptionRight::Put, t).charm.finite(),
    ensures
        ({
            let call = BsGreeks::of_contract(c, OptionRight::Call, t).charm.exact();
            let put = BsGreeks::of_contract(c, OptionRight::Put, t).charm.exact();
            let (w, q) = (t.disc_yield.exact(), c.div_yield.exact());
            let m = exact::rabs(q) + exact::rabs(charm_drift(c, t).exact());
            exact::rabs(call - put - w * q) <= 9real * (exact::eps() * (w * m)) + 2real * (
            exact::tiny() * w) + 2real * exact::tiny()
        }),
{
    let d1 = c.d1(t.ln_moneyness);
    let (n, m) = (dist::cdf_from(d1, t.exp_d1), dist::cdf_from(d1.fneg(), t.exp_d1));
    law_normal_sides_add_up(d1, t.exp_d1);
    lemma_charms(t.disc_yield, c.div_yield, charm_drift(c, t), n, m);
}

} // verus!
