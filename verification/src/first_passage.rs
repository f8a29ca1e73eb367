//! Probabilities of a geometric Brownian motion: touching a barrier before a
//! horizon, and finishing in the money.

use crate::consts::{HALF, ONE, TWO, ZERO};
use crate::dist;
use crate::num::Num;
use vstd::prelude::*;

verus! {

/// What the host machine evaluates for a touch probability.
#[derive(Debug, Clone, Copy, PartialEq)]
pub struct TouchTerms {
    /// Logarithm at `touch_ratio`.
    pub ln_ratio: Num,
    /// Exponential at the exponent of `touch_points`.
    pub reflection: Num,
    /// Exponential at `dist::gauss_arg` of the near point.
    pub exp_near: Num,
    /// Exponential at `dist::gauss_arg` of the far point.
    pub exp_far: Num,
}

/// Where a touch probability evaluates the exponential and the normal CDF.
#[derive(Debug, Clone, Copy, PartialEq)]
pub struct TouchPoints {
    /// Exponent of the reflection weight.
    pub exponent: Num,
    /// Point of the direct term.
    pub near: Num,
    /// Point of the reflected term.
    pub far: Num,
}

/// Whether a touch probability is zero for want of time, vol or a price.
pub open spec fn no_motion(spot: Num, barrier: Num, sigma: Num, tau: Num) -> bool {
    tau.fle(Num::of(ZERO)) || sigma.fle(Num::of(ZERO)) || spot.fle(Num::of(ZERO)) || barrier.fle(
        Num::of(ZERO),
    )
}

/// The point at which the machine takes the logarithm, where one is needed.
pub fn touch_ratio(spot: Num, barrier: Num, sigma: Num, tau: Num) -> (r: Option<Num>)
    ensures
        r == (if no_motion(spot, barrier, sigma, tau) {
            None
        } else {
            Some(barrier.fdiv(spot))
        }),
{
    let zero = Num::of(ZERO);
    if tau <= zero || sigma <= zero || spot <= zero || barrier <= zero {
        None
    } else {
        Some(barrier / spot)
    }
}

impl TouchPoints {
    /// The points for a log distance `x`.
    pub open spec fn at(x: Num, sigma: Num, tau: Num, nu: Num) -> TouchPoints {
        let srt = sigma.fmul(tau.fsqrt());
        let exponent = Num::of(TWO).fmul(nu).fmul(x).fdiv(sigma.fmul(sigma));
        if Num::of(ZERO).flt(x) {
            TouchPoints {
                exponent,
                near: x.fneg().fadd(nu.fmul(tau)).fdiv(srt),
                far: x.fneg().fsub(nu.fmul(tau)).fdiv(srt),
            }
        } else {
            TouchPoints {
                exponent,
                near: x.fsub(nu.fmul(tau)).fdiv(srt),
                far: x.fadd(nu.fmul(tau)).fdiv(srt),
            }
        }
    }
}

/// Where the machine evaluates for a log distance `x` to the barrier.
pub fn touch_points(x: Num, sigma: Num, tau: Num, nu: Num) -> (r: TouchPoints)
    ensures
        r == TouchPoints::at(x, sigma, tau, nu),
{
    let srt = sigma * tau.sqrt();
    let exponent = Num::of(TWO) * nu * x / (sigma * sigma);
    if x > Num::of(ZERO) {
        TouchPoints {
            exponent,
            near: (x.neg() + nu * tau) / srt,
            far: (x.neg() - nu * tau) / srt,
        }
    } else {
        TouchPoints { exponent, near: (x - nu * tau) / srt, far: (x + nu * tau) / srt }
    }
}

/// Probability of touching a barrier, by the reflection principle.
pub open spec fn touch_chance(
    spot: Num,
    barrier: Num,
    sigma: Num,
    tau: Num,
    nu: Num,
    t: TouchTerms,
) -> Num {
    if no_motion(spot, barrier, sigma, tau) {
        Num::of(ZERO)
    } else if t.ln_ratio.feq(Num::of(ZERO)) {
        Num::of(ONE)
    } else {
        let at = TouchPoints::at(t.ln_ratio, sigma, tau, nu);
        dist::cdf_from(at.near, t.exp_near).fadd(
            t.reflection.fmul(dist::cdf_from(at.far, t.exp_far)),
        ).fclamp(Num::of(ZERO), Num::of(ONE))
    }
}

/// Probability that a geometric Brownian motion with log drift `nu` touches
/// `barrier` before `tau` years pass, monitored continuously.
///
/// Without time, vol or a positive price it is 0; at a barrier on spot it is 1.
pub fn gbm_touch_probability(
    spot: Num,
    barrier: Num,
    sigma: Num,
    tau: Num,
    nu: Num,
    t: &TouchTerms,
) -> (r: Num)
    ensures
        r == touch_chance(spot, barrier, sigma, tau, nu, *t),
{
    if touch_ratio(spot, barrier, sigma, tau).is_none() {
        return Num::of(ZERO);
    }
    if t.ln_ratio == Num::of(ZERO) {
        return Num::of(ONE);
    }
    let at = touch_points(t.ln_ratio, sigma, tau, nu);
    let p = dist::norm_cdf(at.near, t.exp_near) + t.reflection * dist::norm_cdf(
        at.far,
        t.exp_far,
    );
    p.clamp(Num::of(ZERO), Num::of(ONE))
}

/// A touch probability that is a number lies between 0 and 1.
pub proof fn law_touch_chance_bounded(
    spot: Num,
    barrier: Num,
    sigma: Num,
    tau: Num,
    nu: Num,
    t: TouchTerms,
)
    requires
        !touch_chance(spot, barrier, sigma, tau, nu, t).nan(),
    ensures
        Num::of(ZERO).fle(touch_chance(spot, barrier, sigma, tau, nu, t)),
        touch_chance(spot, barrier, sigma, tau, nu, t).fle(Num::of(ONE)),
{
}

/// Whether the exercise probability falls back to the intrinsic indicator.
pub open spec fn no_spread(spot: Num, strike: Num, tau: Num, iv: Num) -> bool {
    spot.fle(Num::of(ZERO)) || strike.fle(Num::of(ZERO)) || tau.fle(Num::of(ZERO)) || iv.fle(
        Num::of(ZERO),
    )
}

/// The point at which the machine takes the logarithm, where one is needed.
pub fn expire_ratio(spot: Num, strike: Num, tau: Num, iv: Num) -> (r: Option<Num>)
    ensures
        r == (if no_spread(spot, strike, tau, iv) {
            None
        } else {
            Some(spot.fdiv(strike))
        }),
{
    let zero = Num::of(ZERO);
    if spot <= zero || strike <= zero || tau <= zero || iv <= zero {
        None
    } else {
        Some(spot / strike)
    }
}

/// The point at which the normal CDF is taken, from the logarithm of moneyness.
pub open spec fn itm_point(
    ln: Num,
    tau: Num,
    iv: Num,
    is_call: bool,
    rate: Num,
    div_yield: Num,
) -> Num {
    let d2 = ln.fadd(
        rate.fsub(div_yield).fsub(Num::of(HALF).fmul(iv).fmul(iv)).fmul(tau),
    ).fdiv(iv.fmul(tau.fsqrt()));
    if is_call {
        d2
    } else {
        d2.fneg()
    }
}

/// The point at which the normal CDF is taken, from the logarithm of moneyness.
pub fn expire_point(ln: Num, tau: Num, iv: Num, is_call: bool, rate: Num, div_yield: Num) -> (r:
    Num)
    ensures
        r == itm_point(ln, tau, iv, is_call, rate, div_yield),
{
    let d2 = (ln + (rate - div_yield - Num::of(HALF) * iv * iv) * tau) / (iv * tau.sqrt());
    if is_call {
        d2
    } else {
        d2.neg()
    }
}

/// Risk-neutral probability of finishing in the money.
pub open spec fn itm_chance(
    spot: Num,
    strike: Num,
    tau: Num,
    iv: Num,
    is_call: bool,
    rate: Num,
    div_yield: Num,
    ln: Num,
    e: Num,
) -> Num {
    if no_spread(spot, strike, tau, iv) {
        if (is_call && strike.flt(spot)) || (!is_call && spot.flt(strike)) {
            Num::of(ONE)
        } else {
            Num::of(ZERO)
        }
    } else {
        dist::cdf_from(itm_point(ln, tau, iv, is_call, rate, div_yield), e)
    }
}

/// Risk-neutral probability of finishing in the money.  Without time, vol or a
/// positive price it is 1 in the money already and 0 otherwise.
///
/// `ln` is the machine's logarithm at `expire_ratio`, `e` its exponential at
/// `dist::gauss_arg` of `expire_point`.
pub fn prob_expire_itm(
    spot: Num,
    strike: Num,
    tau: Num,
    iv: Num,
    is_call: bool,
    rate: Num,
    div_yield: Num,
    ln: Num,
    e: Num,
) -> (r: Num)
    ensures
        r == itm_chance(spot, strike, tau, iv, is_call, rate, div_yield, ln, e),
{
    if expire_ratio(spot, strike, tau, iv).is_none() {
        let itm = if is_call {
            spot > strike
        } else {
            spot < strike
        };
        return if itm {
            Num::of(ONE)
        } else {
            Num::of(ZERO)
        };
    }
    dist::norm_cdf(expire_point(ln, tau, iv, is_call, rate, div_yield), e)
}

} // verus!
