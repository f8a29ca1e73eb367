//! What the dealer flows say of the change between ticks, in real numbers.

use crate::bounds;
use crate::closeness;
use crate::consts::{ONE, ZERO};
use crate::dealer::{
    self, GammaDynamics, VannaFlow, DEALER_EPS, GAMMA_VEL_REL_THRESH, VANNA_TREND_REL_THRESH,
};
use crate::decimal;
use crate::exact;
use crate::exposure::size;
use crate::num::Num;
use crate::state::BinaryState;
use vstd::arithmetic::power2::*;
use vstd::prelude::*;

verus! {

/// Whether a level is a number of at most 2^200 in size.
pub open spec fn levelled(v: Num) -> bool {
    v.finite() && exact::rabs(v.exact()) <= pow2(200) as int as real
}

/// Gamma velocity is the first difference of the net gamma of three ticks, and
/// acceleration the second one, up to rounding.
pub proof fn law_gamma_dynamics_are_differences(now: Num, p: Num, p2: Num, previous: BinaryState)
    requires
        levelled(now) && levelled(p) && levelled(p2),
    ensures
        ({
            let d = GammaDynamics::of_tick(now, Some(p), Some(p2), previous);
            let (x, y, z) = (now.exact(), p.exact(), p2.exact());
            let top = size(x) + 2real * size(y) + size(z);
            &&& d.velocity.finite() && d.acceleration.finite()
            &&& exact::rabs(d.velocity.exact() - (x - y)) <= (2real * exact::eps()) * top
            &&& exact::rabs(d.acceleration.exact() - (x - 2real * y + z)) <= (4real * exact::eps())
                * top
        }),
{
    let (x, y, z) = (now.exact(), p.exact(), p2.exact());
    let (a, b, c) = (size(x), size(y), size(z));
    lemma_room();
    closeness::lemma_close_self(now, a);
    closeness::lemma_close_self(p, b);
    closeness::lemma_close_self(p2, c);
    closeness::lemma_sum(now, x, p, y, 0real, a, b);
    closeness::lemma_sum(p, y, p2, z, 0real, b, c);
    let (v, w) = (now.fsub(p), p.fsub(p2));
    closeness::lemma_sum(v, x - y, w, y - z, 2real, a + b, b + c);
    closeness::lemma_close_more(v, x - y, 2real, 2real, a + b, a + 2real * b + c);
    assert(a + b + (b + c) == a + 2real * b + c);
}

/// The bounds are not huge.
proof fn lemma_room()
    ensures
        4real * (pow2(200) as int as real) <= closeness::huge(),
        pow2(200) as int as real >= 0x100_0000_0000int as real,
{
    lemma2_to64();
    lemma2_to64_rest();
    lemma_pow2_adds(200, 2);
    lemma_pow2_strictly_increases(202, 400);
    lemma_pow2_strictly_increases(40, 200);
    exact::lemma_real_mul(pow2(200) as int, 4);
}

/// A score of at least one in size has the sign of the change that it scores.
proof fn lemma_score_sign(now: Num, p: Num, share: Num)
    requires
        levelled(now) && levelled(p),
        share.finite() && exact::rabs(share.exact()) <= 1real,
    ensures
        ({
            let s = now.fsub(p).fdiv(share.fmul(now.fabs()).fmax(Num::of(DEALER_EPS)));
            &&& !dealer::within_unit(s) && Num::of(ZERO).flt(s) ==> now.exact() > p.exact()
            &&& !dealer::within_unit(s) && !Num::of(ZERO).flt(s) ==> now.exact() < p.exact()
        }),
{
    let (x, y, e) = (now.exact(), p.exact(), exact::eps());
    let (least, zero, one) = (Num::of(DEALER_EPS), Num::of(ZERO), Num::of(ONE));
    let m = share.fmul(now.fabs());
    let d = m.fmax(least);
    lemma_room();
    lemma2_to64_rest();
    lemma2_to64();
    lemma_pow2_adds(64, 18);
    exact::lemma_units_positive();
    decimal::lemma_decimal(DEALER_EPS, 1, 1_000_000_000, 82);
    decimal::lemma_decimal(ONE, 1, 1, 52);
    exact::lemma_exact_zero(zero);
    exact::lemma_exact_neg(now);
    assert(now.fabs() == now || now.fabs() == now.fneg());
    closeness::lemma_close_self(now.fabs(), size(x));
    closeness::lemma_close_self(share, 1real);
    closeness::lemma_product(share, share.exact(), now.fabs(), now.fabs().exact(), 0real, 0real, 1real, size(x));
    exact::lemma_exact_order(m, least);
    exact::lemma_times(e, 1real / 2real, 1real / 1_000_000_000real);
    assert(d.finite() && d.exact() >= 1real / 2_000_000_000real);
    closeness::lemma_close_self(now, size(x));
    closeness::lemma_close_self(p, size(y));
    closeness::lemma_sum(now, x, p, y, 0real, size(x), size(y));
    exact::lemma_exact_neg(p);
    exact::lemma_exact_add(now, p.fneg());
    let v = now.fsub(p);
    closeness::lemma_within_huge(v, 2real * closeness::huge());
    let s = v.fdiv(d);
    closeness::lemma_small_divisor(d);
    bounds::lemma_div_within(v, d, 401, -41);
    exact::lemma_exact_div(v, d);
    let r = v.exact() / d.exact();
    exact::lemma_over(v.exact(), d.exact());
    exact::lemma_small();
    exact::lemma_small_is_small();
    exact::lemma_times(exact::small(), 1real, e);
    exact::lemma_times(e, 1real / 2real, exact::rabs(r));
    exact::lemma_exact_neg(s);
    assert(s.fabs() == s || s.fabs() == s.fneg());
    exact::lemma_exact_order(s.fabs(), one);
    exact::lemma_exact_order(zero, s);
    lemma_same_sign(r, d.exact(), v.exact());
    exact::lemma_times(e, 1real / 2real, exact::rabs(x - y));
}

/// A quotient by a positive number has the sign of the dividend.
proof fn lemma_same_sign(r: real, d: real, v: real)
    by (nonlinear_arith)
    requires
        r * d == v,
        d > 0real,
    ensures
        r > 0real ==> v > 0real,
        r < 0real ==> v < 0real,
{
}

/// Hedges are added only where the net gamma rose since the last tick, and removed
/// only where it fell; and vanna rises and falls with its own net.
pub proof fn law_directions_follow_the_change(
    now: Num,
    p: Num,
    p2: Option<Num>,
    previous: BinaryState,
)
    requires
        levelled(now) && levelled(p),
    ensures
        ({
            let g = GammaDynamics::of_tick(now, Some(p), p2, previous);
            let v = VannaFlow::of_tick(now, Some(p), previous);
            &&& g.direction is AddingHedges ==> now.exact() > p.exact()
            &&& g.direction is RemovingHedges ==> now.exact() < p.exact()
            &&& v.trend is Rising ==> now.exact() > p.exact()
            &&& v.trend is Falling ==> now.exact() < p.exact()
        }),
{
    lemma2_to64_rest();
    exact::lemma_units_positive();
    decimal::lemma_decimal(GAMMA_VEL_REL_THRESH, 3, 100, 58);
    decimal::lemma_decimal(VANNA_TREND_REL_THRESH, 1, 50, 58);
    lemma_score_sign(now, p, Num::of(GAMMA_VEL_REL_THRESH));
    lemma_score_sign(now, p, Num::of(VANNA_TREND_REL_THRESH));
}

} // verus!
