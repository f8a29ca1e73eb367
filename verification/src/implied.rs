//! What an implied-vol search finds gives the market price back, along the
//! terms of a machine whose prices are steady in the volatility.

use crate::algebra;
use crate::black_scholes::{self, BsInputs, BsTerms, IvSearch, IV_BISECT_MAX_ITER, IV_HI, IV_LO};
use crate::black_scholes::IV_PRICE_TOL;
use crate::bounds;
use crate::consts::{HALF, ZERO};
use crate::exact;
use crate::market::OptionRight;
use crate::num::Num;
use crate::risk;
use vstd::arithmetic::power2::*;
use vstd::prelude::*;

verus! {

/// Whether a volatility lies in the bracket of the search.
pub open spec fn bracketed(vol: Num) -> bool {
    Num::of(IV_LO).fle(vol) && vol.fle(Num::of(IV_HI))
}

/// The price at a volatility, along a machine's terms.
pub open spec fn priced(
    base: BsInputs,
    right: OptionRight,
    machine: spec_fn(Num) -> BsTerms,
    vol: Num,
) -> Num {
    (BsInputs { vol, ..base }).value(right, machine(vol))
}

/// Whether a machine's prices are steady over the bracket: finite, and those of
/// two volatilities no further apart than `steep` times the distance of the
/// two, and `noise` for the rounding of the prices.
pub open spec fn steady(
    base: BsInputs,
    right: OptionRight,
    machine: spec_fn(Num) -> BsTerms,
    steep: real,
    noise: real,
) -> bool {
    &&& steep >= 0real
    &&& noise >= 0real
    &&& forall|v: Num| bracketed(v) ==> (#[trigger] priced(base, right, machine, v)).finite()
    &&& forall|u: Num, v: Num|
        bracketed(u) && bracketed(v) ==> exact::rabs(
            (#[trigger] priced(base, right, machine, u)).exact() - (#[trigger] priced(
                base,
                right,
                machine,
                v,
            )).exact(),
        ) <= steep * exact::rabs(u.exact() - v.exact()) + noise
}

/// Whether a trace holds the machine's terms at each volatility that the search
/// asks for.
pub open spec fn faithful(
    market_price: Num,
    base: BsInputs,
    right: OptionRight,
    trace: Seq<BsTerms>,
    machine: spec_fn(Num) -> BsTerms,
) -> bool {
    forall|i: int|
        0 <= i < trace.len() ==> match IvSearch::Low.traced(
            market_price,
            base,
            right,
            trace,
            i as nat,
        ).wanted() {
            Some(vol) => #[trigger] trace[i] == machine(vol),
            None => true,
        }
}

/// How wide the interval is at most after `k` bisections.
pub open spec fn width(k: nat) -> real
    decreases k,
{
    if k == 0 {
        8real
    } else {
        width((k - 1) as nat) / 2real + 18real * exact::eps()
    }
}

/// Eight over a power of two.
spec fn eighth(k: nat) -> real
    decreases k,
{
    if k == 0 {
        8real
    } else {
        eighth((k - 1) as nat) / 2real
    }
}

proof fn lemma_eight_halvings(k: nat)
    ensures
        eighth(k + 8) == eighth(k) / 256real,
{
    reveal_with_fuel(eighth, 9);
}

/// The width is a power of two and the roundings.
proof fn lemma_width(k: nat)
    ensures
        0real <= width(k) <= eighth(k) + 36real * exact::eps(),
        k >= 64 ==> eighth(k) <= 4real * exact::eps(),
        eighth(k) >= 0real,
    decreases k,
{
    if k > 0 {
        lemma_width((k - 1) as nat);
    }
    if k == 64 {
        lemma_eight_halvings(0);
        lemma_eight_halvings(8);
        lemma_eight_halvings(16);
        lemma_eight_halvings(24);
        lemma_eight_halvings(32);
        lemma_eight_halvings(40);
        lemma_eight_halvings(48);
        lemma_eight_halvings(56);
        assert(eighth(64) == 8real / (0x1_0000_0000_0000_0000int as real));
    }
}

/// How far the price at the ends of the bracket may be beyond the market's.
pub open spec fn leeway(market_price: Num) -> real {
    2real * Num::of(IV_PRICE_TOL).exact() + 4real * (exact::eps() * market_price.exact())
}

/// How far the price that a search gives back may be from the market's.
pub open spec fn miss(market_price: Num, steep: real, noise: real) -> real {
    leeway(market_price) + steep * (40real * exact::eps()) + noise
}

/// Whether a search still holds the market price between its ends, and what it
/// found gives it back.
spec fn braced(
    s: IvSearch,
    market_price: Num,
    base: BsInputs,
    right: OptionRight,
    machine: spec_fn(Num) -> BsTerms,
    steep: real,
    noise: real,
) -> bool {
    let (m, off) = (market_price.exact(), leeway(market_price));
    let low = priced(base, right, machine, Num::of(IV_LO)).exact() <= m + off;
    let high = priced(base, right, machine, Num::of(IV_HI)).exact() >= m - off;
    match s {
        IvSearch::Low => true,
        IvSearch::High => low,
        IvSearch::Newton { vol, .. } => low && high && (vol.nan() || bracketed(vol)),
        IvSearch::Bisect { lo, hi, left } => {
            &&& 1 <= left <= IV_BISECT_MAX_ITER
            &&& held(market_price, base, right, machine, lo, hi, (IV_BISECT_MAX_ITER - left) as nat)
        },
        IvSearch::Found(vol) => bracketed(vol) && exact::rabs(
            priced(base, right, machine, vol).exact() - m,
        ) <= miss(market_price, steep, noise),
        IvSearch::Failed(_) => true,
    }
}

/// Whether an interval holds the market price after `k` bisections.
spec fn held(
    market_price: Num,
    base: BsInputs,
    right: OptionRight,
    machine: spec_fn(Num) -> BsTerms,
    lo: Num,
    hi: Num,
    k: nat,
) -> bool {
    let (m, off) = (market_price.exact(), leeway(market_price));
    &&& bracketed(lo) && bracketed(hi) && lo.fle(hi)
    &&& priced(base, right, machine, lo).exact() <= m + off
    &&& priced(base, right, machine, hi).exact() >= m - off
    &&& hi.exact() - lo.exact() <= width(k)
}

/// Volatilities of the bracket are finite, from 0 to 8.
proof fn lemma_bracket(vol: Num)
    requires
        bracketed(vol),
    ensures
        vol.finite(),
        algebra::halvable(vol),
        0real <= vol.exact() <= 8real,
{
    let (zero, top) = (Num::of(ZERO), bounds::power(3));
    bounds::lemma_power(3);
    exact::lemma_exact_zero(zero);
    lemma2_to64();
    exact::lemma_exact_power(top, 3);
    exact::lemma_exact_order(zero, vol);
    exact::lemma_exact_order(vol, top);
}

/// The middle of an interval, and how far it is from the exact one.
proof fn lemma_middle(lo: Num, hi: Num)
    requires
        bracketed(lo),
        bracketed(hi),
        lo.fle(hi),
    ensures
        ({
            let mid = IvSearch::middle(lo, hi);
            &&& bracketed(mid)
            &&& lo.fle(mid) && mid.fle(hi)
            &&& lo.exact() <= mid.exact() <= hi.exact()
            &&& exact::rabs(mid.exact() - (lo.exact() + hi.exact()) / 2real) <= 18real * exact::eps()
        }),
{
    let (half, sum, mid) = (Num::of(HALF), lo.fadd(hi), IvSearch::middle(lo, hi));
    lemma_bracket(lo);
    lemma_bracket(hi);
    algebra::law_middle_lies_between(lo, hi);
    lemma_bracket(mid);
    exact::lemma_exact_order(lo, mid);
    exact::lemma_exact_order(mid, hi);
    assert(sum.finite()) by {
        reveal(Num::fmul);
    }
    exact::lemma_exact_add(lo, hi);
    exact::lemma_exact_mul(half, sum);
    lemma_half();
    let (x, e) = (lo.exact() + hi.exact(), exact::eps());
    exact::lemma_times(x, 16real, e);
    let v = sum.exact();
    let y = half.exact() * v;
    assert(y == v / 2real) by (nonlinear_arith)
        requires
            y == half.exact() * v,
            half.exact() == 1real / 2real,
    ;
    exact::lemma_times(exact::rabs(y), 9real, e);
    lemma_tiny_below_eps();
}

/// One half is exact.
proof fn lemma_half()
    ensures
        Num::of(HALF).finite(),
        Num::of(HALF).exact() == 1real / 2real,
{
    reveal(Num::exact);
    lemma2_to64();
    lemma2_to64_rest();
    lemma_pow2_adds(52, 1021);
    lemma_pow2_unfold(1074);
    assert(Num::of(HALF).scale() == 1021);
    assert(Num::of(HALF).significand() == pow2(52));
    let (h, u) = (pow2(1073) as int as real, exact::one_units());
    exact::lemma_units_positive();
    assert(h / u == 1real / 2real) by (nonlinear_arith)
        requires
            u == 2real * h,
            u >= 1real,
    ;
}

proof fn lemma_tiny_below_eps()
    ensures
        exact::tiny() <= exact::eps(),
{
    exact::lemma_small();
    exact::lemma_small_is_small();
    exact::lemma_times(exact::small(), 1real, exact::eps());
}

/// The tolerance is finite and positive.
proof fn lemma_tolerance()
    ensures
        Num::of(IV_PRICE_TOL).finite(),
        !Num::of(IV_PRICE_TOL).negative(),
        Num::of(IV_PRICE_TOL).exact() > 0real,
{
    exact::lemma_exact_zero(Num::of(ZERO));
    exact::lemma_exact_order(Num::of(ZERO), Num::of(IV_PRICE_TOL));
}

/// A price that is not beyond the market's by more than the tolerance.
proof fn lemma_low_end(p: Num, market_price: Num)
    requires
        p.finite(),
        market_price.finite(),
        market_price.exact() >= 0real,
        !market_price.flt(p.fsub(Num::of(IV_PRICE_TOL))),
    ensures
        p.exact() <= market_price.exact() + leeway(market_price),
{
    let (tol, m, x) = (Num::of(IV_PRICE_TOL), market_price.exact(), p.exact());
    let (e, t) = (exact::eps(), tol.exact());
    lemma_tolerance();
    exact::lemma_not_negative(e, m);
    if x > m {
        exact::lemma_exact_zero(Num::of(ZERO));
        exact::lemma_exact_order(Num::of(ZERO), p);
        risk::lemma_opposite_sum(p, tol.fneg());
        exact::lemma_exact_neg(tol);
        exact::lemma_exact_add(p, tol.fneg());
        exact::lemma_exact_order(p.fsub(tol), market_price);
        exact::lemma_exact_order(market_price, p.fsub(tol));
        let (v, d) = (p.fsub(tol).exact(), x - t);
        if d > m {
            assert(d <= m + 2real * (e * m)) by (nonlinear_arith)
                requires
                    d - e * d <= m,
                    d > m,
                    m >= 0real,
                    e == 1real / (0x20_0000_0000_0000int as real),
            ;
        }
    }
}

/// A price that is not short of the market's by more than the tolerance.
proof fn lemma_high_end(p: Num, market_price: Num)
    requires
        p.finite(),
        market_price.finite(),
        market_price.exact() >= 0real,
        !p.fadd(Num::of(IV_PRICE_TOL)).flt(market_price),
    ensures
        p.exact() >= market_price.exact() - leeway(market_price),
{
    let (tol, m, x) = (Num::of(IV_PRICE_TOL), market_price.exact(), p.exact());
    let (e, t) = (exact::eps(), tol.exact());
    lemma_tolerance();
    exact::lemma_not_negative(e, m);
    if x + t <= m {
        assert(p.units() + tol.units() <= market_price.units()) by {
            reveal(Num::exact);
            exact::lemma_units_positive();
            let (a, b, c, u) = (
                p.units() as real,
                tol.units() as real,
                market_price.units() as real,
                exact::one_units(),
            );
            assert(a + b <= c) by (nonlinear_arith)
                requires
                    a / u + b / u <= c / u,
                    u >= 1real,
            ;
        }
        let v = p.fadd(tol);
        algebra::lemma_sum_below(p, tol, market_price);
        algebra::lemma_add_is_number(p, tol);
        assert(v.feq(market_price));
        exact::lemma_exact_order(v, market_price);
        exact::lemma_exact_order(market_price, v);
        exact::lemma_exact_add(p, tol);
        let d = x + t;
        assert(m - e * m <= d) by (nonlinear_arith)
            requires
                exact::rabs(m - d) <= e * exact::rabs(d),
                d <= m,
                m >= 0real,
                e == 1real / (0x20_0000_0000_0000int as real),
        ;
    }
}

/// A price within the tolerance of the market's.
proof fn lemma_close(p: Num, market_price: Num)
    requires
        p.finite(),
        market_price.finite(),
        p.fsub(market_price).fabs().flt(Num::of(IV_PRICE_TOL)),
    ensures
        exact::rabs(p.exact() - market_price.exact()) <= 2real * Num::of(IV_PRICE_TOL).exact(),
{
    let (tol, d) = (Num::of(IV_PRICE_TOL), p.fsub(market_price));
    let (e, t, x) = (exact::eps(), tol.exact(), p.exact() - market_price.exact());
    lemma_tolerance();
    assert(d.finite());
    exact::lemma_exact_neg(d);
    exact::lemma_exact_neg(market_price);
    exact::lemma_exact_add(p, market_price.fneg());
    exact::lemma_exact_order(d.fabs(), tol);
    exact::lemma_exact_zero(Num::of(ZERO));
    let v = d.exact();
    assert(exact::rabs(v) <= t) by {
        if d.negative() {
            assert(d.fabs() == d.fneg());
            exact::lemma_exact_order(d, Num::of(ZERO));
        } else {
            assert(d.fabs() == d);
            exact::lemma_exact_order(Num::of(ZERO), d);
        }
    }
    let a = exact::rabs(x);
    assert(a <= 2real * t) by (nonlinear_arith)
        requires
            a - e * a <= t,
            a >= 0real,
            t > 0real,
            e == 1real / (0x20_0000_0000_0000int as real),
    ;
}

/// The middle of a narrow interval that holds the market price gives it back.
proof fn lemma_last_middle(
    market_price: Num,
    base: BsInputs,
    right: OptionRight,
    machine: spec_fn(Num) -> BsTerms,
    steep: real,
    noise: real,
    lo: Num,
    hi: Num,
)
    requires
        steady(base, right, machine, steep, noise),
        held(market_price, base, right, machine, lo, hi, IV_BISECT_MAX_ITER as nat),
    ensures
        bracketed(IvSearch::middle(lo, hi)),
        exact::rabs(
            priced(base, right, machine, IvSearch::middle(lo, hi)).exact() - market_price.exact(),
        ) <= miss(market_price, steep, noise),
{
    let mid = IvSearch::middle(lo, hi);
    lemma_middle(lo, hi);
    lemma_width(IV_BISECT_MAX_ITER as nat);
    let (a, b, c) = (
        priced(base, right, machine, lo),
        priced(base, right, machine, mid),
        priced(base, right, machine, hi),
    );
    let (i, j, w) = (mid.exact() - lo.exact(), hi.exact() - mid.exact(), 40real * exact::eps());
    assert(exact::rabs(b.exact() - a.exact()) <= steep * exact::rabs(mid.exact() - lo.exact()) + noise);
    assert(exact::rabs(c.exact() - b.exact()) <= steep * exact::rabs(hi.exact() - mid.exact()) + noise);
    exact::lemma_times(i, w, steep);
    exact::lemma_times(j, w, steep);
}

/// A step keeps the market price between the ends.
proof fn lemma_step(
    s: IvSearch,
    market_price: Num,
    base: BsInputs,
    right: OptionRight,
    machine: spec_fn(Num) -> BsTerms,
    steep: real,
    noise: real,
    t: BsTerms,
)
    requires
        steady(base, right, machine, steep, noise),
        market_price.finite(),
        market_price.exact() >= 0real,
        braced(s, market_price, base, right, machine, steep, noise),
        s.wanted() matches Some(vol) ==> t == machine(vol),
    ensures
        braced(
            s.stepped(market_price, base, right, t),
            market_price,
            base,
            right,
            machine,
            steep,
            noise,
        ),
{
    let (tol, e) = (Num::of(IV_PRICE_TOL), exact::eps());
    lemma_tolerance();
    exact::lemma_not_negative(e, market_price.exact());
    exact::lemma_not_negative(steep, 40real * e);
    if let Some(vol) = s.wanted() {
        let at = BsInputs { vol, ..base };
        if at.in_domain() {
            if let IvSearch::Bisect { lo, hi, left } = s {
                lemma_middle(lo, hi);
            }
            assert(bracketed(vol));
            let p = priced(base, right, machine, vol);
            assert(p.finite());
            assert(p == at.value(right, t));
            if p.fsub(market_price).fabs().flt(tol) {
                lemma_close(p, market_price);
            }
            match s {
                IvSearch::Low => {
                    if !market_price.flt(p.fsub(tol)) {
                        lemma_low_end(p, market_price);
                    }
                },
                IvSearch::High => {
                    if !p.fadd(tol).flt(market_price) {
                        lemma_high_end(p, market_price);
                    }
                },
                IvSearch::Newton { vol, left } => {
                    lemma_bracket(Num::of(IV_LO));
                    lemma_bracket(Num::of(IV_HI));
                    assert(width(0) == 8real);
                },
                IvSearch::Bisect { lo, hi, left } => {
                    exact::lemma_exact_order(p, market_price);
                    let k = (IV_BISECT_MAX_ITER - left) as nat;
                    assert(width(k + 1) == width(k) / 2real + 18real * e);
                    let (lo, hi) = if p.flt(market_price) {
                        (vol, hi)
                    } else {
                        (lo, vol)
                    };
                    assert(held(market_price, base, right, machine, lo, hi, k + 1));
                    if left == 1 {
                        lemma_last_middle(
                            market_price,
                            base,
                            right,
                            machine,
                            steep,
                            noise,
                            lo,
                            hi,
                        );
                    }
                },
                _ => {},
            }
        }
    }
}

/// A search that follows a machine with steady prices holds the market price
/// between its ends.
proof fn lemma_traced(
    market_price: Num,
    base: BsInputs,
    right: OptionRight,
    trace: Seq<BsTerms>,
    machine: spec_fn(Num) -> BsTerms,
    steep: real,
    noise: real,
    n: nat,
)
    requires
        n <= trace.len(),
        market_price.finite(),
        market_price.exact() >= 0real,
        steady(base, right, machine, steep, noise),
        faithful(market_price, base, right, trace, machine),
    ensures
        braced(
            IvSearch::Low.traced(market_price, base, right, trace, n),
            market_price,
            base,
            right,
            machine,
            steep,
            noise,
        ),
    decreases n,
{
    if n > 0 {
        let k = (n - 1) as nat;
        lemma_traced(market_price, base, right, trace, machine, steep, noise, k);
        let s = IvSearch::Low.traced(market_price, base, right, trace, k);
        assert(s.wanted() matches Some(vol) ==> trace[n - 1] == machine(vol));
        lemma_step(s, market_price, base, right, machine, steep, noise, trace[n - 1]);
    }
}

/// What a search finds lies in the bracket and gives the market price back:
/// also the middle that is left after the last bisection, where the machine's
/// prices are steady in the volatility.
///
/// The price may be off by the tolerance of the search, by roundings, and by
/// what the prices rise over the last interval.
pub proof fn law_implied_vol_gives_the_price_back(
    market_price: Num,
    base: BsInputs,
    right: OptionRight,
    trace: Seq<BsTerms>,
    machine: spec_fn(Num) -> BsTerms,
    steep: real,
    noise: real,
)
    requires
        steady(base, right, machine, steep, noise),
        faithful(market_price, base, right, trace, machine),
    ensures
        black_scholes::traced_vol(market_price, base, right, trace) matches Some(vol) ==> {
            &&& bracketed(vol)
            &&& exact::rabs(
                priced(base, right, machine, vol).exact() - market_price.exact(),
            ) <= miss(market_price, steep, noise)
        },
{
    if black_scholes::searchable(market_price, base) {
        exact::lemma_exact_zero(Num::of(ZERO));
        exact::lemma_exact_order(market_price, Num::of(ZERO));
        lemma_traced(market_price, base, right, trace, machine, steep, noise, trace.len());
    }
}

} // verus!
