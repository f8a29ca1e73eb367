//! Breakevens are where the payoff vanishes: the profit at each is zero up to
//! rounding, and every change of its sign has one.

use crate::algebra;
use crate::black_scholes;
use crate::consts::{ONE, ZERO};
use crate::exact;
use crate::market::OptionRight;
use crate::multileg::{self, Leg, Strategy};
use crate::num::Num;
use crate::payoff;
use crate::risk;
use crate::sorting;
use vstd::prelude::*;

verus! {

/// Whether a spot is the crossing that belongs to kink `i`: the kink itself
/// where it has no profit, else the one on the way to it.
pub open spec fn is_crossing(kinks: Seq<Num>, pnls: Seq<Num>, i: int, c: Num) -> bool {
    &&& 0 <= i < kinks.len()
    &&& {
        ||| pnls[i].feq(Num::of(ZERO)) && c == kinks[i]
        ||| i >= 1 && pnls[i - 1].opposes(pnls[i]) && c == multileg::crossing(
            kinks[i - 1],
            pnls[i - 1],
            kinks[i],
            pnls[i],
        )
    }
}

/// Whether a spot is a breakeven, or one that counts as the same.
pub open spec fn has_breakeven(s: Strategy, c: Num) -> bool {
    exists|j: int|
        0 <= j < multileg::breakevens_of(s).len() && (#[trigger] multileg::breakevens_of(s)[j] == c
            || multileg::same_crossing(c, multileg::breakevens_of(s)[j]))
}

/// Change of the profit per point beyond the last kink.
pub open spec fn tail_slope(s: Strategy) -> Num {
    multileg::count_num(multileg::net_qty(s.legs@, OptionRight::Call)).fmul(s.multiplier)
}

/// All crossings of a strategy, before sorting and merging.
pub open spec fn raw_crossings(s: Strategy) -> Seq<Num> {
    let (kinks, pnls) = (multileg::kinks_of(s.legs@), multileg::kink_pnls(s));
    multileg::crossings(kinks, pnls, kinks.len()) + multileg::tail_crossing(
        kinks.last(),
        pnls.last(),
        tail_slope(s),
    )
}

/// Every crossing that is found belongs to a kink.
proof fn lemma_crossing_of(kinks: Seq<Num>, pnls: Seq<Num>, n: nat, j: int) -> (i: int)
    requires
        n <= kinks.len(),
        0 <= j < multileg::crossings(kinks, pnls, n).len(),
    ensures
        0 <= i < n,
        is_crossing(kinks, pnls, i, multileg::crossings(kinks, pnls, n)[j]),
    decreases n,
{
    let rest = multileg::crossings(kinks, pnls, (n - 1) as nat);
    if j < rest.len() {
        lemma_crossing_of(kinks, pnls, (n - 1) as nat, j)
    } else {
        n - 1
    }
}

/// Every crossing is found.
proof fn lemma_crossing_found(kinks: Seq<Num>, pnls: Seq<Num>, n: nat, i: int, c: Num)
    requires
        n <= kinks.len(),
        i < n,
        is_crossing(kinks, pnls, i, c),
    ensures
        multileg::crossings(kinks, pnls, n).contains(c),
    decreases n,
{
    let all = multileg::crossings(kinks, pnls, n);
    if i < n - 1 {
        let rest = multileg::crossings(kinks, pnls, (n - 1) as nat);
        lemma_crossing_found(kinks, pnls, (n - 1) as nat, i, c);
        let k = choose|k: int| 0 <= k < rest.len() && rest[k] == c;
        assert(all[k] == c);
    } else {
        assert(all[all.len() - 1] == c);
    }
}

/// Merging invents nothing, and leaves one for each that it drops.
proof fn lemma_merged(s: Seq<Num>)
    ensures
        forall|j: int| 0 <= j < multileg::merged(s).len() ==> s.contains(#[trigger] multileg::merged(s)[j]),
        forall|i: int| 0 <= i < s.len() ==> kept_in(multileg::merged(s), #[trigger] s[i]),
    decreases s.len(),
{
    if s.len() > 0 {
        let (r, x) = (s.drop_last(), s.last());
        let (c, d) = (multileg::merged(r), multileg::merged(s));
        lemma_merged(r);
        assert(s[s.len() - 1] == x);
        assert(forall|i: int| 0 <= i < r.len() ==> r[i] == s[i]);
        assert forall|j: int| 0 <= j < d.len() implies s.contains(#[trigger] d[j]) by {
            if j < c.len() {
                assert(r.contains(c[j]));
                let k = choose|k: int| 0 <= k < r.len() && r[k] == c[j];
                assert(s[k] == d[j]);
            }
        }
        assert forall|i: int| 0 <= i < s.len() implies kept_in(d, #[trigger] s[i]) by {
            if i < r.len() {
                assert(kept_in(c, r[i]));
                let j = choose|j: int|
                    0 <= j < c.len() && (#[trigger] c[j] == r[i] || multileg::same_crossing(r[i], c[j]));
                assert(d[j] == c[j]);
            } else {
                assert(d[d.len() - 1] == d.last());
            }
        }
    }
}

/// Whether a spot is among some crossings, or one that counts as the same.
spec fn kept_in(d: Seq<Num>, c: Num) -> bool {
    exists|j: int|
        0 <= j < d.len() && (#[trigger] d[j] == c || multileg::same_crossing(c, d[j]))
}

/// Breakevens are crossings, and each crossing has its breakeven.
proof fn lemma_breakevens(s: Strategy)
    ensures
        forall|j: int|
            0 <= j < multileg::breakevens_of(s).len() ==> raw_crossings(s).contains(
                #[trigger] multileg::breakevens_of(s)[j],
            ),
        forall|c: Num| #[trigger] raw_crossings(s).contains(c) ==> has_breakeven(s, c),
{
    let (raw, b) = (raw_crossings(s), multileg::breakevens_of(s));
    let t = sorting::sorted(raw);
    assert(b == multileg::merged(t));
    sorting::law_sorted_sorts(raw);
    t.to_multiset_ensures();
    raw.to_multiset_ensures();
    lemma_merged(t);
    assert forall|j: int| 0 <= j < b.len() implies raw.contains(#[trigger] b[j]) by {
        assert(t.contains(b[j]));
        assert(t.to_multiset().count(b[j]) > 0);
    }
    assert forall|c: Num| #[trigger] raw.contains(c) implies has_breakeven(s, c) by {
        assert(raw.to_multiset().count(c) > 0);
        assert(t.contains(c));
        let i = choose|i: int| 0 <= i < t.len() && t[i] == c;
        assert(kept_in(b, t[i]));
    }
}

/// Every kink without profit, every change of sign between two kinks and one
/// beyond the last kink have a breakeven.
pub proof fn law_every_sign_change_has_a_breakeven(s: Strategy, i: int)
    requires
        0 <= i < multileg::kinks_of(s.legs@).len(),
    ensures
        ({
            let (k, p) = (multileg::kinks_of(s.legs@), multileg::kink_pnls(s));
            &&& p[i].feq(Num::of(ZERO)) ==> has_breakeven(s, k[i])
            &&& i >= 1 && p[i - 1].opposes(p[i]) ==> has_breakeven(
                s,
                multileg::crossing(k[i - 1], p[i - 1], k[i], p[i]),
            )
            &&& p.last().opposes(tail_slope(s)) ==> has_breakeven(
                s,
                k.last().fsub(p.last().fdiv(tail_slope(s))),
            )
        }),
{
    let (k, p) = (multileg::kinks_of(s.legs@), multileg::kink_pnls(s));
    let raw = raw_crossings(s);
    let inner = multileg::crossings(k, p, k.len());
    lemma_breakevens(s);
    assert(forall|j: int| 0 <= j < inner.len() ==> inner[j] == raw[j]);
    if p[i].feq(Num::of(ZERO)) {
        lemma_crossing_found(k, p, k.len(), i, k[i]);
        let j = choose|j: int| 0 <= j < inner.len() && inner[j] == k[i];
        assert(raw[j] == k[i]);
        assert(raw.contains(k[i]));
    }
    if i >= 1 && p[i - 1].opposes(p[i]) {
        let c = multileg::crossing(k[i - 1], p[i - 1], k[i], p[i]);
        lemma_crossing_found(k, p, k.len(), i, c);
        let j = choose|j: int| 0 <= j < inner.len() && inner[j] == c;
        assert(raw[j] == c);
        assert(raw.contains(c));
    }
    if p.last().opposes(tail_slope(s)) {
        let c = k.last().fsub(p.last().fdiv(tail_slope(s)));
        assert(raw[raw.len() - 1] == c);
        assert(raw.contains(c));
    }
}

/// A payoff changes by no more than its contracts per point.
proof fn lemma_steepness(legs: Seq<Leg>, x: real, y: real)
    ensures
        exact::rabs(payoff::exact_payoff(legs, x) - payoff::exact_payoff(legs, y)) <= payoff::gross(
            legs,
        ) * exact::rabs(x - y),
        payoff::gross(legs) >= 0real,
    decreases legs.len(),
{
    let d = exact::rabs(x - y);
    if legs.len() == 0 {
        assert(0real * d == 0real) by (nonlinear_arith);
    } else {
        let (rest, l) = (legs.drop_last(), legs.last());
        lemma_steepness(rest, x, y);
        let (q, p) = (payoff::contracts(l), l.premium.exact());
        let (a, b) = (payoff::leg_value(l, x), payoff::leg_value(l, y));
        assert(exact::rabs(a - b) <= d);
        payoff::lemma_dist(a - p, b - p, q);
        payoff::lemma_abs_mul(a - b, q);
        exact::lemma_times(exact::rabs(a - b), d, exact::rabs(q));
        payoff::lemma_dist(payoff::gross(rest), exact::rabs(q), d);
        assert(d * exact::rabs(q) == exact::rabs(q) * d) by (nonlinear_arith);
    }
}

/// Net contracts are no more than all.
proof fn lemma_net_below_gross(legs: Seq<Leg>)
    ensures
        exact::rabs(multileg::net_qty(legs, OptionRight::Call) as real) <= payoff::gross(legs),
    decreases legs.len(),
{
    if legs.len() > 0 {
        lemma_net_below_gross(legs.drop_last());
    }
}

/// Numbers on opposite sides of zero have exact values there.
proof fn lemma_opposes(a: Num, b: Num)
    requires
        a.finite(),
        b.finite(),
        a.opposes(b),
    ensures
        a.exact() < 0real < b.exact() || b.exact() < 0real < a.exact(),
{
    let zero = Num::of(ZERO);
    exact::lemma_exact_zero(zero);
    exact::lemma_exact_order(a, zero);
    exact::lemma_exact_order(zero, a);
    exact::lemma_exact_order(b, zero);
    exact::lemma_exact_order(zero, b);
}

/// The exact value of an absolute value.
proof fn lemma_exact_abs(a: Num)
    requires
        a.finite(),
    ensures
        a.fabs().finite(),
        a.fabs().exact() == exact::rabs(a.exact()),
{
    let zero = Num::of(ZERO);
    exact::lemma_exact_zero(zero);
    exact::lemma_exact_order(zero, a);
    exact::lemma_exact_order(a, zero);
    exact::lemma_exact_neg(a);
    if a.negative() {
        assert(a.fabs() == a.fneg());
    } else {
        assert(a.fabs() == a);
    }
}

/// The share of one of two sizes in both.
proof fn lemma_share(p: Num, q: Num)
    requires
        p.finite(),
        q.finite(),
        p.exact() > 0real,
        q.exact() > 0real,
        p.fadd(q).finite(),
    ensures
        ({
            let w = p.fdiv(p.fadd(q));
            let x = p.exact() / (p.exact() + q.exact());
            &&& w.finite()
            &&& risk::in_unit(w)
            &&& 0real <= w.exact() <= 1real
            &&& 0real < x < 1real
            &&& exact::rabs(w.exact() - x) <= 5real * exact::eps()
        }),
{
    let (zero, one, e) = (Num::of(ZERO), Num::of(ONE), exact::eps());
    let d = p.fadd(q);
    let w = p.fdiv(d);
    let (a, b) = (p.exact(), q.exact());
    let t = a + b;
    exact::lemma_exact_zero(zero);
    exact::lemma_exact_order(zero, p);
    exact::lemma_exact_order(zero, q);
    algebra::lemma_add_not_negative(p, q);
    exact::lemma_near_add(p, q);
    exact::lemma_near_self(a);
    exact::lemma_near_quotient(a, a, d.exact(), t, 0real, 1real);
    algebra::law_div_monotone(p, d, d);
    algebra::law_div_self(d);
    algebra::law_div_antitone(p, d, d);
    exact::lemma_exact_div(p, d);
    lemma_one();
    exact::lemma_exact_order(zero, w);
    exact::lemma_exact_order(w, one);
    let (x, y) = (a / t, a / d.exact());
    assert(0real < x < 1real) by (nonlinear_arith)
        requires
            x == a / t,
            t == a + b,
            a > 0real,
            b > 0real,
    ;
    assert(exact::rabs(y - x) <= 3real * e) by {
        let f = 3real * e;
        assert(x * (1real - f) == x - x * f && x * (1real + f) == x + x * f) by (nonlinear_arith);
        exact::lemma_times(x, 1real, f);
    }
    exact::lemma_not_negative(x, 1real - 3real * e);
    exact::lemma_times(y, 2real, e);
    exact::lemma_times(y, 1real + 3real * e, e);
    assert((1real + 3real * e) * e == e + 3real * (e * e)) by (nonlinear_arith);
    lemma_tiny();
}

proof fn lemma_one()
    ensures
        Num::of(ONE).finite(),
        Num::of(ONE).exact() == 1real,
{
    algebra::lemma_one_size();
    vstd::arithmetic::power2::lemma2_to64();
    exact::lemma_exact_power(Num::of(ONE), 0);
}

/// Half a unit is far below the error of a rounding of one.
proof fn lemma_tiny()
    ensures
        0real < exact::tiny(),
        2real * exact::tiny() + 3real * (exact::eps() * exact::eps()) <= exact::eps(),
{
    let e = exact::eps();
    exact::lemma_units_positive();
    exact::lemma_small();
    let b = 0x1_0000_0000_0000_0000int as real;
    let s = exact::small();
    exact::lemma_factor(b, b);
    exact::lemma_over(1real, b * b * b);
    assert(s <= 1real / 1000real) by (nonlinear_arith)
        requires
            s * (b * b * b) == 1real,
            b == 0x1_0000_0000_0000_0000int as real,
            s > 0real,
    {
        assert(b * b * b >= 1000real);
    }
    exact::lemma_times(s, 1real / 1000real, e);
    exact::lemma_times(e, 1real / 1000real, e);
}

/// A crossing lies between its two kinks, up to rounding, where the payoff
/// that is straight between them vanishes.
proof fn lemma_crossing_place(k0: Num, p0: Num, k1: Num, p1: Num, w: real)
    requires
        k0.finite(),
        k1.finite(),
        0real <= k0.exact() <= k1.exact() <= w,
        p0.finite(),
        p1.finite(),
        p0.opposes(p1),
        p0.fabs().fadd(p1.fabs()).finite(),
    ensures
        ({
            let c = multileg::crossing(k0, p0, k1, p1);
            let x = exact::rabs(p0.exact()) / (exact::rabs(p0.exact()) + exact::rabs(p1.exact()));
            let at = k0.exact() + (k1.exact() - k0.exact()) * x;
            &&& 0real < x < 1real
            &&& c.finite() ==> {
                &&& k0.exact() <= c.exact()
                &&& exact::rabs(c.exact() - at) <= 10real * (exact::eps() * w) + exact::tiny()
            }
        }),
{
    let (a, b, e) = (k0.exact(), k1.exact(), exact::eps());
    let (p, q) = (p0.fabs(), p1.fabs());
    lemma_opposes(p0, p1);
    lemma_exact_abs(p0);
    lemma_exact_abs(p1);
    lemma_share(p, q);
    let share = p.fdiv(p.fadd(q));
    let (x, y) = (p.exact() / (p.exact() + q.exact()), share.exact());
    let c = multileg::crossing(k0, p0, k1, p1);
    let zero = Num::of(ZERO);
    exact::lemma_exact_zero(zero);
    // The way from one kink to the other.
    black_scholes::lemma_difference(k1, k0, k1, k0);
    let rise = k1.fsub(k0);
    exact::lemma_exact_neg(k0);
    exact::lemma_exact_add(k1, k0.fneg());
    exact::lemma_times(b - a, w, e);
    exact::lemma_exact_order(zero, rise);
    let r = rise.exact();
    assert(r >= 0real) by {
        exact::lemma_times(e, 1real, b - a);
    }
    // The part of it.
    assert(!rise.negative() || rise.mag() == 0);
    let step = rise.fmul(share);
    lemma_part(rise, share);
    let z = step.exact();
    exact::lemma_exact_mul(rise, share);
    exact::lemma_times(y, 1real, r);
    exact::lemma_not_negative(r, y);
    exact::lemma_times(r * y, r, e);
    let ry = r * y;
    let dx = (b - a) * x;
    assert(exact::rabs(ry - dx) <= 6real * (e * w)) by {
        payoff::lemma_dist(r, b - a, y);
        payoff::lemma_dist(y, x, b - a);
        payoff::lemma_abs_mul(r - (b - a), y);
        payoff::lemma_abs_mul(b - a, y - x);
        exact::lemma_times(y, 1real, exact::rabs(r - (b - a)));
        exact::lemma_times(exact::rabs(y - x), 5real * e, b - a);
        exact::lemma_times(b - a, w, 5real * e);
        assert((5real * e) * w == 5real * (e * w)) by (nonlinear_arith);
        assert((b - a) * (y - x) == (y - x) * (b - a)) by (nonlinear_arith);
        assert((b - a) * y == y * (b - a) && (b - a) * x == x * (b - a)) by (nonlinear_arith);
    }
    if c.finite() {
        exact::lemma_exact_add(k0, step);
        lemma_sum_above(k0, step);
        exact::lemma_times(r, 2real * w, e);
        exact::lemma_times(a + z, 2real * w, e);
        assert(e * (2real * w) == 2real * (e * w)) by (nonlinear_arith);
    }
}

/// A part of what is not negative is no more than it.
proof fn lemma_part(s: Num, n: Num)
    requires
        s.finite(),
        s.exact() >= 0real,
        risk::in_unit(n),
    ensures
        s.fmul(n).finite(),
        0real <= s.fmul(n).exact() <= s.exact(),
{
    let (zero, v) = (Num::of(ZERO), s.fmul(n));
    exact::lemma_exact_zero(zero);
    exact::lemma_exact_order(zero, s);
    if s.negative() {
        algebra::law_zero_mul(s, n);
        exact::lemma_exact_zero(s);
        exact::lemma_exact_zero(v);
    } else {
        algebra::lemma_weighted(s, n);
        exact::lemma_exact_order(zero, v);
        exact::lemma_exact_order(v, s);
    }
}

/// A sum with what is not negative is no less.
proof fn lemma_sum_above(a: Num, b: Num)
    requires
        a.finite(),
        b.finite(),
        b.exact() >= 0real,
        a.fadd(b).finite(),
    ensures
        a.exact() <= a.fadd(b).exact(),
{
    let zero = Num::of(ZERO);
    exact::lemma_exact_zero(zero);
    exact::lemma_exact_order(zero, b);
    algebra::lemma_add_is_number(zero, a);
    algebra::lemma_add_is_number(b, a);
    algebra::law_add_monotone(zero, b, a);
    algebra::law_add_commutes(zero, a);
    algebra::law_add_commutes(b, a);
    algebra::lemma_add_any_zero(a, zero);
    exact::lemma_exact_order(a, a.fadd(b));
}

/// How far from zero the profit at a breakeven may be, of `n` legs of `g`
/// contracts in all with the multiplier `m`, at prices up to `w`.
pub open spec fn blur(n: real, w: real, g: real, m: real) -> real {
    let x = (w * g) * m;
    3real * payoff::slack(n, x, m) + 10real * (exact::eps() * x) + 2real * (exact::tiny() * (g * m
        + w + 1real))
}

/// Whether the profits of neighbouring kinks can be weighed against each other
/// and the slope beyond the last kink is known: no sum of two is infinite.
pub open spec fn weighable(s: Strategy) -> bool {
    let p = multileg::kink_pnls(s);
    &&& forall|i: int| 0 <= i < p.len() ==> (#[trigger] p[i]).finite()
    &&& forall|i: int|
        1 <= i < p.len() ==> p[i - 1].fabs().fadd((#[trigger] p[i]).fabs()).finite()
    &&& tail_slope(s).finite()
}

/// Whether a strategy is sound, its prices and a spot are bounded by `w`, and
/// the profit there is finite.
pub open spec fn sound_within(s: Strategy, b: Num, w: real) -> bool {
    &&& s.problem() is None
    &&& s.legs@.len() <= 0x1_0000_0000_0000
    &&& forall|i: int| 0 <= i < s.legs@.len() ==> payoff::priced_within(#[trigger] s.legs@[i], w)
    &&& b.finite()
    &&& b.exact() <= w
    &&& s.pnl(b).finite()
}

/// The rounded profit at a spot where the exact one is small.
proof fn lemma_profit_at(s: Strategy, b: Num, w: real, f: real)
    requires
        sound_within(s, b, w),
        b.exact() >= 0real,
        exact::rabs(payoff::exact_payoff(s.legs@, b.exact()) * s.multiplier.exact()) <= f,
    ensures
        exact::rabs(s.pnl(b).exact()) <= f + payoff::slack(
            s.legs@.len() as int as real,
            (w * payoff::gross(s.legs@)) * s.multiplier.exact(),
            s.multiplier.exact(),
        ),
{
    let (legs, mult) = (s.legs@, s.multiplier);
    payoff::lemma_sound_legs(legs);
    assert(payoff::profits(legs, b, mult) =~= legs.map_values(
        |l: Leg| l.pnl_at(b, s.multiplier),
    ));
    payoff::lemma_payoff_error(legs, b, mult, w);
}

/// Two kinks without a strike between them.
proof fn lemma_clear(legs: Seq<Leg>, i: int)
    requires
        payoff::sound_legs(legs),
        1 <= i < multileg::kinks_of(legs).len(),
    ensures
        payoff::clear(
            legs,
            multileg::kinks_of(legs)[i - 1].exact(),
            multileg::kinks_of(legs)[i].exact(),
        ),
{
    let k = multileg::kinks_of(legs);
    payoff::lemma_kinks(legs);
    let (a, b) = (k[i - 1].exact(), k[i].exact());
    assert forall|n: int| 0 <= n < legs.len() implies (#[trigger] legs[n]).strike.exact() <= a || b
        <= legs[n].strike.exact() by {
        assert(payoff::holds(k, legs[n].strike.exact()));
        let j = choose|j: int|
            0 <= j < k.len() && (#[trigger] k[j]).exact() == legs[n].strike.exact();
        if j <= i - 1 {
            assert(k[j].exact() <= k[i - 1].exact());
        } else {
            assert(k[i].exact() <= k[j].exact());
        }
    }
}

/// A straight line vanishes where its ends weigh each other out; with ends that
/// are off by `e` it is off by as much.
proof fn lemma_weighed(f0: real, f1: real, p0: real, p1: real, x: real, e: real)
    requires
        p0 < 0real < p1 || p1 < 0real < p0,
        x == exact::rabs(p0) / (exact::rabs(p0) + exact::rabs(p1)),
        0real < x < 1real,
        exact::rabs(f0 - p0) <= e,
        exact::rabs(f1 - p1) <= e,
    ensures
        exact::rabs(f0 * (1real - x) + f1 * x) <= e,
{
    let (a, b) = (exact::rabs(p0), exact::rabs(p1));
    let y = 1real - x;
    exact::lemma_over(a, a + b);
    payoff::lemma_dist(a, b, x);
    payoff::lemma_dist(1real, x, a);
    lemma_swap(a, x);
    lemma_swap(b, x);
    assert(a * y == b * x);
    assert(p0 * y + p1 * x == 0real) by {
        lemma_minus(a, y);
        lemma_minus(b, x);
    }
    payoff::lemma_dist(f0, p0, y);
    payoff::lemma_dist(f1, p1, x);
    payoff::lemma_abs_mul(f0 - p0, y);
    payoff::lemma_abs_mul(f1 - p1, x);
    exact::lemma_times(exact::rabs(f0 - p0), e, y);
    exact::lemma_times(exact::rabs(f1 - p1), e, x);
    payoff::lemma_dist(1real, x, e);
}

proof fn lemma_swap(x: real, y: real)
    by (nonlinear_arith)
    ensures
        x * y == y * x,
{
}

proof fn lemma_minus(x: real, y: real)
    by (nonlinear_arith)
    ensures
        (-x) * y == -(x * y),
{
}

proof fn lemma_inner(x: real, d: real, y: real)
    by (nonlinear_arith)
    ensures
        x * (d * y) == (x * y) * d,
{
}

proof fn lemma_cancel(x: real, y: real, d: real)
    requires
        x * d == y * d,
        d > 0real,
    ensures
        x == y,
{
    exact::lemma_quotient_is(x, x * d, d);
    exact::lemma_quotient_is(y, x * d, d);
}

proof fn lemma_spread(g: real, e: real, w: real, t: real, m: real)
    ensures
        (g * (10real * (e * w) + t)) * m == 10real * (e * ((w * g) * m)) + t * (g * m),
{
    let (x, y) = (10real * (e * w), g * m);
    payoff::lemma_dist(x, t, g);
    payoff::lemma_dist(g * x, g * t, m);
    lemma_outer(g, x, m);
    lemma_outer(g, t, m);
    lemma_outer(10real, e * w, y);
    lemma_inner(e, w, y);
    lemma_outer(w, g, m);
    lemma_outer(e, w, y);
    lemma_swap(x, y);
    lemma_swap(t, y);
}

proof fn lemma_outer(x: real, y: real, z: real)
    by (nonlinear_arith)
    ensures
        (x * y) * z == x * (y * z),
        (x * y) * z == y * (x * z),
{
}

/// The exact payoff at a crossing between two kinks.
proof fn lemma_crossing_profit(s: Strategy, i: int, b: Num, w: real)
    requires
        sound_within(s, b, w),
        weighable(s),
        w >= 0real,
        1 <= i < multileg::kinks_of(s.legs@).len(),
        multileg::kink_pnls(s)[i - 1].opposes(multileg::kink_pnls(s)[i]),
        b == multileg::crossing(
            multileg::kinks_of(s.legs@)[i - 1],
            multileg::kink_pnls(s)[i - 1],
            multileg::kinks_of(s.legs@)[i],
            multileg::kink_pnls(s)[i],
        ),
    ensures
        ({
            let (g, m) = (payoff::gross(s.legs@), s.multiplier.exact());
            let x = (w * g) * m;
            &&& b.exact() >= 0real
            &&& exact::rabs(payoff::exact_payoff(s.legs@, b.exact()) * m) <= payoff::slack(
                s.legs@.len() as int as real,
                x,
                m,
            ) + 10real * (exact::eps() * x) + exact::tiny() * (g * m)
        }),
{
    let (legs, m) = (s.legs@, s.multiplier.exact());
    let (k, p) = (multileg::kinks_of(legs), multileg::kink_pnls(s));
    let (k0, k1, p0, p1) = (k[i - 1], k[i], p[i - 1], p[i]);
    let (g, e, t) = (payoff::gross(legs), exact::eps(), exact::tiny());
    let n = legs.len() as int as real;
    let x = (w * g) * m;
    payoff::lemma_sound_legs(legs);
    payoff::lemma_kinks(legs);
    payoff::lemma_kink_within(legs, i - 1, w);
    payoff::lemma_kink_within(legs, i, w);
    payoff::lemma_kink_error(s, i - 1, w);
    payoff::lemma_kink_error(s, i, w);
    lemma_clear(legs, i);
    lemma_opposes(p0, p1);
    lemma_crossing_place(k0, p0, k1, p1, w);
    exact::lemma_exact_zero(Num::of(ZERO));
    exact::lemma_exact_order(Num::of(ZERO), s.multiplier);
    let (a, c) = (k0.exact(), k1.exact());
    let share = exact::rabs(p0.exact()) / (exact::rabs(p0.exact()) + exact::rabs(p1.exact()));
    let at = a + (c - a) * share;
    let (f0, f1, f) = (
        payoff::exact_payoff(legs, a),
        payoff::exact_payoff(legs, c),
        payoff::exact_payoff(legs, at),
    );
    // The payoff between the kinks is straight.
    assert(f == f0 * (1real - share) + f1 * share) by {
        exact::lemma_times(share, 1real, c - a);
        exact::lemma_not_negative(c - a, share);
        payoff::lemma_line(legs, a, c, at);
        let (d, u) = (c - a, 1real - share);
        payoff::lemma_dist(1real, share, d);
        payoff::lemma_dist(1real, share, f0);
        if a == c {
            lemma_swap(d, share);
            lemma_swap(0real, share);
        } else {
            lemma_inner(f0, d, u);
            lemma_inner(f1, d, share);
            payoff::lemma_dist(f0 * u, f1 * share, d);
            lemma_cancel(f, f0 * u + f1 * share, d);
        }
    }
    let off = payoff::slack(n, x, m);
    lemma_weighed(f0 * m, f1 * m, p0.exact(), p1.exact(), share, off);
    assert(f * m == (f0 * m) * (1real - share) + (f1 * m) * share) by {
        payoff::lemma_dist(f0 * (1real - share), f1 * share, m);
        payoff::lemma_assoc(f0, 1real - share, m);
        payoff::lemma_assoc(f1, share, m);
    }
    // The crossing is near the place.
    let fb = payoff::exact_payoff(legs, b.exact());
    lemma_steepness(legs, b.exact(), at);
    let far = exact::rabs(b.exact() - at);
    let near = 10real * (e * w) + t;
    exact::lemma_times(far, near, g);
    exact::lemma_times(exact::rabs(fb - f), g * near, m);
    payoff::lemma_dist(fb, f, m);
    payoff::lemma_abs_mul(fb - f, m);
    lemma_spread(g, e, w, t, m);
}

/// A slack is not negative.
proof fn lemma_slack(n: real, x: real, m: real)
    requires
        n >= 0real,
        x >= 0real,
        m >= 0real,
    ensures
        payoff::slack(n, x, m) >= 0real,
{
    let (e, t) = (exact::eps(), exact::tiny());
    exact::lemma_units_positive();
    exact::lemma_not_negative(e, x);
    exact::lemma_not_negative(2real * n + 9real, e * x);
    exact::lemma_not_negative(t, 2real * m + 1real);
    exact::lemma_not_negative(2real * n, t * (2real * m + 1real));
}

/// A product of bounded numbers.
proof fn lemma_bounded_product(a: real, b: real, x: real, y: real)
    requires
        exact::rabs(a) <= x,
        exact::rabs(b) <= y,
    ensures
        exact::rabs(a * b) <= x * y,
        x * y >= 0real,
{
    payoff::lemma_abs_mul(a, b);
    exact::lemma_times(exact::rabs(a), x, exact::rabs(b));
    exact::lemma_times(exact::rabs(b), y, x);
    exact::lemma_not_negative(exact::rabs(a), exact::rabs(b));
}

/// The slope beyond the last kink is near the net calls times the multiplier.
proof fn lemma_slope(s: Strategy)
    requires
        multileg::positive_finite(s.multiplier),
        tail_slope(s).finite(),
    ensures
        ({
            let (g, m) = (payoff::gross(s.legs@), s.multiplier.exact());
            let c = multileg::net_qty(s.legs@, OptionRight::Call) as real;
            &&& exact::rabs(c * m) <= g * m
            &&& exact::rabs(tail_slope(s).exact() - c * m) <= 3real * (exact::eps() * (g * m))
                + exact::tiny()
            &&& m > 0real
            &&& g * m >= 0real
        }),
{
    let q = multileg::net_qty(s.legs@, OptionRight::Call);
    let (c, v, mult) = (q as real, multileg::count_num(q), s.multiplier);
    let (g, m, e) = (payoff::gross(s.legs@), mult.exact(), exact::eps());
    exact::lemma_exact_zero(Num::of(ZERO));
    exact::lemma_exact_order(Num::of(ZERO), mult);
    assert(v.finite()) by {
        reveal(Num::fmul);
    }
    if q < 0 {
        exact::lemma_near_whole(true, (-q) as nat);
        assert((-q) as real == -c);
    } else {
        exact::lemma_near_whole(false, q as nat);
    }
    lemma_net_below_gross(s.legs@);
    lemma_steepness(s.legs@, 0real, 0real);
    let (a, y) = (exact::rabs(c), g * m);
    exact::lemma_exact_mul(v, mult);
    lemma_bounded_product(c, m, g, m);
    exact::lemma_times(a, g, e);
    lemma_bounded_product(v.exact() - c, m, e * g, m);
    lemma_outer(e, g, m);
    payoff::lemma_dist(v.exact(), c, m);
    let p = v.exact() * m;
    exact::lemma_times(e, 1real, y);
    assert(exact::rabs(p) <= 2real * y);
    exact::lemma_times(exact::rabs(p), 2real * y, e);
    lemma_outer(2real, y, e);
    lemma_swap(y, e);
    lemma_swap(2real * y, e);
}

/// The exact payoff at the crossing beyond the last kink.
proof fn lemma_tail_profit(s: Strategy, b: Num, w: real)
    requires
        sound_within(s, b, w),
        weighable(s),
        w >= 0real,
        multileg::kink_pnls(s).last().opposes(tail_slope(s)),
        b == multileg::kinks_of(s.legs@).last().fsub(
            multileg::kink_pnls(s).last().fdiv(tail_slope(s)),
        ),
    ensures
        ({
            let (g, m) = (payoff::gross(s.legs@), s.multiplier.exact());
            let x = (w * g) * m;
            &&& b.exact() >= 0real
            &&& exact::rabs(payoff::exact_payoff(s.legs@, b.exact()) * m) <= 2real * payoff::slack(
                s.legs@.len() as int as real,
                x,
                m,
            ) + 9real * (exact::eps() * x) + 2real * (exact::tiny() * (g * m + w + 1real))
        }),
{
    let (legs, mult, m) = (s.legs@, s.multiplier, s.multiplier.exact());
    let (k, p) = (multileg::kinks_of(legs), multileg::kink_pnls(s));
    let (last, pl, sl) = (k.last(), p.last(), tail_slope(s));
    let (g, e, t) = (payoff::gross(legs), exact::eps(), exact::tiny());
    let n = legs.len() as int as real;
    let (x, y) = ((w * g) * m, g * m);
    let off = payoff::slack(n, x, m);
    let c = multileg::net_qty(legs, OptionRight::Call) as real;
    payoff::lemma_sound_legs(legs);
    payoff::lemma_kinks(legs);
    assert(k[k.len() - 1] == last && p[p.len() - 1] == pl);
    payoff::lemma_kink_within(legs, k.len() - 1, w);
    assert(pl == s.pnl(last));
    assert(payoff::profits(legs, last, mult) =~= legs.map_values(
        |l: Leg| l.pnl_at(last, s.multiplier),
    ));
    payoff::lemma_payoff_error(legs, last, mult, w);
    lemma_slope(s);
    lemma_slack(n, x, m);
    exact::lemma_units_positive();
    lemma_opposes(pl, sl);
    // The way from the last kink.
    let q = pl.fdiv(sl);
    assert(q.finite()) by {
        reveal(Num::fadd);
    }
    exact::lemma_exact_zero(Num::of(ZERO));
    exact::lemma_exact_order(q, Num::of(ZERO));
    assert(q.negative()) by {
        reveal(Num::fdiv);
    }
    exact::lemma_exact_neg(q);
    exact::lemma_exact_div(pl, sl);
    let u = -q.exact();
    assert(u >= 0real);
    exact::lemma_exact_add(last, q.fneg());
    lemma_sum_above(last, q.fneg());
    let (a, z) = (last.exact(), b.exact());
    assert(a + u <= 2real * w) by {
        exact::lemma_times(e, 1real / 2real, a + u);
    }
    exact::lemma_times(a + u, 2real * w, e);
    lemma_outer(2real, w, e);
    lemma_swap(w, e);
    lemma_swap(2real * w, e);
    let d = z - (a + u);
    assert(exact::rabs(d) <= 2real * (e * w));
    // The quotient of profit and slope.
    let (sr, pr) = (sl.exact(), pl.exact());
    let rho = pr / sr;
    lemma_over_any(pr, sr);
    let miss = q.exact() - rho;
    exact::lemma_times(e, 1real / 100real, y);
    lemma_quotient_miss(sr, rho, miss, x, off, y);
    // The payoff there.
    assert forall|i: int| 0 <= i < legs.len() implies (#[trigger] legs[i]).strike.exact() <= a by {
        assert(payoff::holds(k, legs[i].strike.exact()));
        let j = choose|j: int|
            0 <= j < k.len() && (#[trigger] k[j]).exact() == legs[i].strike.exact();
        assert(k[j].exact() <= k[k.len() - 1].exact());
    }
    payoff::lemma_tail(legs, a, z);
    let (f, fl, cm) = (
        payoff::exact_payoff(legs, z),
        payoff::exact_payoff(legs, a),
        c * m,
    );
    payoff::lemma_dist(fl, c * (z - a), m);
    payoff::lemma_assoc(c, z - a, m);
    lemma_scaled(w, g, m);
    lemma_tail_sum(f * m, fl * m, pr, sr, rho, q.exact(), cm, d, x, off, y, w);
}

/// What an error of a quotient makes of it times the divisor.
proof fn lemma_quotient_miss(sr: real, rho: real, miss: real, x: real, off: real, y: real)
    requires
        exact::rabs(miss) <= exact::eps() * exact::rabs(rho) + exact::tiny(),
        exact::rabs(rho * sr) <= x + off,
        exact::rabs(sr) <= 2real * y + 1real,
        off >= 0real,
    ensures
        exact::rabs(sr * miss) <= exact::eps() * x + off + exact::tiny() * (2real * y + 1real),
{
    let (e, t) = (exact::eps(), exact::tiny());
    let (v, r) = (exact::rabs(sr), exact::rabs(rho));
    exact::lemma_units_positive();
    lemma_bounded_product(sr, miss, v, e * r + t);
    payoff::lemma_abs_mul(rho, sr);
    payoff::lemma_dist(e * r, t, v);
    lemma_inner(v, e, r);
    lemma_swap(v * r, e);
    lemma_swap(v, r);
    exact::lemma_times(r * v, x + off, e);
    payoff::lemma_dist(x, off, e);
    exact::lemma_times(e, 1real, off);
    exact::lemma_times(v, 2real * y + 1real, t);
}

/// The profit beyond the last kink, from what each part of it is off.
proof fn lemma_tail_sum(
    fm: real,
    lm: real,
    pr: real,
    sr: real,
    rho: real,
    q: real,
    cm: real,
    d: real,
    x: real,
    off: real,
    y: real,
    w: real,
)
    requires
        fm == lm + cm * (d - q),
        rho * sr == pr,
        x == w * y,
        exact::rabs(lm - pr) <= off,
        exact::rabs(sr * (q - rho)) <= exact::eps() * x + off + exact::tiny() * (2real * y + 1real),
        exact::rabs(cm - sr) <= 3real * (exact::eps() * y) + exact::tiny(),
        exact::rabs(cm) <= y,
        exact::rabs(q) <= 2real * w,
        exact::rabs(d) <= 2real * (exact::eps() * w),
    ensures
        exact::rabs(fm) <= 2real * off + 9real * (exact::eps() * x) + 2real * (exact::tiny() * (y + w
            + 1real)),
{
    let (e, t) = (exact::eps(), exact::tiny());
    let (r1, r2) = ((cm - sr) * q, cm * d);
    exact::lemma_units_positive();
    payoff::lemma_dist(d, q, cm);
    payoff::lemma_dist(cm, sr, q);
    payoff::lemma_dist(q, rho, sr);
    lemma_swap(rho, sr);
    assert(fm == (lm - pr) - sr * (q - rho) - r1 + r2);
    lemma_bounded_product(cm - sr, q, 3real * (e * y) + t, 2real * w);
    payoff::lemma_dist(3real * (e * y), t, 2real * w);
    lemma_bounded_product(cm, d, y, 2real * (e * w));
    lemma_six(e, y, w, t);
    lemma_tails(t, y, w);
}

/// A number over one that is not zero, and times it.
proof fn lemma_over_any(x: real, d: real)
    by (nonlinear_arith)
    requires
        d != 0real,
    ensures
        (x / d) * d == x,
{
}

proof fn lemma_six(e: real, y: real, w: real, t: real)
    ensures
        (3real * (e * y)) * (2real * w) == 6real * (e * (w * y)),
        t * (2real * w) == 2real * (t * w),
        y * (2real * (e * w)) == 2real * (e * (w * y)),
{
    assert((3real * (e * y)) * (2real * w) == 6real * ((e * y) * w)) by (nonlinear_arith);
    assert((e * y) * w == e * (w * y)) by (nonlinear_arith);
    assert(t * (2real * w) == 2real * (t * w)) by (nonlinear_arith);
    assert(y * (2real * (e * w)) == 2real * (y * (e * w))) by (nonlinear_arith);
    assert(y * (e * w) == e * (w * y)) by (nonlinear_arith);
}

proof fn lemma_scaled(w: real, g: real, m: real)
    by (nonlinear_arith)
    ensures
        w * (g * m) == (w * g) * m,
{
}

proof fn lemma_tails(t: real, y: real, w: real)
    by (nonlinear_arith)
    ensures
        t * (y + w + 1real) * 2real == t * (2real * y + 1real) + 2real * (t * w) + t,
{
}

/// The profit at a breakeven is zero, up to the rounding of profits and of the
/// breakeven itself.
///
/// `w` bounds the breakeven, the strikes and the premiums.
pub proof fn law_profit_vanishes_at_breakevens(s: Strategy, j: int, w: real)
    requires
        0 <= j < multileg::breakevens_of(s).len(),
        weighable(s),
        sound_within(s, multileg::breakevens_of(s)[j], w),
    ensures
        exact::rabs(s.pnl(multileg::breakevens_of(s)[j]).exact()) <= blur(
            s.legs@.len() as int as real,
            w,
            payoff::gross(s.legs@),
            s.multiplier.exact(),
        ),
{
    let (legs, b) = (s.legs@, multileg::breakevens_of(s)[j]);
    let (k, p) = (multileg::kinks_of(legs), multileg::kink_pnls(s));
    let (g, m, n) = (payoff::gross(legs), s.multiplier.exact(), legs.len() as int as real);
    let x = (w * g) * m;
    let (raw, inner) = (raw_crossings(s), multileg::crossings(k, p, k.len()));
    let zero = Num::of(ZERO);
    exact::lemma_exact_zero(zero);
    payoff::lemma_sound_legs(legs);
    payoff::lemma_kinks(legs);
    assert(legs[0].problem() is None && payoff::priced_within(legs[0], w));
    exact::lemma_exact_order(zero, legs[0].strike);
    assert(w >= 0real);
    lemma_breakevens(s);
    exact::lemma_units_positive();
    lemma_slope(s);
    lemma_steepness(legs, 0real, 0real);
    exact::lemma_not_negative(w, g);
    exact::lemma_not_negative(w * g, m);
    exact::lemma_not_negative(exact::eps(), x);
    exact::lemma_not_negative(exact::tiny(), g * m);
    exact::lemma_not_negative(exact::tiny(), g * m + w + 1real);
    exact::lemma_times(g * m, 2real * (g * m + w + 1real), exact::tiny());
    lemma_outer(2real, g * m + w + 1real, exact::tiny());
    lemma_swap(g * m + w + 1real, exact::tiny());
    lemma_swap(2real * (g * m + w + 1real), exact::tiny());
    lemma_slack(n, x, m);
    let i = choose|i: int| 0 <= i < raw.len() && raw[i] == b;
    if i < inner.len() {
        let h = lemma_crossing_of(k, p, k.len(), i);
        if p[h].feq(zero) && b == k[h] {
            assert(s.pnl(b) == p[h]);
            exact::lemma_exact_order(zero, p[h]);
            exact::lemma_exact_order(p[h], zero);
        } else {
            lemma_crossing_profit(s, h, b, w);
            lemma_profit_at(
                s,
                b,
                w,
                payoff::slack(n, x, m) + 10real * (exact::eps() * x) + exact::tiny() * (g * m),
            );
        }
    } else {
        lemma_tail_profit(s, b, w);
        lemma_profit_at(
            s,
            b,
            w,
            2real * payoff::slack(n, x, m) + 9real * (exact::eps() * x) + 2real * (exact::tiny() * (g
                * m + w + 1real)),
        );
    }
}

/// The crossing of a change of sign between two kinks lies between them, up to
/// rounding, and one beyond the last kink does not lie before it.
pub proof fn law_crossings_lie_at_the_change(s: Strategy, i: int)
    requires
        s.problem() is None,
        weighable(s),
        1 <= i < multileg::kinks_of(s.legs@).len(),
    ensures
        ({
            let (k, p) = (multileg::kinks_of(s.legs@), multileg::kink_pnls(s));
            let c = multileg::crossing(k[i - 1], p[i - 1], k[i], p[i]);
            let b = k.last().fsub(p.last().fdiv(tail_slope(s)));
            &&& p[i - 1].opposes(p[i]) && c.finite() ==> k[i - 1].exact() <= c.exact()
                <= k[i].exact() + 10real * (exact::eps() * k[i].exact()) + exact::tiny()
            &&& p.last().opposes(tail_slope(s)) && b.finite() ==> k.last().exact() <= b.exact()
        }),
{
    let (legs, k, p) = (s.legs@, multileg::kinks_of(s.legs@), multileg::kink_pnls(s));
    let (sl, pl) = (tail_slope(s), p.last());
    payoff::lemma_sound_legs(legs);
    payoff::lemma_kinks(legs);
    assert(k[0].exact() <= k[i - 1].exact() <= k[i].exact());
    assert(k[k.len() - 1] == k.last() && p[p.len() - 1] == pl);
    if p[i - 1].opposes(p[i]) {
        lemma_crossing_place(k[i - 1], p[i - 1], k[i], p[i], k[i].exact());
        let (a, d) = (k[i - 1].exact(), k[i].exact() - k[i - 1].exact());
        let x = exact::rabs(p[i - 1].exact()) / (exact::rabs(p[i - 1].exact()) + exact::rabs(
            p[i].exact(),
        ));
        exact::lemma_times(x, 1real, d);
    }
    if pl.opposes(sl) && k.last().fsub(pl.fdiv(sl)).finite() {
        let q = pl.fdiv(sl);
        assert(q.finite()) by {
            reveal(Num::fadd);
        }
        assert(q.negative()) by {
            reveal(Num::fdiv);
        }
        exact::lemma_exact_zero(Num::of(ZERO));
        exact::lemma_exact_order(q, Num::of(ZERO));
        exact::lemma_exact_neg(q);
        lemma_sum_above(k.last(), q.fneg());
    }
}

} // verus!
