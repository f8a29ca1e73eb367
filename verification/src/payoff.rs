//! The exact expiry payoff of a strategy: piecewise linear, so that it peaks
//! at its kinks, and how far the rounded payoff is from it.

use crate::black_scholes;
use crate::consts::{NEG_ZERO, ZERO};
use crate::exact;
use crate::integral;
use crate::market::OptionRight;
use crate::multileg::{self, Leg, Strategy};
use crate::num::Num;
use crate::sorting;
use crate::sums;
use vstd::arithmetic::power2::*;
use vstd::prelude::*;

verus! {

/// The part above zero.
pub open spec fn above_zero(x: real) -> real {
    if x > 0real {
        x
    } else {
        0real
    }
}

/// Exact expiry value of a leg per share.
pub open spec fn leg_value(l: Leg, s: real) -> real {
    match l.right {
        OptionRight::Call => above_zero(s - l.strike.exact()),
        OptionRight::Put => above_zero(l.strike.exact() - s),
    }
}

/// Contracts of a leg.
pub open spec fn contracts(l: Leg) -> real {
    l.quantity as int as real
}

/// Exact expiry profit of some legs per unit of the multiplier.
pub open spec fn exact_payoff(legs: Seq<Leg>, s: real) -> real
    decreases legs.len(),
{
    if legs.len() == 0 {
        0real
    } else {
        let l = legs.last();
        exact_payoff(legs.drop_last(), s) + (leg_value(l, s) - l.premium.exact()) * contracts(l)
    }
}

/// No strike lies strictly between two levels.
pub open spec fn clear(legs: Seq<Leg>, a: real, b: real) -> bool {
    forall|i: int|
        0 <= i < legs.len() ==> (#[trigger] legs[i]).strike.exact() <= a
            || b <= legs[i].strike.exact()
}

pub proof fn lemma_dist(x: real, y: real, z: real)
    by (nonlinear_arith)
    ensures
        (x + y) * z == x * z + y * z,
        (x - y) * z == x * z - y * z,
        z * (x + y) == z * x + z * y,
        z * (x - y) == z * x - z * y,
{
}

pub proof fn lemma_assoc(x: real, y: real, z: real)
    by (nonlinear_arith)
    ensures
        (x * y) * z == (x * z) * y,
{
}

/// Straight lines: the level itself, and its distance from a strike.
proof fn lemma_shifted(k: real, a: real, b: real, s: real)
    ensures
        (s - k) * (b - a) == (a - k) * (b - s) + (b - k) * (s - a),
        (k - s) * (b - a) == (k - a) * (b - s) + (k - b) * (s - a),
        k * (b - a) == k * (b - s) + k * (s - a),
        0real * (b - a) == 0real * (b - s) + 0real * (s - a),
{
    let (i, j) = (b - s, s - a);
    lemma_dist(i, j, k);
    // From the level s, the first end is j below and the second i above.
    lemma_dist(s - k, j, i);
    lemma_dist(s - k, i, j);
    lemma_dist(i, j, s - k);
    lemma_dist(k - s, j, i);
    lemma_dist(k - s, i, j);
    lemma_dist(i, j, k - s);
    assert(i * j == j * i) by (nonlinear_arith);
    lemma_dist(i, j, 0real);
}

/// Between two levels without a strike, a payoff is a straight line.
pub proof fn lemma_line(legs: Seq<Leg>, a: real, b: real, s: real)
    requires
        a <= s <= b,
        clear(legs, a, b),
    ensures
        exact_payoff(legs, s) * (b - a) == exact_payoff(legs, a) * (b - s) + exact_payoff(legs, b)
            * (s - a),
    decreases legs.len(),
{
    if legs.len() == 0 {
        lemma_shifted(0real, a, b, s);
    } else {
        let (rest, l) = (legs.drop_last(), legs.last());
        assert(forall|i: int| 0 <= i < rest.len() ==> rest[i] == legs[i]);
        lemma_line(rest, a, b, s);
        assert(legs[legs.len() - 1] == l);
        let (k, p, q) = (l.strike.exact(), l.premium.exact(), contracts(l));
        let (vs, va, vb) = (leg_value(l, s), leg_value(l, a), leg_value(l, b));
        lemma_shifted(k, a, b, s);
        lemma_shifted(0real, a, b, s);
        lemma_shifted(p, a, b, s);
        assert(vs * (b - a) == va * (b - s) + vb * (s - a));
        let (ws, wa, wb) = (vs - p, va - p, vb - p);
        lemma_dist(vs, p, b - a);
        lemma_dist(va, p, b - s);
        lemma_dist(vb, p, s - a);
        assert(ws * (b - a) == wa * (b - s) + wb * (s - a));
        lemma_assoc(ws, q, b - a);
        lemma_assoc(wa, q, b - s);
        lemma_assoc(wb, q, s - a);
        lemma_dist(wa * (b - s), wb * (s - a), q);
        assert((ws * q) * (b - a) == (wa * q) * (b - s) + (wb * q) * (s - a));
        lemma_dist(exact_payoff(rest, s), ws * q, b - a);
        lemma_dist(exact_payoff(rest, a), wa * q, b - s);
        lemma_dist(exact_payoff(rest, b), wb * q, s - a);
    }
}

/// A point of a straight line is not above or below both ends.
proof fn lemma_between(x: real, y: real, z: real, j: real, k: real)
    requires
        x * (j + k) == y * j + z * k,
        j >= 0real,
        k >= 0real,
        j + k > 0real,
    ensures
        x <= y || x <= z,
        y <= x || z <= x,
{
    lemma_dist(j, k, x);
    lemma_dist(x, y, j);
    lemma_dist(x, z, k);
    if x > y && x > z {
        lemma_positive(x - y, j);
        lemma_positive(x - z, k);
    }
    if x < y && x < z {
        lemma_dist(y, x, j);
        lemma_dist(z, x, k);
        lemma_positive(y - x, j);
        lemma_positive(z - x, k);
    }
}

proof fn lemma_positive(x: real, y: real)
    by (nonlinear_arith)
    requires
        x > 0real,
        y >= 0real,
    ensures
        x * y >= 0real,
        y > 0real ==> x * y > 0real,
{
}

/// Above every strike a payoff runs with the net calls.
pub proof fn lemma_tail(legs: Seq<Leg>, a: real, s: real)
    requires
        a <= s,
        forall|i: int| 0 <= i < legs.len() ==> (#[trigger] legs[i]).strike.exact() <= a,
    ensures
        exact_payoff(legs, s) == exact_payoff(legs, a) + (multileg::net_qty(
            legs,
            OptionRight::Call,
        ) as real) * (s - a),
    decreases legs.len(),
{
    if legs.len() > 0 {
        let (rest, l) = (legs.drop_last(), legs.last());
        assert(forall|i: int| 0 <= i < rest.len() ==> rest[i] == legs[i]);
        lemma_tail(rest, a, s);
        assert(legs[legs.len() - 1] == l);
        let (n, q) = (multileg::net_qty(rest, OptionRight::Call) as real, contracts(l));
        let (k, p, d) = (l.strike.exact(), l.premium.exact(), s - a);
        lemma_dist(n, q, d);
        lemma_dist((a - k) - p, d, q);
        assert(d * q == q * d) by (nonlinear_arith);
    } else {
        assert(0real * (s - a) == 0real) by (nonlinear_arith);
    }
}

/// Finite levels above zero.
pub open spec fn levels(t: Seq<Num>) -> bool {
    forall|i: int| 0 <= i < t.len() ==> multileg::positive_finite(#[trigger] t[i])
}

/// Levels in order.
pub open spec fn in_order(t: Seq<Num>) -> bool {
    forall|i: int, j: int| 0 <= i <= j < t.len() ==> t[i].exact() <= t[j].exact()
}

/// Some of the levels is this one.
pub open spec fn holds(t: Seq<Num>, x: real) -> bool {
    exists|j: int| 0 <= j < t.len() && (#[trigger] t[j]).exact() == x
}

/// Dropping repeated levels keeps their order and loses none.
proof fn lemma_deduped(t: Seq<Num>)
    requires
        levels(t),
        in_order(t),
    ensures
        ({
            let d = sorting::deduped(t);
            &&& levels(d)
            &&& in_order(d)
            &&& t.len() > 0 ==> d.len() > 0 && d.last().exact() == t.last().exact()
            &&& forall|i: int| 0 <= i < t.len() ==> holds(d, (#[trigger] t[i]).exact())
        }),
    decreases t.len(),
{
    if t.len() > 0 {
        let (r, x) = (t.drop_last(), t.last());
        assert(t[t.len() - 1] == x);
        assert(forall|i: int| 0 <= i < r.len() ==> r[i] == t[i]);
        lemma_deduped(r);
        let (c, d) = (sorting::deduped(r), sorting::deduped(t));
        if r.len() > 0 {
            assert(c[c.len() - 1] == c.last());
            assert(r[r.len() - 1] == r.last());
            exact::lemma_exact_order(x, c.last());
            exact::lemma_exact_order(c.last(), x);
        }
        if d != c {
            assert(d == c.push(x));
            assert(forall|i: int| 0 <= i < c.len() ==> d[i] == c[i]);
            assert forall|i: int, j: int| 0 <= i <= j < d.len() implies d[i].exact()
                <= d[j].exact() by {
                if j == c.len() && i < j {
                    assert(c[i].exact() <= c[c.len() - 1].exact());
                }
            }
        }
        assert forall|i: int| 0 <= i < t.len() implies holds(d, (#[trigger] t[i]).exact()) by {
            if i < r.len() {
                assert(holds(c, r[i].exact()));
                let j = choose|j: int| 0 <= j < c.len() && (#[trigger] c[j]).exact() == r[i].exact();
                assert(d[j].exact() == t[i].exact());
            } else {
                assert(d[d.len() - 1].exact() == x.exact());
            }
        }
    }
}

/// Legs that can be priced.
pub open spec fn sound_legs(legs: Seq<Leg>) -> bool {
    forall|i: int| 0 <= i < legs.len() ==> (#[trigger] legs[i]).problem() is None
}

/// The kinks of some legs: in order, from zero on, and every strike among them.
pub proof fn lemma_kinks(legs: Seq<Leg>)
    requires
        sound_legs(legs),
    ensures
        ({
            let k = multileg::kinks_of(legs);
            &&& k.len() > 0
            &&& k[0].exact() == 0real
            &&& in_order(k)
            &&& forall|i: int| 0 <= i < k.len() ==> (#[trigger] k[i]).finite()
            &&& forall|i: int| 0 <= i < legs.len() ==> holds(k, (#[trigger] legs[i]).strike.exact())
        }),
{
    let strikes = multileg::strikes_of(legs);
    let t = sorting::sorted(strikes);
    let d = sorting::deduped(t);
    let k = multileg::kinks_of(legs);
    sorting::law_sorted_sorts(strikes);
    t.to_multiset_ensures();
    strikes.to_multiset_ensures();
    exact::lemma_exact_zero(Num::of(ZERO));
    assert forall|i: int| 0 <= i < t.len() implies multileg::positive_finite(#[trigger] t[i]) by {
        assert(t.contains(t[i]));
        assert(t.to_multiset().count(t[i]) > 0);
        assert(strikes.contains(t[i]));
        let j = choose|j: int| 0 <= j < strikes.len() && strikes[j] == t[i];
        assert(legs[j].problem() is None);
    }
    assert forall|i: int, j: int| 0 <= i <= j < t.len() implies t[i].exact() <= t[j].exact() by {
        assert(t[i].rank() <= t[j].rank());
        assert(multileg::positive_finite(t[i]) && multileg::positive_finite(t[j]));
        exact::lemma_exact_order(t[i], t[j]);
    }
    lemma_deduped(t);
    assert forall|i: int| 0 <= i < k.len() implies (#[trigger] k[i]).finite() && k[i].exact()
        >= 0real by {
        if i > 0 {
            assert(k[i] == d[i - 1]);
            exact::lemma_exact_order(Num::of(ZERO), k[i]);
        }
    }
    assert forall|i: int, j: int| 0 <= i <= j < k.len() implies k[i].exact() <= k[j].exact() by {
        if i > 0 {
            assert(k[i] == d[i - 1] && k[j] == d[j - 1]);
        }
    }
    assert forall|i: int| 0 <= i < legs.len() implies holds(
        k,
        (#[trigger] legs[i]).strike.exact(),
    ) by {
        assert(strikes[i] == legs[i].strike);
        assert(strikes.contains(strikes[i]));
        assert(strikes.to_multiset().count(strikes[i]) > 0);
        assert(t.contains(strikes[i]));
        let m = choose|m: int| 0 <= m < t.len() && t[m] == strikes[i];
        assert(holds(d, t[m].exact()));
        let j = choose|j: int| 0 <= j < d.len() && (#[trigger] d[j]).exact() == t[m].exact();
        assert(k[j + 1] == d[j]);
    }
}

/// The last kink at or below a level.
proof fn lemma_last_below(k: Seq<Num>, s: real) -> (i: int)
    requires
        k.len() > 0,
        k[0].exact() <= s,
    ensures
        0 <= i < k.len(),
        k[i].exact() <= s,
        i + 1 < k.len() ==> s < k[i + 1].exact(),
    decreases k.len(),
{
    let last = k.len() - 1;
    if k[last].exact() <= s {
        last
    } else {
        let r = k.drop_last();
        assert(forall|i: int| 0 <= i < r.len() ==> r[i] == k[i]);
        lemma_last_below(r, s)
    }
}

/// An exact payoff that is bounded above has its greatest value at a kink, and
/// one that is bounded below its least.
pub proof fn law_exact_payoff_peaks_at_kinks(legs: Seq<Leg>, s: real)
    requires
        sound_legs(legs),
        s >= 0real,
    ensures
        ({
            let k = multileg::kinks_of(legs);
            let calls = multileg::net_qty(legs, OptionRight::Call);
            &&& calls <= 0 ==> exists|i: int|
                0 <= i < k.len() && exact_payoff(legs, s) <= exact_payoff(
                    legs,
                    (#[trigger] k[i]).exact(),
                )
            &&& calls >= 0 ==> exists|i: int|
                0 <= i < k.len() && exact_payoff(legs, (#[trigger] k[i]).exact()) <= exact_payoff(
                    legs,
                    s,
                )
        }),
{
    let k = multileg::kinks_of(legs);
    let calls = multileg::net_qty(legs, OptionRight::Call);
    lemma_kinks(legs);
    let i = lemma_last_below(k, s);
    let a = k[i].exact();
    if i + 1 < k.len() {
        let b = k[i + 1].exact();
        assert forall|n: int| 0 <= n < legs.len() implies (#[trigger] legs[n]).strike.exact() <= a
            || b <= legs[n].strike.exact() by {
            assert(holds(k, legs[n].strike.exact()));
            let j = choose|j: int|
                0 <= j < k.len() && (#[trigger] k[j]).exact() == legs[n].strike.exact();
            if j <= i {
                assert(k[j].exact() <= k[i].exact());
            } else {
                assert(k[i + 1].exact() <= k[j].exact());
            }
        }
        lemma_line(legs, a, b, s);
        lemma_between(
            exact_payoff(legs, s),
            exact_payoff(legs, a),
            exact_payoff(legs, b),
            b - s,
            s - a,
        );
    } else {
        assert forall|n: int| 0 <= n < legs.len() implies (#[trigger] legs[n]).strike.exact()
            <= a by {
            assert(holds(k, legs[n].strike.exact()));
            let j = choose|j: int|
                0 <= j < k.len() && (#[trigger] k[j]).exact() == legs[n].strike.exact();
            assert(k[j].exact() <= k[i].exact());
        }
        lemma_tail(legs, a, s);
        let c = calls as real;
        if calls <= 0 {
            exact::lemma_times(c, 0real, s - a);
        }
        if calls >= 0 {
            exact::lemma_times(0real, c, s - a);
        }
        assert(0real * (s - a) == 0real) by (nonlinear_arith);
    }
}

/// A quantity is exact.
proof fn lemma_quantity(q: i32)
    ensures
        multileg::qty_num(q).finite(),
        multileg::qty_num(q).exact() == q as int as real,
{
    lemma2_to64_rest();
    let n = (if q < 0 {
        -q
    } else {
        q as int
    }) as nat;
    integral::lemma_whole_exact(n);
    exact::lemma_exact_whole(n);
    let v = Num::whole(false, n);
    if q < 0 {
        exact::lemma_exact_neg(v);
        assert(multileg::qty_num(q) == v.fneg()) by {
            reveal(Num::whole);
        }
    }
}

/// A product of two absolute values.
pub proof fn lemma_abs_mul(x: real, y: real)
    ensures
        exact::rabs(x * y) == exact::rabs(x) * exact::rabs(y),
{
    let (a, b) = (exact::rabs(x), exact::rabs(y));
    exact::lemma_not_negative(a, b);
    assert(x * y == a * b || x * y == -(a * b)) by (nonlinear_arith)
        requires
            a == x || a == -x,
            b == y || b == -y,
    ;
}

/// What an error of a factor makes of a product.
proof fn lemma_error_times(x: real, y: real, e: real, q: real)
    requires
        exact::rabs(x - y) <= e,
    ensures
        exact::rabs(x * q - y * q) <= e * exact::rabs(q),
{
    lemma_dist(x, y, q);
    lemma_abs_mul(x - y, q);
    exact::lemma_times(exact::rabs(x - y), e, exact::rabs(q));
}

/// Prices of a leg within a bound.
pub open spec fn priced_within(l: Leg, w: real) -> bool {
    l.strike.exact() <= w && l.premium.exact() <= w
}

/// The value of a leg per share less its premium, as it is computed.
proof fn lemma_leg_margin(l: Leg, spot: Num, w: real)
    requires
        l.problem() is None,
        priced_within(l, w),
        spot.finite(),
        0real <= spot.exact() <= w,
    ensures
        ({
            let d = l.intrinsic_at(spot).fsub(l.premium);
            let x = leg_value(l, spot.exact()) - l.premium.exact();
            &&& d.finite()
            &&& exact::rabs(d.exact() - x) <= 5real * (exact::eps() * w)
            &&& exact::rabs(x) <= w
            &&& exact::rabs(d.exact()) <= 2real * w
        }),
{
    let (zero, e) = (Num::of(ZERO), exact::eps());
    let (s, k, p) = (spot.exact(), l.strike.exact(), l.premium.exact());
    exact::lemma_exact_zero(zero);
    exact::lemma_exact_order(zero, l.strike);
    exact::lemma_exact_order(zero, l.premium);
    let a = match l.right {
        OptionRight::Call => spot.fsub(l.strike),
        OptionRight::Put => l.strike.fsub(spot),
    };
    black_scholes::lemma_difference(spot, l.strike, spot, l.strike);
    black_scholes::lemma_difference(l.strike, spot, l.strike, spot);
    exact::lemma_times(s + k, 2real * w, e);
    lemma_scaled_bound(e, w);
    let v = l.intrinsic_at(spot);
    exact::lemma_exact_order(a, zero);
    assert(v == if a.flt(zero) {
        zero
    } else {
        a
    });
    assert(v.exact() >= 0real);
    let i = v.exact();
    exact::lemma_times(e, 1real / 100real, w);
    assert(e * w == w * e) by (nonlinear_arith);
    assert(i <= 2real * w);
    black_scholes::lemma_difference(v, l.premium, v, l.premium);
    exact::lemma_times(i + p, 3real * w, e);
}

proof fn lemma_scaled_bound(e: real, w: real)
    by (nonlinear_arith)
    ensures
        e * (2real * w) == 2real * (e * w),
        e * (3real * w) == 3real * (e * w),
{
}

/// The profit of a leg is near its exact one.
proof fn lemma_leg_error(l: Leg, spot: Num, mult: Num, w: real)
    requires
        l.problem() is None,
        priced_within(l, w),
        spot.finite(),
        0real <= spot.exact() <= w,
        multileg::positive_finite(mult),
        l.pnl_at(spot, mult).finite(),
    ensures
        ({
            let (e, t, m) = (exact::eps(), exact::tiny(), mult.exact());
            let x = (leg_value(l, spot.exact()) - l.premium.exact()) * contracts(l);
            let size = (w * exact::rabs(contracts(l))) * m;
            &&& exact::rabs(l.pnl_at(spot, mult).exact() - x * m) <= 9real * (e * size) + t * (2real
                * m + 1real)
            &&& exact::rabs(x * m) <= size
            &&& size >= 0real
            &&& m > 0real
        }),
{
    let (e, t, m) = (exact::eps(), exact::tiny(), mult.exact());
    let zero = Num::of(ZERO);
    exact::lemma_exact_zero(zero);
    exact::lemma_exact_order(zero, mult);
    exact::lemma_units_positive();
    exact::lemma_small();
    let d = l.intrinsic_at(spot).fsub(l.premium);
    let qn = multileg::qty_num(l.quantity);
    let (y, q) = (leg_value(l, spot.exact()) - l.premium.exact(), contracts(l));
    let g = exact::rabs(q);
    lemma_leg_margin(l, spot, w);
    lemma_quantity(l.quantity);
    let t1 = d.fmul(qn);
    let t2 = t1.fmul(mult);
    assert(t1.finite()) by {
        reveal(Num::fmul);
    }
    exact::lemma_exact_mul(d, qn);
    exact::lemma_exact_mul(t1, mult);
    // Times the quantity.
    let dq = d.exact() * q;
    let ew = e * w;
    let wg = w * g;
    lemma_error_times(d.exact(), y, 5real * ew, q);
    lemma_abs_mul(d.exact(), q);
    exact::lemma_times(exact::rabs(d.exact()), 2real * w, g);
    exact::lemma_not_negative(w, g);
    assert((2real * w) * g == 2real * wg) by (nonlinear_arith)
        requires
            wg == w * g,
    ;
    exact::lemma_times(exact::rabs(dq), 2real * wg, e);
    assert((5real * ew) * g == 5real * (e * wg)) by (nonlinear_arith)
        requires
            ew == e * w,
            wg == w * g,
    ;
    lemma_scaled_bound(e, wg);
    let x = y * q;
    let err = 7real * (e * wg) + t;
    assert(exact::rabs(t1.exact() - x) <= err);
    lemma_abs_mul(y, q);
    exact::lemma_times(exact::rabs(y), w, g);
    assert(exact::rabs(x) <= wg);
    // Times the multiplier.
    lemma_error_times(t1.exact(), x, err, m);
    let size = wg * m;
    exact::lemma_not_negative(wg, m);
    let es = e * size;
    let tm = t * m;
    assert(err * m == 7real * es + tm) by (nonlinear_arith)
        requires
            err == 7real * (e * wg) + t,
            size == wg * m,
            es == e * size,
            tm == t * m,
    ;
    lemma_abs_mul(t1.exact(), m);
    exact::lemma_not_negative(e, wg);
    exact::lemma_times(e, 1real / 100real, wg);
    assert(e * wg == wg * e) by (nonlinear_arith);
    assert(exact::rabs(t1.exact()) <= 2real * wg + t);
    exact::lemma_times(exact::rabs(t1.exact()), 2real * wg + t, m);
    assert((2real * wg + t) * m == 2real * size + tm) by (nonlinear_arith)
        requires
            size == wg * m,
            tm == t * m,
    ;
    exact::lemma_times(exact::rabs(t1.exact() * m), 2real * size + tm, e);
    exact::lemma_not_negative(t, m);
    exact::lemma_times(e, 1real, tm);
    assert(e * (2real * size + tm) == 2real * es + e * tm) by (nonlinear_arith)
        requires
            es == e * size,
    ;
    assert(e * tm == tm * e) by (nonlinear_arith);
    assert(t * (2real * m + 1real) == 2real * tm + t) by (nonlinear_arith)
        requires
            tm == t * m,
    ;
    lemma_abs_mul(x, m);
    exact::lemma_times(exact::rabs(x), wg, m);
}

/// Contracts of some legs, long and short.
pub open spec fn gross(legs: Seq<Leg>) -> real
    decreases legs.len(),
{
    if legs.len() == 0 {
        0real
    } else {
        gross(legs.drop_last()) + exact::rabs(contracts(legs.last()))
    }
}

/// How far the rounded profit of `n` legs may be from the exact one, where the
/// prices add up to `x` at most and the multiplier is `m`.
pub open spec fn slack(n: real, x: real, m: real) -> real {
    (2real * n + 9real) * (exact::eps() * x) + (2real * n) * (exact::tiny() * (2real * m + 1real))
}

/// The profits of some legs one after another.
pub open spec fn profits(legs: Seq<Leg>, spot: Num, mult: Num) -> Seq<Num> {
    legs.map_values(|l: Leg| l.pnl_at(spot, mult))
}

/// The profit of a strategy is near its exact one.
pub proof fn lemma_payoff_error(legs: Seq<Leg>, spot: Num, mult: Num, w: real)
    requires
        sound_legs(legs),
        legs.len() <= 0x1_0000_0000_0000,
        forall|i: int| 0 <= i < legs.len() ==> priced_within(#[trigger] legs[i], w),
        spot.finite(),
        0real <= spot.exact() <= w,
        multileg::positive_finite(mult),
        sums::sum(profits(legs, spot, mult)).finite(),
    ensures
        ({
            let (m, n) = (mult.exact(), legs.len() as int as real);
            let x = (w * gross(legs)) * m;
            let y = exact_payoff(legs, spot.exact()) * m;
            &&& exact::rabs(sums::sum(profits(legs, spot, mult)).exact() - y) <= slack(n, x, m)
            &&& exact::rabs(y) <= x
            &&& x >= 0real
            &&& m > 0real
        }),
    decreases legs.len(),
{
    let (e, t, m) = (exact::eps(), exact::tiny(), mult.exact());
    let zero = Num::of(ZERO);
    exact::lemma_exact_zero(zero);
    exact::lemma_exact_order(zero, mult);
    exact::lemma_units_positive();
    let f = profits(legs, spot, mult);
    let tm = t * (2real * m + 1real);
    exact::lemma_not_negative(t, 2real * m + 1real);
    if legs.len() == 0 {
        exact::lemma_exact_zero(Num::of(NEG_ZERO));
        assert((w * 0real) * m == 0real && 0real * m == 0real) by (nonlinear_arith);
        assert((2real * 0real + 9real) * (e * 0real) == 0real && (2real * 0real) * tm == 0real)
            by (nonlinear_arith);
    } else {
        let (rest, l) = (legs.drop_last(), legs.last());
        assert(forall|i: int| 0 <= i < rest.len() ==> rest[i] == legs[i]);
        assert(legs[legs.len() - 1] == l);
        assert(f.drop_last() =~= profits(rest, spot, mult));
        let (s, v) = (sums::sum(profits(rest, spot, mult)), l.pnl_at(spot, mult));
        assert(f.last() == v);
        assert(s.finite() && v.finite()) by {
            reveal(Num::fadd);
        }
        lemma_payoff_error(rest, spot, mult, w);
        lemma_leg_error(l, spot, mult, w);
        exact::lemma_exact_add(s, v);
        let n = rest.len() as int as real;
        let g = exact::rabs(contracts(l));
        let (x, z) = ((w * gross(rest)) * m, (w * g) * m);
        assert((w * (gross(rest) + g)) * m == x + z) by {
            lemma_dist(gross(rest), g, w);
            lemma_dist(w * gross(rest), w * g, m);
        }
        let a = exact_payoff(rest, spot.exact());
        let b = (leg_value(l, spot.exact()) - l.premium.exact()) * contracts(l);
        lemma_dist(a, b, m);
        let (ex, ez) = (e * x, e * z);
        exact::lemma_not_negative(e, x);
        exact::lemma_not_negative(e, z);
        lemma_dist(x, z, e);
        lemma_slack_step(n, ex, ez, tm, e, x + z, s.exact() + v.exact(), (a + b) * m);
        assert(legs.len() as int as real == n + 1real);
    }
}

/// One more leg adds its own error and one rounding of the sum.
proof fn lemma_slack_step(
    n: real,
    ex: real,
    ez: real,
    tm: real,
    e: real,
    x: real,
    v: real,
    y: real,
)
    requires
        0real <= n <= 0x1_0000_0000_0000int as real,
        ex >= 0real,
        ez >= 0real,
        tm >= 0real,
        e == exact::eps(),
        x >= 0real,
        ex + ez == e * x,
        exact::rabs(y) <= x,
        exact::rabs(v - y) <= (2real * n + 9real) * ex + (2real * n) * tm + 9real * ez + tm,
    ensures
        exact::rabs(v - y) + e * exact::rabs(v) <= (2real * (n + 1real) + 9real) * (ex + ez) + (
        2real * (n + 1real)) * tm,
{
    let k = 2real * n + 9real;
    let c = ex + ez;
    // The error so far, over all prices.
    exact::lemma_times(9real, k, ez);
    lemma_dist(ex, ez, k);
    assert(k * ez == ez * k) by (nonlinear_arith);
    assert(k * ex == ex * k) by (nonlinear_arith);
    let h = 2real * n;
    assert(exact::rabs(v - y) <= k * c + h * tm + tm);
    // The size of the sum.
    exact::lemma_times(k * e, 1real / 2real, x);
    assert(k * c == (k * e) * x) by (nonlinear_arith)
        requires
            c == e * x,
    ;
    assert(exact::rabs(v) <= 2real * x + h * tm + tm);
    exact::lemma_times(exact::rabs(v), 2real * x + h * tm + tm, e);
    assert(e * (2real * x + h * tm + tm) == 2real * c + (e * (h + 1real)) * tm) by (nonlinear_arith)
        requires
            c == e * x,
    ;
    exact::lemma_times(h + 1real, 0x20_0000_0000_0000int as real, e);
    exact::lemma_times(e * (h + 1real), 1real, tm);
    assert((2real * (n + 1real) + 9real) * c == k * c + 2real * c) by (nonlinear_arith)
        requires
            k == 2real * n + 9real,
    ;
    assert((2real * (n + 1real)) * tm == h * tm + 2real * tm) by (nonlinear_arith)
        requires
            h == 2real * n,
    ;
}

/// Legs without a first problem have none.
pub proof fn lemma_sound_legs(legs: Seq<Leg>)
    requires
        multileg::first_leg_problem(legs) is None,
    ensures
        sound_legs(legs),
    decreases legs.len(),
{
    if legs.len() > 0 {
        let rest = legs.drop_last();
        lemma_sound_legs(rest);
        assert forall|i: int| 0 <= i < legs.len() implies (#[trigger] legs[i]).problem() is None by {
            if i < rest.len() {
                assert(rest[i] == legs[i]);
            }
        }
    }
}

/// A bounded extreme of a profile bounds the profit at every spot, not only at
/// the kinks it is taken from, up to the rounding of two profits.
///
/// `w` bounds the spot, the strikes and the premiums.
pub proof fn law_extremes_bound_every_payoff(s: Strategy, spot: Num, w: real)
    requires
        s.problem() is None,
        s.legs@.len() <= 0x1_0000_0000_0000,
        forall|i: int| 0 <= i < s.legs@.len() ==> priced_within(#[trigger] s.legs@[i], w),
        spot.finite(),
        0real <= spot.exact() <= w,
        s.pnl(spot).finite(),
        forall|i: int|
            0 <= i < multileg::kink_pnls(s).len() ==> (#[trigger] multileg::kink_pnls(
                s,
            )[i]).finite(),
    ensures
        ({
            let (pnls, m) = (multileg::kink_pnls(s), s.multiplier.exact());
            let calls = multileg::net_qty(s.legs@, OptionRight::Call);
            let off = 2real * slack(
                s.legs@.len() as int as real,
                (w * gross(s.legs@)) * m,
                m,
            );
            &&& calls <= 0 ==> s.pnl(spot).exact() <= multileg::greatest(pnls).exact() + off
            &&& calls >= 0 ==> multileg::least(pnls).exact() - off <= s.pnl(spot).exact()
        }),
{
    let (legs, mult) = (s.legs@, s.multiplier);
    let (m, x) = (mult.exact(), spot.exact());
    let (k, pnls) = (multileg::kinks_of(legs), multileg::kink_pnls(s));
    let calls = multileg::net_qty(legs, OptionRight::Call);
    lemma_sound_legs(legs);
    lemma_kinks(legs);
    multileg::law_extremes_are_attained_bounds(pnls);
    let a = choose|i: int| 0 <= i < pnls.len() && (#[trigger] pnls[i]).feq(
        multileg::greatest(pnls),
    );
    let b = choose|i: int| 0 <= i < pnls.len() && (#[trigger] pnls[i]).feq(multileg::least(pnls));
    assert(pnls[a].finite() && pnls[b].finite());
    assert(profits(legs, spot, mult) =~= legs.map_values(|l: Leg| l.pnl_at(spot, s.multiplier)));
    lemma_payoff_error(legs, spot, mult, w);
    law_exact_payoff_peaks_at_kinks(legs, x);
    if calls <= 0 {
        let i = choose|i: int|
            0 <= i < k.len() && exact_payoff(legs, x) <= exact_payoff(
                legs,
                (#[trigger] k[i]).exact(),
            );
        lemma_kink_error(s, i, w);
        exact::lemma_times(exact_payoff(legs, x), exact_payoff(legs, k[i].exact()), m);
        exact::lemma_exact_order(pnls[i], multileg::greatest(pnls));
    }
    if calls >= 0 {
        let i = choose|i: int|
            0 <= i < k.len() && exact_payoff(legs, (#[trigger] k[i]).exact()) <= exact_payoff(
                legs,
                x,
            );
        lemma_kink_error(s, i, w);
        exact::lemma_times(exact_payoff(legs, k[i].exact()), exact_payoff(legs, x), m);
        exact::lemma_exact_order(multileg::least(pnls), pnls[i]);
    }
}

/// The profit at a kink is near its exact one.
pub proof fn lemma_kink_error(s: Strategy, i: int, w: real)
    requires
        sound_legs(s.legs@),
        multileg::positive_finite(s.multiplier),
        s.legs@.len() <= 0x1_0000_0000_0000,
        forall|i: int| 0 <= i < s.legs@.len() ==> priced_within(#[trigger] s.legs@[i], w),
        0 <= i < multileg::kinks_of(s.legs@).len(),
        multileg::kink_pnls(s)[i].finite(),
        w >= 0real,
    ensures
        ({
            let (m, k) = (s.multiplier.exact(), multileg::kinks_of(s.legs@)[i].exact());
            let n = s.legs@.len() as int as real;
            exact::rabs(multileg::kink_pnls(s)[i].exact() - exact_payoff(s.legs@, k) * m) <= slack(
                n,
                (w * gross(s.legs@)) * m,
                m,
            )
        }),
{
    let (legs, mult) = (s.legs@, s.multiplier);
    let k = multileg::kinks_of(legs)[i];
    lemma_kinks(legs);
    lemma_kink_within(legs, i, w);
    assert(profits(legs, k, mult) =~= legs.map_values(|l: Leg| l.pnl_at(k, s.multiplier)));
    lemma_payoff_error(legs, k, mult, w);
}

/// A kink is zero or a strike.
pub proof fn lemma_kink_within(legs: Seq<Leg>, i: int, w: real)
    requires
        sound_legs(legs),
        forall|n: int| 0 <= n < legs.len() ==> priced_within(#[trigger] legs[n], w),
        0 <= i < multileg::kinks_of(legs).len(),
        w >= 0real,
    ensures
        0real <= multileg::kinks_of(legs)[i].exact() <= w,
{
    let (strikes, k) = (multileg::strikes_of(legs), multileg::kinks_of(legs));
    let t = sorting::sorted(strikes);
    let d = sorting::deduped(t);
    lemma_kinks(legs);
    assert(k[0].exact() <= k[i].exact());
    if i > 0 {
        assert(k[i] == d[i - 1]);
        lemma_deduped_from(t, i - 1);
        let j = choose|j: int| 0 <= j < t.len() && t[j] == d[i - 1];
        sorting::law_sorted_sorts(strikes);
        t.to_multiset_ensures();
        strikes.to_multiset_ensures();
        assert(t.contains(t[j]));
        assert(t.to_multiset().count(t[j]) > 0);
        assert(strikes.contains(t[j]));
        let n = choose|n: int| 0 <= n < strikes.len() && strikes[n] == t[j];
        assert(priced_within(legs[n], w));
    }
}

/// What is left after dropping repeats was there before.
proof fn lemma_deduped_from(t: Seq<Num>, i: int)
    requires
        0 <= i < sorting::deduped(t).len(),
    ensures
        exists|j: int| 0 <= j < t.len() && t[j] == sorting::deduped(t)[i],
    decreases t.len(),
{
    if t.len() > 0 {
        let r = t.drop_last();
        let c = sorting::deduped(r);
        if i < c.len() {
            lemma_deduped_from(r, i);
            let j = choose|j: int| 0 <= j < r.len() && r[j] == c[i];
            assert(t[j] == sorting::deduped(t)[i]);
        } else {
            assert(t[t.len() - 1] == sorting::deduped(t)[i]);
        }
    }
}

} // verus!
