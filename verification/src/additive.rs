//! How far rounding takes a running sum from the exact one, and so how nearly
//! the sums of two lists add up to the sum of both.

use crate::consts::ZERO;
use crate::exact;
use crate::num::Num;
use crate::sums;
use vstd::prelude::*;

verus! {

/// The exact sum of the values that are there.
pub open spec fn exact_sum(s: Seq<Option<Num>>) -> real
    decreases s.len(),
{
    if s.len() == 0 {
        0real
    } else {
        match s.last() {
            Some(v) => exact_sum(s.drop_last()) + v.exact(),
            None => exact_sum(s.drop_last()),
        }
    }
}

/// The exact sum of the sizes of the values that are there.
pub open spec fn exact_gross(s: Seq<Option<Num>>) -> real
    decreases s.len(),
{
    if s.len() == 0 {
        0real
    } else {
        match s.last() {
            Some(v) => exact_gross(s.drop_last()) + exact::rabs(v.exact()),
            None => exact_gross(s.drop_last()),
        }
    }
}

/// Every value that is there is finite.
pub open spec fn all_finite(s: Seq<Option<Num>>) -> bool {
    forall|i: int| 0 <= i < s.len() ==> (#[trigger] s[i] matches Some(v) ==> v.finite())
}

/// The share of the gross by which a sum of `n` values may be off.
pub open spec fn slack(n: nat) -> real {
    (2 * n) as real * exact::eps()
}

/// A finite sum has finite parts.
proof fn lemma_finite_parts(a: Num, b: Num)
    requires
        b.finite(),
        a.fadd(b).finite(),
    ensures
        a.finite(),
{
    reveal(Num::fadd);
}

/// Exact sums stay within the gross.
proof fn lemma_within_gross(s: Seq<Option<Num>>)
    ensures
        exact::rabs(exact_sum(s)) <= exact_gross(s),
    decreases s.len(),
{
    if s.len() > 0 {
        lemma_within_gross(s.drop_last());
    }
}

/// What one more value adds to the error.
proof fn lemma_error_step(f: real, r: real, x: real, g: real, k: real, e: real, y: real)
    requires
        exact::rabs(f - r) <= k * g,
        exact::rabs(r) <= g,
        exact::rabs(y - (f + x)) <= e * exact::rabs(f + x),
        0real <= k <= 1real,
        e >= 0real,
    ensures
        exact::rabs(y - (r + x)) <= (k + 2real * e) * (g + exact::rabs(x)),
{
    let h = g + exact::rabs(x);
    exact::lemma_times(k, 1real, g);
    assert(1real * g == g);
    assert(exact::rabs(f + x) <= 2real * h);
    exact::lemma_times(exact::rabs(f + x), 2real * h, e);
    exact::lemma_times(g, h, k);
    assert((k + 2real * e) * h == k * h + e * (2real * h)) by (nonlinear_arith);
}

/// The slack of one more value.
proof fn lemma_slack_step(n: nat)
    ensures
        slack(n + 1) == slack(n) + 2real * exact::eps(),
{
    let (k, e) = ((2 * n) as real, exact::eps());
    assert((k + 2real) * e == k * e + 2real * e) by (nonlinear_arith);
}

/// More values have no less slack, and as many as fit have at most all of it.
proof fn lemma_slack_order(n: nat, m: nat)
    requires
        n <= m <= 0x8_0000_0000_0000,
    ensures
        0real <= slack(n) <= slack(m) <= 1real,
{
    let e = exact::eps();
    let top: nat = 0x8_0000_0000_0000;
    exact::lemma_times(0real, (2 * n) as real, e);
    exact::lemma_times((2 * n) as real, (2 * m) as real, e);
    exact::lemma_times((2 * m) as real, (2 * top) as real, e);
}

/// A running sum is as near to the exact one as its slack.
pub proof fn lemma_sum_error(s: Seq<Option<Num>>)
    requires
        all_finite(s),
        sums::sum_some(s).finite(),
        s.len() <= 0x8_0000_0000_0000,
    ensures
        exact::rabs(sums::sum_some(s).exact() - exact_sum(s)) <= slack(s.len()) * exact_gross(s),
    decreases s.len(),
{
    if s.len() == 0 {
        exact::lemma_exact_zero(Num::of(ZERO));
        assert(slack(0) * 0real == 0real) by (nonlinear_arith);
    } else {
        let rest = s.drop_last();
        let (r, g) = (exact_sum(rest), exact_gross(rest));
        let n = rest.len();
        assert(all_finite(rest)) by {
            assert forall|i: int| 0 <= i < rest.len() implies (#[trigger] rest[i] matches Some(v)
                ==> v.finite()) by {
                assert(rest[i] == s[i]);
            }
        }
        assert(s.last() == s[s.len() - 1]);
        lemma_slack_step(n);
        lemma_slack_order(n, n + 1);
        lemma_within_gross(rest);
        match s.last() {
            Some(v) => {
                let a = sums::sum_some(rest);
                lemma_finite_parts(a, v);
                lemma_sum_error(rest);
                exact::lemma_exact_add(a, v);
                lemma_error_step(
                    a.exact(),
                    r,
                    v.exact(),
                    g,
                    slack(n),
                    exact::eps(),
                    a.fadd(v).exact(),
                );
            },
            None => {
                lemma_sum_error(rest);
                exact::lemma_times(slack(n), slack(n + 1), g);
            },
        }
    }
}

/// Exact sums add up.
proof fn lemma_exact_adds(s: Seq<Option<Num>>, t: Seq<Option<Num>>)
    ensures
        exact_sum(s + t) == exact_sum(s) + exact_sum(t),
        exact_gross(s + t) == exact_gross(s) + exact_gross(t),
    decreases t.len(),
{
    if t.len() == 0 {
        assert(s + t =~= s);
    } else {
        lemma_exact_adds(s, t.drop_last());
        assert((s + t).drop_last() =~= s + t.drop_last());
        assert((s + t).last() == t.last());
    }
}

/// Two running sums add up to the running sum of both lists, up to rounding.
pub proof fn law_sums_nearly_add_up(s: Seq<Option<Num>>, t: Seq<Option<Num>>)
    requires
        all_finite(s),
        all_finite(t),
        sums::sum_some(s).finite(),
        sums::sum_some(t).finite(),
        sums::sum_some(s + t).finite(),
        s.len() + t.len() <= 0x8_0000_0000_0000,
    ensures
        ({
            let (a, b) = (sums::sum_some(s).exact(), sums::sum_some(t).exact());
            let both = sums::sum_some(s + t).exact();
            exact::rabs(both - (a + b)) <= 2real * slack(s.len() + t.len()) * (exact_gross(s)
                + exact_gross(t))
        }),
{
    let n = s.len() + t.len();
    let (g, h) = (exact_gross(s), exact_gross(t));
    assert(all_finite(s + t));
    lemma_sum_error(s);
    lemma_sum_error(t);
    lemma_sum_error(s + t);
    lemma_exact_adds(s, t);
    lemma_within_gross(s);
    lemma_within_gross(t);
    lemma_slack_order(s.len(), n);
    lemma_slack_order(t.len(), n);
    exact::lemma_times(slack(s.len()), slack(n), g);
    exact::lemma_times(slack(t.len()), slack(n), h);
    let k = slack(n);
    assert(2real * k * (g + h) == k * (g + h) + k * g + k * h) by (nonlinear_arith);
}

} // verus!
