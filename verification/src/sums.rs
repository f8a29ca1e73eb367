//! Left-to-right sums, each step rounded.

use crate::algebra;
use crate::arith;
use crate::consts::{NEG_ZERO, ZERO};
use crate::num::Num;
use crate::rounding;
use vstd::prelude::*;

verus! {

/// The sum of a sequence, taken from its start; the empty sum is -0, which
/// adds nothing to any number.
pub open spec fn sum(s: Seq<Num>) -> Num
    decreases s.len(),
{
    if s.len() == 0 {
        Num::of(NEG_ZERO)
    } else {
        sum(s.drop_last()).fadd(s.last())
    }
}

/// The sum of the values that are there.
pub open spec fn sum_some(s: Seq<Option<Num>>) -> Num
    decreases s.len(),
{
    if s.len() == 0 {
        Num::of(ZERO)
    } else {
        match s.last() {
            Some(v) => sum_some(s.drop_last()).fadd(v),
            None => sum_some(s.drop_last()),
        }
    }
}

/// The sum of the absolute values that are there.
pub open spec fn sum_abs_some(s: Seq<Option<Num>>) -> Num
    decreases s.len(),
{
    if s.len() == 0 {
        Num::of(ZERO)
    } else {
        match s.last() {
            Some(v) => sum_abs_some(s.drop_last()).fadd(v.fabs()),
            None => sum_abs_some(s.drop_last()),
        }
    }
}

/// The absolute value of a sum is at most the sum of larger absolute values,
/// rounding included.
pub proof fn lemma_abs_of_sum(a: Num, b: Num, g: Num)
    requires
        !a.nan(),
        b.finite(),
        !g.nan(),
        !g.negative(),
        a.mag() <= g.mag(),
    ensures
        !a.fadd(b).nan(),
        !g.fadd(b.fabs()).nan(),
        !g.fadd(b.fabs()).negative(),
        a.fadd(b).mag() <= g.fadd(b.fabs()).mag(),
{
    reveal(Num::fadd);
    let c = b.fabs();
    assert(c.size() == b.size());
    if g.finite() {
        if a.mag() < g.mag() {
            arith::lemma_size_order(a, g);
        }
        assert(a.size() <= g.size());
        let s = a.units() + b.units();
        let t: nat = g.size() + b.size();
        let abs: nat = if s < 0 {
            (-s) as nat
        } else {
            s as nat
        };
        rounding::lemma_round_monotone(abs, t, 1);
        arith::lemma_round_zero(1);
        assert(g.units() + c.units() == t);
    }
}

/// The net of finite values never exceeds their gross in absolute value.
pub proof fn law_gross_dominates_net(s: Seq<Option<Num>>)
    requires
        forall|i: int| 0 <= i < s.len() ==> (#[trigger] s[i] matches Some(v) ==> v.finite()),
    ensures
        !sum_some(s).nan(),
        !sum_abs_some(s).nan(),
        !sum_abs_some(s).negative(),
        sum_some(s).fabs().fle(sum_abs_some(s)),
    decreases s.len(),
{
    if s.len() > 0 {
        law_gross_dominates_net(s.drop_last());
        assert(s.last() == s[s.len() - 1]);
        if let Some(v) = s.last() {
            lemma_abs_of_sum(sum_some(s.drop_last()), v, sum_abs_some(s.drop_last()));
        }
    }
}

/// One more element at the end of a sum.
pub proof fn lemma_sum_push(s: Seq<Num>, v: Num)
    ensures
        sum(s.push(v)) == sum(s).fadd(v),
{
    assert(s.push(v).drop_last() =~= s);
}

/// One more element at the end of a sum of options.
pub proof fn lemma_sum_some_push(s: Seq<Option<Num>>, v: Option<Num>)
    ensures
        sum_some(s.push(v)) == (match v {
            Some(x) => sum_some(s).fadd(x),
            None => sum_some(s),
        }),
        sum_abs_some(s.push(v)) == (match v {
            Some(x) => sum_abs_some(s).fadd(x.fabs()),
            None => sum_abs_some(s),
        }),
{
    assert(s.push(v).drop_last() =~= s);
}

/// Adds up a vector from its start.
pub fn total(v: &Vec<Num>) -> (r: Num)
    ensures
        r == sum(v@),
{
    let mut acc: Num = Num::of(NEG_ZERO);
    let mut i: usize = 0;
    proof {
        assert(v@.take(0) =~= Seq::<Num>::empty());
    }
    while i < v.len()
        invariant
            i <= v@.len(),
            acc == sum(v@.take(i as int)),
        decreases v@.len() - i,
    {
        proof {
            assert(v@.take(i + 1).drop_last() =~= v@.take(i as int));
        }
        acc = acc + v[i];
        i = i + 1;
    }
    proof {
        assert(v@.take(i as int) =~= v@);
    }
    acc
}

/// Where no value is negative, the net sum is the gross one.
pub proof fn law_one_sign_nets_to_gross(s: Seq<Option<Num>>)
    requires
        forall|i: int|
            0 <= i < s.len() ==> (#[trigger] s[i] matches Some(v) ==> v.finite() && !v.negative()),
    ensures
        sum_some(s) == sum_abs_some(s),
    decreases s.len(),
{
    if s.len() > 0 {
        law_one_sign_nets_to_gross(s.drop_last());
        assert(s.last() == s[s.len() - 1]);
        if let Some(v) = s.last() {
            assert(v.fabs() == v);
        }
    }
}

/// Where every value is negative, the net sum is the gross one with its sign
/// turned round.
pub proof fn law_negatives_net_to_gross(s: Seq<Option<Num>>)
    requires
        forall|i: int|
            0 <= i < s.len() ==> (#[trigger] s[i] matches Some(v) ==> v.finite() && v.negative()),
    ensures
        sum_some(s).fabs() == sum_abs_some(s),
        sum_some(s).fle(Num::of(ZERO)),
    decreases s.len(),
{
    if s.len() > 0 {
        law_negatives_net_to_gross(s.drop_last());
        assert(s.last() == s[s.len() - 1]);
        if let Some(v) = s.last() {
            let (a, b) = (sum_some(s.drop_last()), sum_abs_some(s.drop_last()));
            lemma_add_negative(a, v);
        }
    }
}

/// Numbers below zero add up to one below zero, of the size of the sum of
/// their sizes.
proof fn lemma_add_negative(a: Num, v: Num)
    requires
        a.fle(Num::of(ZERO)),
        v.finite(),
        v.negative(),
    ensures
        a.fadd(v).fabs() == a.fabs().fadd(v.fabs()),
        a.fadd(v).fle(Num::of(ZERO)),
{
    reveal(Num::fadd);
    if a.finite() {
        let t: nat = a.size() + v.size();
        assert(a.fabs().size() == a.size());
        assert(v.fabs().size() == v.size());
        arith::lemma_zero_size(a);
        arith::lemma_zero_size(v);
        arith::lemma_round_zero(1);
        assert(a.units() + v.units() == -t);
        assert(a.fabs().units() + v.fabs().units() == t);
    }
}

/// A sum of finite numbers is a number.
pub proof fn lemma_sum_is_number(xs: Seq<Num>)
    requires
        forall|i: int| 0 <= i < xs.len() ==> (#[trigger] xs[i]).finite(),
    ensures
        !sum(xs).nan(),
    decreases xs.len(),
{
    if xs.len() > 0 {
        let rest = xs.drop_last();
        assert(forall|i: int| 0 <= i < rest.len() ==> rest[i] == xs[i]);
        lemma_sum_is_number(rest);
        algebra::lemma_add_finite(sum(rest), xs.last());
    }
}

/// Sums of numbers from zero on, and of NaN, are of the same kind.
pub proof fn lemma_sum_kind(xs: Seq<Num>)
    requires
        forall|i: int| 0 <= i < xs.len() ==> algebra::no_less_than_zero(#[trigger] xs[i]),
    ensures
        algebra::no_less_than_zero(sum(xs)),
    decreases xs.len(),
{
    if xs.len() > 0 {
        let rest = xs.drop_last();
        assert forall|i: int| 0 <= i < rest.len() implies algebra::no_less_than_zero(
            #[trigger] rest[i],
        ) by {
            assert(rest[i] == xs[i]);
        }
        lemma_sum_kind(rest);
        assert(xs.last() == xs[xs.len() - 1]);
        algebra::lemma_add_kind(sum(rest), xs.last());
    }
}

} // verus!
