//! Order statistics and sample moments.

use crate::algebra;
use crate::arith;
use crate::consts::{ONE, ZERO};
use crate::integral;
use crate::num::{Num, NAN_BITS};
use crate::sums;
use vstd::arithmetic::power2::*;
use vstd::prelude::*;

verus! {

/// The rank of probability `p` among `n` values.
pub open spec fn rank_of(p: Num, n: nat) -> Num {
    p.fmul(Num::whole(false, (n - 1) as nat))
}

/// The whole part of a rank; one beyond the last counts as the last.
pub open spec fn rank_index(p: Num, n: nat) -> nat {
    let lo = rank_of(p, n).ffloor().trunc_u64();
    if lo < n - 1 {
        lo as nat
    } else {
        (n - 1) as nat
    }
}

/// Linearly interpolated order statistic of an ascending sequence.
pub open spec fn quantile(sorted: Seq<Num>, p: Num) -> Num {
    let n = sorted.len();
    if n == 0 {
        Num::of(NAN_BITS)
    } else if n == 1 {
        sorted[0]
    } else {
        let lo = rank_index(p, n);
        let hi: nat = if lo + 1 < n {
            lo + 1
        } else {
            (n - 1) as nat
        };
        let frac = rank_of(p, n).fsub(Num::whole(false, lo));
        sorted[lo as int].fadd(frac.fmul(sorted[hi as int].fsub(sorted[lo as int])))
    }
}

/// Linearly interpolated order statistic of an ascending vector; NaN of none.
pub fn quantile_sorted(sorted: &Vec<Num>, p: Num) -> (r: Num)
    ensures
        r == quantile(sorted@, p),
{
    let n: usize = sorted.len();
    if n == 0 {
        return Num::of(NAN_BITS);
    }
    if n == 1 {
        return sorted[0];
    }
    let rank = p * Num::from_u64((n - 1) as u64);
    let whole: u64 = rank.floor().to_u64();
    let lo: usize = if whole < (n - 1) as u64 {
        whole as usize
    } else {
        n - 1
    };
    let hi: usize = if lo + 1 < n {
        lo + 1
    } else {
        n - 1
    };
    let frac = rank - Num::from_u64(lo as u64);
    sorted[lo] + frac * (sorted[hi] - sorted[lo])
}

/// The rank of a probability never runs beyond the last value.
pub proof fn law_rank_stays_inside(p: Num, n: nat)
    requires
        1 <= n < pow2(53),
        Num::of(ZERO).fle(p),
        p.fle(Num::of(ONE)),
    ensures
        rank_of(p, n).ffloor().trunc_u64() <= n - 1,
{
    let top = Num::whole(false, (n - 1) as nat);
    integral::lemma_whole_exact((n - 1) as nat);
    algebra::lemma_mul_is_number(p, top);
    algebra::lemma_mul_is_number(Num::of(ONE), top);
    algebra::law_mul_monotone(p, Num::of(ONE), top);
    algebra::law_mul_one(top);
    integral::lemma_floor_below(rank_of(p, n), (n - 1) as nat);
}

/// A rank from 0 to that of the last value stands at an index or between two,
/// and its place between the two lies between 0 and 1.
pub proof fn lemma_rank_place(r: Num, n: nat)
    requires
        1 <= n < pow2(53),
        Num::of(ZERO).fle(r),
        r.fle(Num::whole(false, (n - 1) as nat)),
    ensures
        r.finite(),
        r.int_part() <= n - 1,
        r.ffloor().trunc_u64() == r.int_part(),
        r.fceil().trunc_u64() == r.int_part() + if r.frac_part() > 0 {
            1int
        } else {
            0
        },
        r.frac_part() > 0 ==> r.int_part() < n - 1,
        Num::of(ZERO).fle(r.fsub(Num::whole(false, r.int_part()))),
        r.fsub(Num::whole(false, r.int_part())).fle(Num::of(ONE)),
        r.int_part() == n - 1 ==> r.feq(Num::whole(false, r.int_part())),
{
    lemma2_to64_rest();
    let top = Num::whole(false, (n - 1) as nat);
    integral::lemma_whole_exact((n - 1) as nat);
    arith::lemma_zero_size(r);
    arith::lemma_order_is_exact(r, top);
    let m = r.int_part();
    lemma_pow2_pos(1074);
    let u = pow2(1074);
    vstd::arithmetic::div_mod::lemma_fundamental_div_mod(r.size() as int, u as int);
    vstd::arithmetic::div_mod::lemma_mod_bound(r.size() as int, u as int);
    assert(u * m == m * u) by (nonlinear_arith);
    assert(m <= n - 1 && (r.frac_part() > 0 ==> m < n - 1)) by (nonlinear_arith)
        requires
            m * u + r.frac_part() == r.size(),
            r.size() <= (n - 1) * u,
            r.frac_part() >= 0,
            u > 0,
    ;
    integral::lemma_whole_exact(m);
    if r.frac_part() > 0 {
        integral::lemma_whole_exact(m + 1);
    }
    reveal(Num::whole);
    arith::lemma_round_zero(1);
    let w = Num::whole(false, m);
    assert(r.units() == r.size()) by {
        if r.negative() {
            assert(r.size() == 0);
        }
    }
    assert(w.fle(r)) by {
        arith::lemma_zero_size(w);
        lemma_units_order(w, r);
    }
    algebra::lemma_rise(w, r);
    algebra::lemma_one_size();
    assert(w.fneg().size() == w.size());
    assert(w.fneg().units() == -(m * u)) by {
        arith::lemma_zero_size(w);
    }
    algebra::lemma_sum_below(r, w.fneg(), Num::of(ONE));
    if m == n - 1 {
        assert(w == top);
    }
}

/// The place of a probability between two order statistics lies between 0 and 1.
pub proof fn lemma_place(p: Num, n: nat)
    requires
        2 <= n < pow2(53),
        Num::of(ZERO).fle(p),
        p.fle(Num::of(ONE)),
    ensures
        ({
            let (r, lo) = (rank_of(p, n), rank_index(p, n));
            &&& lo <= n - 1
            &&& r.finite() && !r.nan() && Num::of(ZERO).fle(r)
            &&& lo == r.int_part()
            &&& Num::of(ZERO).fle(r.fsub(Num::whole(false, lo)))
            &&& r.fsub(Num::whole(false, lo)).fle(Num::of(ONE))
            &&& lo == n - 1 ==> r.feq(Num::whole(false, lo))
        }),
{
    let top = Num::whole(false, (n - 1) as nat);
    integral::lemma_whole_exact((n - 1) as nat);
    algebra::lemma_mul_is_number(p, top);
    algebra::lemma_mul_is_number(Num::of(ONE), top);
    algebra::lemma_mul_is_number(Num::of(ZERO), top);
    algebra::law_mul_monotone(p, Num::of(ONE), top);
    algebra::law_mul_monotone(Num::of(ZERO), p, top);
    algebra::law_mul_one(top);
    algebra::law_zero_mul(Num::of(ZERO), top);
    lemma_rank_place(rank_of(p, n), n);
}

/// Numbers are ordered as their exact values are.
proof fn lemma_units_order(a: Num, b: Num)
    requires
        a.finite(),
        b.finite(),
        a.units() <= b.units(),
    ensures
        a.fle(b),
{
    if b.flt(a) {
        arith::lemma_order_is_exact(b, a);
        arith::lemma_zero_size(a);
        arith::lemma_zero_size(b);
        if a.negative() == b.negative() {
            if a.mag() < b.mag() {
                arith::lemma_size_order(a, b);
            } else {
                arith::lemma_size_order(b, a);
            }
        }
    }
}

/// Whether no way between neighbouring order statistics rounds beyond its end.
pub open spec fn steady(s: Seq<Num>) -> bool {
    forall|i: int| 0 <= i && i + 1 < s.len() ==> algebra::sound_gap(s[i], #[trigger] s[i + 1])
}

/// The values of a steady sequence ascend.
pub proof fn lemma_steady(s: Seq<Num>, i: int, j: int)
    requires
        steady(s),
        s.len() >= 2,
        0 <= i <= j < s.len(),
    ensures
        s[i].fle(s[j]),
        s[i].finite(),
    decreases j - i,
{
    if i + 1 < s.len() {
        assert(algebra::sound_gap(s[i], s[i + 1]));
    } else {
        assert(algebra::sound_gap(s[i - 1], s[i - 1 + 1]));
    }
    if i < j {
        lemma_steady(s, i + 1, j);
    }
}

/// A greater probability never has a lower quantile, and every quantile lies
/// between the least and the greatest value.
pub proof fn law_quantiles_never_fall(s: Seq<Num>, p: Num, q: Num)
    requires
        2 <= s.len() < pow2(53),
        steady(s),
        Num::of(ZERO).fle(p),
        p.fle(q),
        q.fle(Num::of(ONE)),
    ensures
        quantile(s, p).fle(quantile(s, q)),
        s[0].fle(quantile(s, p)),
        quantile(s, q).fle(s[s.len() - 1]),
{
    let n = s.len();
    let top = Num::whole(false, (n - 1) as nat);
    lemma_place(p, n);
    lemma_place(q, n);
    integral::lemma_whole_exact((n - 1) as nat);
    let (i, j) = (rank_index(p, n), rank_index(q, n));
    let (r, t) = (rank_of(p, n), rank_of(q, n));
    algebra::law_mul_monotone(p, q, top);
    arith::lemma_order_is_exact(r, t);
    arith::lemma_zero_size(r);
    arith::lemma_zero_size(t);
    lemma_pow2_pos(1074);
    vstd::arithmetic::div_mod::lemma_div_is_ordered(
        r.size() as int,
        t.size() as int,
        pow2(1074) as int,
    );
    lemma_steady(s, 0, i as int);
    lemma_steady(s, j as int, n - 1);
    lemma_steady(s, i as int, j as int);
    lemma_quantile_between(s, p);
    lemma_quantile_between(s, q);
    if j + 1 < n {
        lemma_steady(s, j as int + 1, n - 1);
    }
    if i == j && i + 1 < n {
        let w = Num::whole(false, i);
        integral::lemma_whole_exact(i);
        algebra::lemma_add_is_number(r, w.fneg());
        algebra::lemma_add_is_number(t, w.fneg());
        algebra::law_add_monotone(r, t, w.fneg());
        assert(algebra::sound_gap(s[i as int], s[i as int + 1]));
        algebra::lemma_blend(s[i as int], s[i as int + 1], r.fsub(w), t.fsub(w));
    } else if i < j {
        lemma_steady(s, i as int + 1, j as int);
    }
}

/// A quantile lies between the two order statistics around its rank.
proof fn lemma_quantile_between(s: Seq<Num>, p: Num)
    requires
        2 <= s.len() < pow2(53),
        steady(s),
        Num::of(ZERO).fle(p),
        p.fle(Num::of(ONE)),
    ensures
        ({
            let i = rank_index(p, s.len()) as int;
            &&& s[i].fle(quantile(s, p))
            &&& i + 1 < s.len() ==> quantile(s, p).fle(s[i + 1])
            &&& i + 1 == s.len() ==> quantile(s, p).feq(s[i])
        }),
{
    let n = s.len();
    lemma_place(p, n);
    let i = rank_index(p, n);
    let f = rank_of(p, n).fsub(Num::whole(false, i));
    lemma_steady(s, i as int, i as int);
    if i + 1 < n {
        assert(algebra::sound_gap(s[i as int], s[i as int + 1]));
        algebra::lemma_blend(s[i as int], s[i as int + 1], f, f);
    } else {
        let x = s[i as int];
        algebra::law_sub_self(x);
        algebra::law_zero_mul(Num::of(ZERO), f);
        algebra::law_mul_commutes(f, Num::of(ZERO));
        algebra::lemma_add_any_zero(x, f.fmul(Num::of(ZERO)));
    }
}

/// The squared deviations from a mean.
pub open spec fn squared_deviations(xs: Seq<Num>, mean: Num) -> Seq<Num> {
    xs.map_values(|x: Num| x.fsub(mean).fmul(x.fsub(mean)))
}

/// The mean of a sample.
pub open spec fn mean_of(xs: Seq<Num>) -> Num {
    sums::sum(xs).fdiv(Num::whole(false, xs.len()))
}

/// The unbiased variance of a sample.
pub open spec fn variance_of(xs: Seq<Num>) -> Num {
    sums::sum(squared_deviations(xs, mean_of(xs))).fdiv(
        Num::whole(false, xs.len()).fsub(Num::of(ONE)),
    )
}

/// The mean of a sample.
pub fn sample_mean(xs: &Vec<Num>) -> (r: Num)
    ensures
        r == mean_of(xs@),
{
    sums::total(xs) / Num::from_u64(xs.len() as u64)
}

/// The squared deviations from a mean, added up.
pub fn squared_deviation_sum(xs: &Vec<Num>, mean: Num) -> (r: Num)
    ensures
        r == sums::sum(squared_deviations(xs@, mean)),
{
    let mut sq: Vec<Num> = Vec::new();
    let mut i: usize = 0;
    while i < xs.len()
        invariant
            i <= xs@.len(),
            sq@ == squared_deviations(xs@.take(i as int), mean),
        decreases xs@.len() - i,
    {
        let d = xs[i] - mean;
        sq.push(d * d);
        i = i + 1;
        proof {
            assert(sq@ =~= squared_deviations(xs@.take(i as int), mean));
        }
    }
    proof {
        assert(xs@.take(i as int) =~= xs@);
    }
    sums::total(&sq)
}

/// The unbiased variance of a sample.
pub fn sample_variance(xs: &Vec<Num>) -> (r: Num)
    ensures
        r == variance_of(xs@),
{
    let mean = sample_mean(xs);
    squared_deviation_sum(xs, mean) / (Num::from_u64(xs.len() as u64) - Num::of(ONE))
}

} // verus!
