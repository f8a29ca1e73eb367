//! Numbers written as fractions: which number stands for 0.62, and its exact
//! value.

use crate::exact;
use crate::num::Num;
use crate::rounding::{self, BINADE, INF_MAG};
use vstd::arithmetic::div_mod::*;
use vstd::arithmetic::power2::*;
use vstd::prelude::*;

verus! {

/// The number nearest to `n / d`.
pub open spec fn decimal(n: nat, d: nat) -> Num {
    Num::nearest(false, n * pow2(1074), d)
}

/// A pattern is the number nearest to a fraction: `j` is the exponent of its
/// last digit, and no other number is as near.
pub proof fn lemma_decimal(bits: u64, n: nat, d: nat, j: nat)
    requires
        BINADE <= bits < INF_MAG,
        j < 1074,
        bits as nat / (BINADE as nat) == 1075 - j,
        d > 0,
        n * pow2(j) >= d * 0x10_0000_0000_0000,
        n * pow2(j) < d * 0x20_0000_0000_0000,
        ({
            let e = Num::of(bits).significand() * d - n * pow2(j);
            2 * e < d && -2 * e < d
        }),
    ensures
        Num::of(bits) == decimal(n, d),
        Num::of(bits).finite(),
        !Num::of(bits).negative(),
        ({
            let (v, x) = (Num::of(bits), (n as int as real) / (d as int as real));
            &&& exact::rabs(v.exact() - x) <= exact::eps() * x
            &&& v.significand() * d == n * pow2(j) ==> v.exact() == x
        }),
        decimal(n, d).finite(),
        !decimal(n, d).negative(),
{
    let v = Num::of(bits);
    let (m, k) = (v.significand(), (1074 - j) as nat);
    assert(v.mag() == bits);
    assert(v.scale() == k) by (nonlinear_arith)
        requires
            bits as nat / (BINADE as nat) == 1075 - j,
            k == 1074 - j,
            j < 1074,
            v.mag() == bits,
            BINADE == 0x10_0000_0000_0000,
            v.scale() == (if v.mag() < 2 * BINADE {
                0
            } else {
                v.mag() / (BINADE as nat) - 1
            }),
    ;
    lemma_pow2_adds(j, k);
    lemma_pow2_adds(k, 53);
    lemma_pow2_adds(k, 52);
    lemma2_to64();
    lemma2_to64_rest();
    lemma_pow2_pos(k);
    lemma_pow2_pos(j);
    let (p, q, w) = (pow2(k), pow2(j), n * pow2(j));
    assert(n * pow2(1074) == w * p) by (nonlinear_arith)
        requires
            w == n * q,
            pow2(1074) == q * p,
    ;
    assert(w * p < d * (p * 0x20_0000_0000_0000) && w * p >= d * (p * 0x10_0000_0000_0000))
        by (nonlinear_arith)
        requires
            w < d * 0x20_0000_0000_0000,
            w >= d * 0x10_0000_0000_0000,
            p > 0,
    ;
    rounding::lemma_scale(w * p, d, k);
    rounding::lemma_nearest_scale(w, d, p);
    lemma_nearest(w, d, m);
    assert(rounding::round_mag(w * p, d) == k * BINADE + m);
    assert(v.mag() == k * BINADE + m) by {
        lemma_fundamental_div_mod(bits as int, BINADE as int);
    }
    // The exact value.
    reveal(Num::exact);
    exact::lemma_units_positive();
    exact::lemma_real_mul(m as int, p as int);
    exact::lemma_real_mul(q as int, p as int);
    let (a, b, c, u) = (m as int as real, p as int as real, q as int as real, exact::one_units());
    assert(((a * b) / u) * c == a) by (nonlinear_arith)
        requires
            u == c * b,
            u >= 1real,
            b > 0real,
    {
        let x = (a * b) / u;
        assert(x * u == a * b);
        assert((x * c - a) * b == 0real);
    }
    exact::lemma_real_mul(n as int, q as int);
    exact::lemma_real_mul(m as int, d as int);
    lemma_value(v.exact(), a, c, n as int as real, d as int as real);
}

/// The value of a fraction that is rounded to `m` parts of `q`.
proof fn lemma_value(v: real, m: real, q: real, n: real, d: real)
    requires
        v * q == m,
        q >= 1real,
        d >= 1real,
        n * q >= d * (0x10_0000_0000_0000int as real),
        2real * (m * d - n * q) < d,
        -2real * (m * d - n * q) < d,
    ensures
        exact::rabs(v - n / d) <= exact::eps() * (n / d),
        m * d == n * q ==> v == n / d,
{
    let x = n / d;
    exact::lemma_over(n, d);
    let w = q * d;
    assert((v - x) * w == m * d - n * q) by (nonlinear_arith)
        requires
            v * q == m,
            x * d == n,
            w == q * d,
    ;
    assert(x * w == n * q) by (nonlinear_arith)
        requires
            x * d == n,
            w == q * d,
    ;
    let (e, y) = (exact::eps(), exact::rabs(v - x));
    assert(w > 0real) by (nonlinear_arith)
        requires
            w == q * d,
            q >= 1real,
            d >= 1real,
    ;
    assert(y * w == exact::rabs((v - x) * w)) by (nonlinear_arith)
        requires
            y == exact::rabs(v - x),
            w > 0real,
    ;
    assert(y <= e * x) by (nonlinear_arith)
        requires
            2real * (y * w) <= d,
            x * w >= d * (0x10_0000_0000_0000int as real),
            e == 1real / (0x20_0000_0000_0000int as real),
            w > 0real,
    {
        assert((e * x) * w == e * (x * w));
        assert(e * (x * w) >= e * (d * (0x10_0000_0000_0000int as real)));
        assert((y - e * x) * w <= 0real);
    }
    if m * d == n * q {
        assert(v == x) by (nonlinear_arith)
            requires
                (v - x) * w == 0real,
                w > 0real,
        ;
    }
}

/// The nearest integer.
proof fn lemma_nearest(w: nat, d: nat, m: nat)
    requires
        d > 0,
        2 * (m * d - w) < d,
        -2 * (m * d - w) < d,
    ensures
        rounding::nearest_even(w, d) == m,
{
    let (f, r) = (w / d, w % d);
    lemma_fundamental_div_mod(w as int, d as int);
    lemma_mod_bound(w as int, d as int);
    assert(m == f || m == f + 1) by (nonlinear_arith)
        requires
            w == d * f + r,
            0 <= r < d,
            2 * (m * d - w) < d,
            -2 * (m * d - w) < d,
    ;
    assert(m * d - w == if m == f {
        -r
    } else {
        d - r
    }) by (nonlinear_arith)
        requires
            w == d * f + r,
            m == f || m == f + 1,
    ;
}

} // verus!
