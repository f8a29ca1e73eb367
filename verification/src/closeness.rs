//! How far a rounded value is from the real number it stands for, carried
//! through sums, products and quotients.

use crate::bounds;
use crate::exact;
use crate::num::Num;
use crate::payoff;
use vstd::arithmetic::power2::*;
use vstd::prelude::*;

verus! {

/// A value is off by at most `k` roundings of `m` from `x`, which is at most `m`
/// in absolute value.
pub open spec fn close(v: Num, x: real, k: real, m: real) -> bool {
    &&& v.finite()
    &&& 0real <= k <= 0x200_0000int as real
    &&& exact::rabs(x) <= m
    &&& exact::rabs(v.exact() - x) <= (k * exact::eps()) * m
}

/// A number is close to its own value.
pub proof fn lemma_close_self(v: Num, m: real)
    requires
        v.finite(),
        exact::rabs(v.exact()) <= m,
    ensures
        close(v, v.exact(), 0real, m),
{
    assert((0real * exact::eps()) * m == 0real) by (nonlinear_arith);
}

/// Wider bounds.
pub proof fn lemma_close_more(v: Num, x: real, j: real, k: real, m: real, n: real)
    requires
        close(v, x, j, m),
        j <= k <= 0x200_0000int as real,
        m <= n,
    ensures
        close(v, x, k, n),
{
    let e = exact::eps();
    exact::lemma_times(j, k, e);
    exact::lemma_times(j * e, k * e, m);
    exact::lemma_not_negative(k, e);
    exact::lemma_times(m, n, k * e);
}

/// Few roundings are less than a millionth.
proof fn lemma_few(k: real)
    requires
        0real <= k <= 0x200_0000int as real,
    ensures
        0real <= k * exact::eps() <= 1real / 1000real,
{
    let e = exact::eps();
    exact::lemma_not_negative(k, e);
    exact::lemma_times(k, 0x200_0000int as real, e);
}

/// A value is not much greater than what it stands for.
pub proof fn lemma_close_size(v: Num, x: real, k: real, m: real)
    requires
        close(v, x, k, m),
    ensures
        exact::rabs(v.exact()) <= m + (k * exact::eps()) * m,
        exact::rabs(v.exact()) <= 2real * m,
        m >= 0real,
{
    lemma_few(k);
    exact::lemma_times(k * exact::eps(), 1real, m);
}

/// Errors of two terms add up, with one rounding more.
pub proof fn lemma_close_add(v: Num, x: real, w: Num, y: real, k: real, m: real, n: real)
    requires
        close(v, x, k, m),
        close(w, y, k, n),
        k + 2real <= 0x200_0000int as real,
        v.fadd(w).finite(),
    ensures
        close(v.fadd(w), x + y, k + 2real, m + n),
{
    let (e, f) = (exact::eps(), k * exact::eps());
    lemma_few(k);
    lemma_close_size(v, x, k, m);
    lemma_close_size(w, y, k, n);
    exact::lemma_exact_add(v, w);
    let s = v.exact() + w.exact();
    exact::lemma_times(exact::rabs(s), 2real * (m + n), e);
    payoff::lemma_dist(m, n, f);
    lemma_part(2real, e, m + n);
    payoff::lemma_dist(k, 2real, e);
    payoff::lemma_dist(f, 2real * e, m + n);
}

/// The same of a difference.
pub proof fn lemma_close_sub(v: Num, x: real, w: Num, y: real, k: real, m: real, n: real)
    requires
        close(v, x, k, m),
        close(w, y, k, n),
        k + 2real <= 0x200_0000int as real,
        v.fsub(w).finite(),
    ensures
        close(v.fsub(w), x - y, k + 2real, m + n),
{
    exact::lemma_exact_neg(w);
    assert(close(w.fneg(), -y, k, n));
    lemma_close_add(v, x, w.fneg(), -y, k, m, n);
}

/// Errors of two factors add up, with two roundings more, where the bounds are
/// not below one.
pub proof fn lemma_close_mul(
    v: Num,
    x: real,
    w: Num,
    y: real,
    j: real,
    k: real,
    m: real,
    n: real,
)
    requires
        close(v, x, j, m),
        close(w, y, k, n),
        j + k + 3real <= 0x200_0000int as real,
        m >= 1real,
        n >= 1real,
        v.fmul(w).finite(),
    ensures
        close(v.fmul(w), x * y, j + k + 3real, m * n),
        m * n >= 1real,
{
    let e = exact::eps();
    let (f, g) = (j * e, k * e);
    lemma_few(j);
    lemma_few(k);
    lemma_close_size(v, x, j, m);
    lemma_close_size(w, y, k, n);
    exact::lemma_exact_mul(v, w);
    exact::lemma_units_positive();
    exact::lemma_small();
    exact::lemma_small_is_small();
    exact::lemma_times(exact::small(), 1real, e);
    let (a, b) = (v.exact(), w.exact());
    let (da, db) = (a - x, b - y);
    let z = m * n;
    payoff::lemma_abs_mul(x, y);
    payoff::lemma_abs_mul(x, db);
    payoff::lemma_abs_mul(da, b);
    payoff::lemma_abs_mul(a, b);
    exact::lemma_times(1real, m, n);
    lemma_product_bound(exact::rabs(x), m, exact::rabs(y), n);
    lemma_product_bound(exact::rabs(x), m, exact::rabs(db), g * n);
    lemma_product_bound(exact::rabs(da), f * m, exact::rabs(b), n + g * n);
    lemma_product_bound(exact::rabs(a), m + f * m, exact::rabs(b), n + g * n);
    payoff::lemma_dist(b, y, x);
    payoff::lemma_dist(a, x, b);
    lemma_spread_product(m, n, f, g);
    lemma_error_product(j, k);
    exact::lemma_not_negative(f, g);
    let h = f + g + f * g;
    let s = exact::rabs(a * b);
    exact::lemma_times(h, 1real / 4real, z);
    exact::lemma_times(s, (5real / 4real) * z, e);
    lemma_part(5real / 4real, e, z);
    exact::lemma_times(f * g, e / 4real, z);
    lemma_part(1real / 4real, e, z);
    exact::lemma_times(1real, z, e);
    lemma_tiny_part();
    payoff::lemma_dist(j, k, e);
    payoff::lemma_dist(j + k, 3real, e);
    payoff::lemma_dist(f, g, z);
    payoff::lemma_dist(f + g, 3real * e, z);
    lemma_part(3real, e, z);
}

proof fn lemma_part(c: real, e: real, z: real)
    by (nonlinear_arith)
    ensures
        e * (c * z) == c * (e * z),
        (c * e) * z == c * (e * z),
{
}

/// Half a unit is far below a rounding of one.
proof fn lemma_tiny_part()
    ensures
        exact::tiny() <= exact::eps(),
{
    exact::lemma_small();
    exact::lemma_small_is_small();
    exact::lemma_times(exact::small(), 1real, exact::eps());
}

/// Errors of a few roundings, multiplied, are a part of one.
proof fn lemma_error_product(j: real, k: real)
    requires
        0real <= j <= 0x200_0000int as real,
        0real <= k <= 0x200_0000int as real,
    ensures
        0real <= (j * exact::eps()) * (k * exact::eps()) <= exact::eps() / 4real,
{
    let (e, t) = (exact::eps(), 0x200_0000int as real);
    exact::lemma_not_negative(j, e);
    exact::lemma_not_negative(k, e);
    exact::lemma_times(j, t, e);
    exact::lemma_times(k, t, e);
    lemma_product_bound(j * e, t * e, k * e, t * e);
}

/// Bounded factors have a bounded product.
proof fn lemma_product_bound(a: real, x: real, b: real, y: real)
    requires
        0real <= a <= x,
        0real <= b <= y,
    ensures
        0real <= a * b <= x * y,
{
    exact::lemma_not_negative(a, b);
    exact::lemma_times(a, x, b);
    exact::lemma_times(b, y, x);
}

proof fn lemma_spread_product(m: real, n: real, f: real, g: real)
    ensures
        m * (g * n) == g * (m * n),
        (f * m) * (n + g * n) == f * (m * n) + (f * g) * (m * n),
        (m + f * m) * (n + g * n) == (m * n) + (f + g + f * g) * (m * n),
{
    let z = m * n;
    lemma_shift(m, g, n);
    payoff::lemma_dist(n, g * n, f * m);
    lemma_shift(f, m, n);
    lemma_shift(f, m, g * n);
    lemma_shift(f, g, z);
    payoff::lemma_dist(m, f * m, n + g * n);
    payoff::lemma_dist(n, g * n, m);
    payoff::lemma_dist(f + g, f * g, z);
    payoff::lemma_dist(f, g, z);
}

proof fn lemma_shift(x: real, y: real, z: real)
    by (nonlinear_arith)
    ensures
        x * (y * z) == y * (x * z),
        (x * y) * z == x * (y * z),
{
}

/// 2^400: products of two such bounds are far from overflow.
pub open spec fn huge() -> real {
    pow2(400) as int as real
}

/// A value that is not huge lies within a power of two.
pub proof fn lemma_within_huge(v: Num, c: real)
    requires
        v.finite(),
        exact::rabs(v.exact()) <= c,
        c <= 2real * huge(),
    ensures
        bounds::within(v, 401),
{
    let p = bounds::power(401);
    bounds::lemma_power(401);
    exact::lemma_exact_power(p, 401);
    lemma_pow2_unfold(401);
    exact::lemma_exact_neg(p);
    exact::lemma_exact_order(v, p);
    exact::lemma_exact_order(p.fneg(), v);
}

/// Sum and difference of values that are not huge.
pub proof fn lemma_sum(v: Num, x: real, w: Num, y: real, k: real, m: real, n: real)
    requires
        close(v, x, k, m),
        close(w, y, k, n),
        k + 2real <= 0x200_0000int as real,
        m <= huge(),
        n <= huge(),
    ensures
        close(v.fadd(w), x + y, k + 2real, m + n),
        close(v.fsub(w), x - y, k + 2real, m + n),
{
    lemma_close_size(v, x, k, m);
    lemma_close_size(w, y, k, n);
    lemma_within_huge(v, 2real * m);
    lemma_within_huge(w, 2real * n);
    bounds::lemma_add_within(v, w, 401);
    bounds::lemma_add_within(v, w.fneg(), 401);
    lemma_close_add(v, x, w, y, k, m, n);
    lemma_close_sub(v, x, w, y, k, m, n);
}

/// Product of values that are not huge.
pub proof fn lemma_product(v: Num, x: real, w: Num, y: real, j: real, k: real, m: real, n: real)
    requires
        close(v, x, j, m),
        close(w, y, k, n),
        j + k + 3real <= 0x200_0000int as real,
        1real <= m <= huge(),
        1real <= n <= huge(),
    ensures
        close(v.fmul(w), x * y, j + k + 3real, m * n),
        m * n >= 1real,
{
    lemma_close_size(v, x, j, m);
    lemma_close_size(w, y, k, n);
    lemma_within_huge(v, 2real * m);
    lemma_within_huge(w, 2real * n);
    bounds::lemma_mul_within(v, w, 401, 401);
    lemma_close_mul(v, x, w, y, j, k, m, n);
}

/// A quotient by a divisor that is off by one rounding at most, where the bound
/// of the result is not below one.
pub proof fn lemma_quotient(v: Num, x: real, d: Num, y: real, k: real, m: real, n: real)
    requires
        close(v, x, k, m),
        k + 4real <= 0x200_0000int as real,
        d.finite(),
        y > 0real,
        exact::rabs(d.exact() - y) <= exact::eps() * y,
        1real <= n <= huge(),
        m <= n * y,
        1real / 0x100_0000_0000int as real <= y,
        m <= huge(),
    ensures
        close(v.fdiv(d), x / y, k + 4real, n),
{
    let e = exact::eps();
    let (a, b, q) = (v.exact(), d.exact(), v.fdiv(d));
    exact::lemma_times(e, 1real / 2real, y);
    assert(b > 0real);
    lemma_few(k);
    lemma_close_size(v, x, k, m);
    lemma_within_huge(v, 2real * m);
    // The quotient is finite.
    let p = bounds::power(-41);
    lemma_small_divisor(d);
    bounds::lemma_div_within(v, d, 401, -41);
    exact::lemma_exact_zero(Num { bits: 0 });
    exact::lemma_exact_div(v, d);
    let (z, r) = (x / y, a / b);
    exact::lemma_over(x, y);
    exact::lemma_over(a, b);
    // (r - z) b = (a - x) + z (y - b)
    payoff::lemma_dist(r, z, b);
    payoff::lemma_dist(y, b, z);
    let g = r - z;
    assert(g * b == (a - x) + z * (y - b));
    payoff::lemma_abs_mul(z, y - b);
    payoff::lemma_abs_mul(z, y);
    payoff::lemma_abs_mul(g, b);
    exact::lemma_times(exact::rabs(y - b), e * y, exact::rabs(z));
    lemma_shift(exact::rabs(z), e, y);
    exact::lemma_times(exact::rabs(x), m, e);
    let f = k * e;
    let h = f + e;
    payoff::lemma_dist(f, e, m);
    let w = exact::rabs(g);
    assert(w * b <= h * m);
    exact::lemma_not_negative(k, e);
    exact::lemma_times(m, n * y, h);
    lemma_shift(h, n, y);
    // Back from the divisor.
    assert(y <= b + 2real * (e * b)) by {
        exact::lemma_times(y, 2real * b, e);
    }
    lemma_undivide(w, b, y, h, n);
    assert(exact::rabs(z) <= n) by {
        lemma_cancel_below(exact::rabs(z), n, y);
    }
    let s = exact::rabs(r);
    assert(w <= h * n + 2real * (e * (h * n)));
    exact::lemma_not_negative(h, n);
    exact::lemma_times(h, 1real / 10real, n);
    exact::lemma_times(e, 1real / 10real, h * n);
    lemma_shift(e, h, n);
    exact::lemma_times(h, 1real / 10real, e * n);
    exact::lemma_times(s, (3real / 2real) * n, e);
    lemma_part(3real / 2real, e, n);
    lemma_tiny_part();
    exact::lemma_times(1real, n, e);
    exact::lemma_not_negative(e, n);
    payoff::lemma_dist(k, 4real, e);
    payoff::lemma_dist(f, 4real * e, n);
    payoff::lemma_dist(f, e, n);
    lemma_part(4real, e, n);
}

/// A quotient keeps its value where both are turned.
proof fn lemma_turned(v: Num, d: Num)
    requires
        v.finite(),
        d.finite(),
    ensures
        v.fneg().fdiv(d.fneg()) == v.fdiv(d),
{
    reveal(Num::fdiv);
}

/// The same of a divisor of either sign.
pub proof fn lemma_signed_quotient(v: Num, x: real, d: Num, y: real, k: real, m: real, n: real)
    requires
        close(v, x, k, m),
        k + 4real <= 0x200_0000int as real,
        d.finite(),
        exact::rabs(d.exact() - y) <= exact::eps() * exact::rabs(y),
        1real <= n <= huge(),
        m <= n * exact::rabs(y),
        1real / 0x100_0000_0000int as real <= exact::rabs(y),
        m <= huge(),
    ensures
        close(v.fdiv(d), x / y, k + 4real, n),
{
    if y > 0real {
        lemma_quotient(v, x, d, y, k, m, n);
    } else {
        exact::lemma_exact_neg(v);
        exact::lemma_exact_neg(d);
        lemma_turned(v, d);
        lemma_quotient(v.fneg(), -x, d.fneg(), -y, k, m, n);
        assert((-x) / (-y) == x / y) by (nonlinear_arith)
            requires
                y < 0real,
        ;
    }
}

/// A divisor that is not tiny.
pub proof fn lemma_small_divisor(d: Num)
    requires
        d.finite(),
        d.exact() >= 1real / 0x200_0000_0000int as real,
    ensures
        bounds::power(-41).mag() <= d.mag(),
        d.mag() > 0,
{
    let p = bounds::power(-41);
    bounds::lemma_power(-41);
    lemma2_to64_rest();
    lemma_pow2_adds(41, 1033);
    exact::lemma_real_mul(pow2(41) as int, pow2(1033) as int);
    exact::lemma_units_positive();
    assert(p.exact() == 1real / 0x200_0000_0000int as real) by {
        reveal(Num::exact);
        let (x, u) = (pow2(1033) as int as real, exact::one_units());
        let t = 0x200_0000_0000int as real;
        assert(x / u == 1real / t) by (nonlinear_arith)
            requires
                u == t * x,
                u >= 1real,
                t == 0x200_0000_0000int as real,
        {
            let v = x / u;
            assert(v * u == x);
            assert((v * t - 1real) * x == 0real);
            assert(x > 0real);
            assert(v * t == 1real);
        }
    }
    exact::lemma_exact_order(p, d);
}

/// A bound on a product with a divisor gives one on the factor.
proof fn lemma_undivide(w: real, b: real, y: real, h: real, n: real)
    requires
        w >= 0real,
        b > 0real,
        n >= 0real,
        h >= 0real,
        w * b <= h * (n * y),
        y <= b + 2real * (exact::eps() * b),
    ensures
        w <= h * n + 2real * (exact::eps() * (h * n)),
{
    let (e, c) = (exact::eps(), h * n);
    exact::lemma_not_negative(h, n);
    exact::lemma_times(y, b + 2real * (e * b), c);
    lemma_shift(h, n, y);
    assert(c * (b + 2real * (e * b)) == (c + 2real * (e * c)) * b) by (nonlinear_arith);
    lemma_cancel_below(w, c + 2real * (e * c), b);
}

/// Dividing an inequality.
proof fn lemma_cancel_below(x: real, y: real, d: real)
    by (nonlinear_arith)
    requires
        x * d <= y * d,
        d > 0real,
    ensures
        x <= y,
{
}

/// Whether `v` is the positive `x` up to `k` roundings, relatively.
pub open spec fn beside(v: Num, x: real, k: real) -> bool {
    &&& v.finite()
    &&& 0real < x <= huge()
    &&& 0real <= k <= 1000real
    &&& exact::rabs(v.exact() - x) <= (k * exact::eps()) * x
}

/// A positive number is beside its own value.
pub proof fn lemma_beside_self(v: Num)
    requires
        v.finite(),
        0real < v.exact() <= huge(),
    ensures
        beside(v, v.exact(), 0real),
{
    assert((0real * exact::eps()) * v.exact() == 0real) by (nonlinear_arith);
}

/// Half a unit is negligible beside what is not tiny.
proof fn lemma_tiny_beside(x: real)
    requires
        x >= 1real / 0x1_0000_0000_0000_0000int as real,
    ensures
        exact::tiny() <= exact::eps() * x,
{
    let b = 0x1_0000_0000_0000_0000int as real;
    let (c, s) = (b * b * b, exact::small());
    exact::lemma_small();
    exact::lemma_over(1real, c);
    assert(s <= 1real / b) by {
        assert(b * b >= 1real);
        exact::lemma_times(1real, b * b, b);
        exact::lemma_times(b, c, s);
        exact::lemma_over(1real, b);
        lemma_cancel_below(s, 1real / b, b);
    }
    exact::lemma_units_positive();
    exact::lemma_times(s, x, exact::eps());
}

/// The product of factors that are off by parts of themselves.
proof fn lemma_off_product(a: real, x: real, b: real, z: real, f: real, g: real)
    requires
        x > 0real,
        z > 0real,
        exact::rabs(a - x) <= f * x,
        exact::rabs(b - z) <= g * z,
        0real <= f <= 1real / 1000real,
        0real <= g <= 1real / 1000real,
    ensures
        exact::rabs(a * b - x * z) <= (f + g) * (x * z) + (f * (x * z)) / 1000real,
{
    let (c, d, p) = (a - x, b - z, x * z);
    assert(a * b - p == c * b + x * d) by (nonlinear_arith)
        requires
            c == a - x,
            d == b - z,
            p == x * z,
    ;
    payoff::lemma_abs_mul(c, b);
    payoff::lemma_abs_mul(x, d);
    exact::lemma_times(g, 1real / 1000real, z);
    let t = z + z / 1000real;
    exact::lemma_times(exact::rabs(c), f * x, exact::rabs(b));
    exact::lemma_not_negative(f, x);
    exact::lemma_times(exact::rabs(b), t, f * x);
    exact::lemma_times(exact::rabs(d), g * z, x);
    assert((f * x) * t == f * p + (f * p) / 1000real) by (nonlinear_arith)
        requires
            p == x * z,
            t == z + z / 1000real,
    ;
    lemma_shift(x, g, z);
    payoff::lemma_dist(f, g, p);
}

/// The product of what is beside.
pub proof fn lemma_beside_mul(v: Num, x: real, w: Num, z: real, j: real, k: real)
    requires
        beside(v, x, j),
        beside(w, z, k),
        j + k + 4real <= 1000real,
        1real / 0x1_0000_0000_0000_0000int as real <= x * z <= huge(),
    ensures
        beside(v.fmul(w), x * z, j + k + 4real),
{
    let e = exact::eps();
    let (a, b, p, f, g) = (v.exact(), w.exact(), x * z, j * e, k * e);
    lemma_few(j);
    lemma_few(k);
    exact::lemma_units_positive();
    exact::lemma_times(f, 1real, x);
    exact::lemma_times(g, 1real, z);
    lemma_within_huge(v, 2real * x);
    lemma_within_huge(w, 2real * z);
    bounds::lemma_mul_within(v, w, 401, 401);
    exact::lemma_exact_mul(v, w);
    lemma_off_product(a, x, b, z, f, g);
    lemma_tiny_beside(p);
    exact::lemma_not_negative(f, p);
    exact::lemma_times(j, 1000real, e);
    exact::lemma_times(f, 1000real * e, p);
    assert((1000real * e) * p == 1000real * (e * p)) by (nonlinear_arith);
    exact::lemma_times(f + g, 1real / 100real, p);
    exact::lemma_times(f, 1real / 100real, p);
    exact::lemma_times(exact::rabs(a * b), 2real * p, e);
    assert(e * (2real * p) == 2real * (e * p)) by (nonlinear_arith);
    payoff::lemma_dist(j, k, e);
    payoff::lemma_dist(j + k, 4real, e);
    payoff::lemma_dist((j + k) * e, 4real * e, p);
    lemma_part(4real, e, p);
}

/// The quotient of what is beside.
pub proof fn lemma_beside_div(v: Num, x: real, d: Num, y: real, j: real, k: real)
    requires
        beside(v, x, j),
        beside(d, y, k),
        j + k + 6real <= 1000real,
        1real / 0x100_0000_0000int as real <= y,
        1real / 0x1_0000_0000_0000_0000int as real <= x / y <= huge(),
    ensures
        beside(v.fdiv(d), x / y, j + k + 6real),
{
    let e = exact::eps();
    let (a, b, z, f, g) = (v.exact(), d.exact(), x / y, j * e, k * e);
    lemma_few(j);
    lemma_few(k);
    exact::lemma_units_positive();
    exact::lemma_times(f, 1real, x);
    exact::lemma_times(g, 1real / 1000real, y);
    lemma_within_huge(v, 2real * x);
    lemma_small_divisor(d);
    bounds::lemma_div_within(v, d, 401, -41);
    exact::lemma_exact_div(v, d);
    let r = a / b;
    exact::lemma_over(x, y);
    exact::lemma_over(a, b);
    // (r - z) b = (a - x) + z (y - b)
    let c = r - z;
    payoff::lemma_dist(r, z, b);
    payoff::lemma_dist(y, b, z);
    assert(c * b == (a - x) + z * (y - b));
    payoff::lemma_abs_mul(c, b);
    payoff::lemma_abs_mul(z, y - b);
    exact::lemma_times(exact::rabs(y - b), g * y, z);
    lemma_shift(z, g, y);
    let h = f + g;
    payoff::lemma_dist(f, g, x);
    assert(exact::rabs(c) * b <= h * x);
    // b is nearly y
    assert(y <= b + b / 500real);
    exact::lemma_not_negative(h, z);
    let u = h * z;
    assert(h * x == u * y) by (nonlinear_arith)
        requires
            x == z * y,
            u == h * z,
    ;
    exact::lemma_times(y, b + b / 500real, u);
    assert(u * (b + b / 500real) == (u + u / 500real) * b) by (nonlinear_arith);
    lemma_cancel_below(exact::rabs(c), u + u / 500real, b);
    // Few roundings.
    payoff::lemma_dist(j, k, e);
    exact::lemma_times(j + k, 1000real, e);
    exact::lemma_times(h, 1000real * e, z);
    assert((1000real * e) * z == 1000real * (e * z)) by (nonlinear_arith);
    exact::lemma_times(h, 1real / 100real, z);
    exact::lemma_times(exact::rabs(r), 2real * z, e);
    assert(e * (2real * z) == 2real * (e * z)) by (nonlinear_arith);
    lemma_tiny_beside(z);
    assert(u / 500real <= 2real * (e * z));
    payoff::lemma_dist(j + k, 6real, e);
    payoff::lemma_dist((j + k) * e, 6real * e, z);
    lemma_part(6real, e, z);
}

} // verus!
