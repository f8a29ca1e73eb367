//! The fitted smile is the least-squares parabola of its points: the residuals
//! of the fit are orthogonal to one, x and x squared up to rounding, so points
//! on a parabola are given back.

use crate::algebra;
use crate::bounds;
use crate::closeness::{self, close};
use crate::consts::ZERO;
use crate::decimal;
use crate::exact;
use crate::integral;
use crate::num::Num;
use crate::payoff;
use crate::rnd::{self, SmileFit, SmilePoint, SmileSums};
use vstd::arithmetic::power2::*;
use vstd::prelude::*;

verus! {

/// A power of a real number.
pub open spec fn rpow(x: real, k: nat) -> real
    decreases k,
{
    if k == 0 {
        1real
    } else {
        rpow(x, (k - 1) as nat) * x
    }
}

/// Sum of the `k`-th powers of the first `n` logarithms.
pub open spec fn moment(logs: Seq<Num>, n: nat, k: nat) -> real
    decreases n,
{
    if n == 0 {
        0real
    } else {
        moment(logs, (n - 1) as nat, k) + rpow(logs[n - 1].exact(), k)
    }
}

/// The same sum, weighted with the vols.
pub open spec fn vol_moment(smile: Seq<SmilePoint>, logs: Seq<Num>, n: nat, k: nat) -> real
    decreases n,
{
    if n == 0 {
        0real
    } else {
        vol_moment(smile, logs, (n - 1) as nat, k) + rpow(logs[n - 1].exact(), k)
            * smile[n - 1].iv.exact()
    }
}

/// The value of a parabola.
pub open spec fn parabola(a: real, b: real, c: real, x: real) -> real {
    a + b * x + c * (x * x)
}

/// Sum of the first `n` residuals of a parabola, each times the `k`-th power of
/// its logarithm.
pub open spec fn residual(
    smile: Seq<SmilePoint>,
    logs: Seq<Num>,
    n: nat,
    k: nat,
    a: real,
    b: real,
    c: real,
) -> real
    decreases n,
{
    if n == 0 {
        0real
    } else {
        let x = logs[n - 1].exact();
        residual(smile, logs, (n - 1) as nat, k, a, b, c) + (parabola(a, b, c, x)
            - smile[n - 1].iv.exact()) * rpow(x, k)
    }
}

/// Determinant of a matrix of real numbers.
pub open spec fn rdet(
    a: (real, real, real),
    b: (real, real, real),
    c: (real, real, real),
) -> real {
    a.0 * (b.1 * c.2 - b.2 * c.1) - a.1 * (b.0 * c.2 - b.2 * c.0) + a.2 * (b.0 * c.1 - b.1 * c.0)
}

/// Determinant of the normal equations.
pub open spec fn system(logs: Seq<Num>, n: nat) -> real {
    let (s0, s1, s2) = (moment(logs, n, 0), moment(logs, n, 1), moment(logs, n, 2));
    let (s3, s4) = (moment(logs, n, 3), moment(logs, n, 4));
    rdet((s0, s1, s2), (s1, s2, s3), (s2, s3, s4))
}

/// Whether the points are numbers of moderate size: logarithms and vols up to
/// `w`, and not too many.
pub open spec fn moderate(smile: Seq<SmilePoint>, logs: Seq<Num>, w: real) -> bool {
    &&& 1real <= w <= 1024real
    &&& 1 <= smile.len() <= 0x1_0000
    &&& logs.len() == smile.len()
    &&& forall|i: int|
        0 <= i < logs.len() ==> (#[trigger] logs[i]).finite() && exact::rabs(logs[i].exact()) <= w
    &&& forall|i: int|
        0 <= i < smile.len() ==> (#[trigger] smile[i]).iv.finite() && exact::rabs(
            smile[i].iv.exact(),
        ) <= w
}

/// Bound of every sum of the normal equations.
pub open spec fn reach(n: nat, w: real) -> real {
    (n as int as real) * ((w * w) * (w * w))
}

/// How far a determinant may be off.
pub open spec fn det_error(n: nat, w: real) -> real {
    let b = reach(n, w);
    (((6 * n + 50) as int as real) * exact::eps()) * (6real * ((b * b) * b))
}

/// A small value.
proof fn lemma_rpow(x: real)
    ensures
        rpow(x, 0) == 1real,
        rpow(x, 1) == x,
        rpow(x, 2) == x * x,
        rpow(x, 3) == (x * x) * x,
        rpow(x, 4) == (x * x) * (x * x),
{
    reveal_with_fuel(rpow, 5);
    assert(((x * x) * x) * x == (x * x) * (x * x)) by (nonlinear_arith);
}

/// The bounds that are used.
proof fn lemma_reach(n: nat, w: real)
    requires
        1real <= w <= 1024real,
        n <= 0x1_0000,
    ensures
        1real <= w * w <= (w * w) * (w * w) <= 0x100_0000_0000int as real,
        (w * w) * w <= (w * w) * (w * w),
        w <= w * w,
        1real <= (w * w) * w,
        n >= 1 ==> 1real <= (w * w) * (w * w) <= reach(n, w),
        0real <= reach(n, w) <= 0x100_0000_0000_0000int as real,
        reach(n + 1, w) == reach(n, w) + (w * w) * (w * w),
        n >= 1 ==> n as int as real <= reach(n, w),
        0x100_0000_0000_0000int as real <= closeness::huge(),
{
    let v = w * w;
    exact::lemma_times(1real, w, w);
    exact::lemma_times(w, 1024real, w);
    assert(v <= 1024real * 1024real);
    exact::lemma_times(1real, v, v);
    exact::lemma_times(v, 1024real * 1024real, v);
    exact::lemma_times(w, v, v);
    exact::lemma_times(1real, w, v);
    let (x, q) = (n as int as real, v * v);
    exact::lemma_times(x, 0x1_0000int as real, q);
    exact::lemma_not_negative(x, q);
    if n >= 1 {
        exact::lemma_times(1real, x, q);
        exact::lemma_times(1real, q, x);
    }
    payoff::lemma_dist(x, 1real, q);
    lemma2_to64_rest();
    lemma_pow2_strictly_increases(56, 400);
}

/// What one point adds to the sums.
proof fn lemma_terms(x: Num, y: Num, w: real)
    requires
        1real <= w <= 1024real,
        x.finite(),
        y.finite(),
        exact::rabs(x.exact()) <= w,
        exact::rabs(y.exact()) <= w,
    ensures
        ({
            let q = (w * w) * (w * w);
            let (a, b, x2) = (x.exact(), y.exact(), x.fmul(x));
            &&& close(x, rpow(a, 1), 9real, q)
            &&& close(x2, rpow(a, 2), 9real, q)
            &&& close(x2.fmul(x), rpow(a, 3), 9real, q)
            &&& close(x2.fmul(x2), rpow(a, 4), 9real, q)
            &&& close(y, rpow(a, 0) * b, 9real, q)
            &&& close(x.fmul(y), rpow(a, 1) * b, 9real, q)
            &&& close(x2.fmul(y), rpow(a, 2) * b, 9real, q)
        }),
{
    let (a, b, x2, q) = (x.exact(), y.exact(), x.fmul(x), (w * w) * (w * w));
    lemma_reach(1, w);
    lemma_rpow(a);
    closeness::lemma_close_self(x, w);
    closeness::lemma_close_self(y, w);
    closeness::lemma_product(x, a, x, a, 0real, 0real, w, w);
    closeness::lemma_product(x2, a * a, x, a, 3real, 0real, w * w, w);
    closeness::lemma_product(x2, a * a, x2, a * a, 3real, 3real, w * w, w * w);
    closeness::lemma_product(x, a, y, b, 0real, 0real, w, w);
    closeness::lemma_product(x2, a * a, y, b, 3real, 0real, w * w, w);
    closeness::lemma_close_more(x, a, 0real, 9real, w, q);
    closeness::lemma_close_more(y, b, 0real, 9real, w, q);
    closeness::lemma_close_more(x2, a * a, 3real, 9real, w * w, q);
    closeness::lemma_close_more(x2.fmul(x), (a * a) * a, 6real, 9real, (w * w) * w, q);
    closeness::lemma_close_more(x.fmul(y), a * b, 3real, 9real, w * w, q);
    closeness::lemma_close_more(x2.fmul(y), (a * a) * b, 6real, 9real, (w * w) * w, q);
    assert(1real * b == b);
}

/// The sums of the normal equations are close to the exact ones.
proof fn lemma_sums(smile: Seq<SmilePoint>, logs: Seq<Num>, w: real, n: nat)
    requires
        moderate(smile, logs, w),
        n <= smile.len(),
    ensures
        ({
            let s = SmileSums::of_points(smile, logs, n);
            let (k, b) = ((2 * n + 9) as int as real, reach(n, w));
            &&& close(s.x, moment(logs, n, 1), k, b)
            &&& close(s.x2, moment(logs, n, 2), k, b)
            &&& close(s.x3, moment(logs, n, 3), k, b)
            &&& close(s.x4, moment(logs, n, 4), k, b)
            &&& close(s.y, vol_moment(smile, logs, n, 0), k, b)
            &&& close(s.xy, vol_moment(smile, logs, n, 1), k, b)
            &&& close(s.x2y, vol_moment(smile, logs, n, 2), k, b)
        }),
    decreases n,
{
    let s = SmileSums::of_points(smile, logs, n);
    lemma_reach(n, w);
    if n == 0 {
        let z = Num::of(ZERO);
        exact::lemma_exact_zero(z);
        assert((9real * exact::eps()) * 0real == 0real) by (nonlinear_arith);
        assert(reach(0, w) == 0real) by (nonlinear_arith)
            requires
                reach(0, w) == 0real * ((w * w) * (w * w)),
        ;
    } else {
        let m = (n - 1) as nat;
        lemma_sums(smile, logs, w, m);
        lemma_reach(m, w);
        let (x, y) = (logs[n - 1], smile[n - 1].iv);
        lemma_terms(x, y, w);
        let (a, b) = (x.exact(), y.exact());
        let (k, r, q) = ((2 * m + 9) as int as real, reach(m, w), (w * w) * (w * w));
        let p = SmileSums::of_points(smile, logs, m);
        let x2 = x.fmul(x);
        lemma_one_more(p.x, moment(logs, m, 1), x, rpow(a, 1), k, r, q);
        lemma_one_more(p.x2, moment(logs, m, 2), x2, rpow(a, 2), k, r, q);
        lemma_one_more(p.x3, moment(logs, m, 3), x2.fmul(x), rpow(a, 3), k, r, q);
        lemma_one_more(p.x4, moment(logs, m, 4), x2.fmul(x2), rpow(a, 4), k, r, q);
        lemma_one_more(p.y, vol_moment(smile, logs, m, 0), y, rpow(a, 0) * b, k, r, q);
        lemma_one_more(p.xy, vol_moment(smile, logs, m, 1), x.fmul(y), rpow(a, 1) * b, k, r, q);
        lemma_one_more(p.x2y, vol_moment(smile, logs, m, 2), x2.fmul(y), rpow(a, 2) * b, k, r, q);
    }
}

/// One more term of a sum.
proof fn lemma_one_more(s: Num, x: real, t: Num, y: real, k: real, r: real, q: real)
    requires
        close(s, x, k, r),
        close(t, y, 9real, q),
        9real <= k <= 1_000_000real,
        r <= closeness::huge(),
        q <= closeness::huge(),
    ensures
        close(s.fadd(t), x + y, k + 2real, r + q),
{
    closeness::lemma_close_more(t, y, 9real, k, q, q);
    closeness::lemma_sum(s, x, t, y, k, r, q);
}

/// A determinant is close to the exact one.
proof fn lemma_det(
    a: (Num, Num, Num),
    b: (Num, Num, Num),
    c: (Num, Num, Num),
    x: (real, real, real),
    y: (real, real, real),
    z: (real, real, real),
    k: real,
    m: real,
)
    requires
        close(a.0, x.0, k, m) && close(a.1, x.1, k, m) && close(a.2, x.2, k, m),
        close(b.0, y.0, k, m) && close(b.1, y.1, k, m) && close(b.2, y.2, k, m),
        close(c.0, z.0, k, m) && close(c.1, z.1, k, m) && close(c.2, z.2, k, m),
        k <= 1_000_000real,
        1real <= m <= 0x100_0000_0000_0000int as real,
    ensures
        close(rnd::det3(a, b, c), rdet(x, y, z), 3real * k + 12real, 6real * ((m * m) * m)),
        m * m <= closeness::huge(),
        6real * ((m * m) * m) <= closeness::huge(),
{
    let t = 0x100_0000_0000_0000int as real;
    lemma2_to64_rest();
    lemma_pow2_adds(56, 56);
    lemma_pow2_adds(112, 56);
    lemma_pow2_adds(168, 3);
    lemma_pow2_strictly_increases(171, 400);
    exact::lemma_real_mul(pow2(56) as int, pow2(56) as int);
    exact::lemma_real_mul(pow2(112) as int, pow2(56) as int);
    exact::lemma_times(1real, m, m);
    exact::lemma_times(m, t, m);
    exact::lemma_times(m, t, t);
    let v = m * m;
    exact::lemma_times(m, t, v);
    exact::lemma_times(v, t * t, t);
    exact::lemma_times(1real, v, m);
    let u = v * m;
    assert(pow2(3) == 8) by {
        lemma2_to64();
    }
    assert(t * t == pow2(112) as int as real);
    assert((t * t) * t == pow2(168) as int as real);
    assert(v <= t * t && u <= (t * t) * t);
    assert(pow2(171) as int as real == 8real * (pow2(168) as int as real));
    assert(6real * u <= closeness::huge());
    exact::lemma_times(1real, m, v);
    lemma_minor(b.1, b.2, c.1, c.2, y.1, y.2, z.1, z.2, k, m);
    lemma_minor(b.0, b.2, c.0, c.2, y.0, y.2, z.0, z.2, k, m);
    lemma_minor(b.0, b.1, c.0, c.1, y.0, y.1, z.0, z.1, k, m);
    let (p, q, r) = (
        b.1.fmul(c.2).fsub(b.2.fmul(c.1)),
        b.0.fmul(c.2).fsub(b.2.fmul(c.0)),
        b.0.fmul(c.1).fsub(b.1.fmul(c.0)),
    );
    let (pr, qr, rr) = (
        y.1 * z.2 - y.2 * z.1,
        y.0 * z.2 - y.2 * z.0,
        y.0 * z.1 - y.1 * z.0,
    );
    closeness::lemma_product(a.0, x.0, p, pr, k, 2real * k + 5real, m, 2real * v);
    closeness::lemma_product(a.1, x.1, q, qr, k, 2real * k + 5real, m, 2real * v);
    closeness::lemma_product(a.2, x.2, r, rr, k, 2real * k + 5real, m, 2real * v);
    assert(m * (2real * v) == 2real * u) by (nonlinear_arith)
        requires
            u == v * m,
    ;
    let (i, j, l) = (a.0.fmul(p), a.1.fmul(q), a.2.fmul(r));
    let h = 3real * k + 8real;
    closeness::lemma_sum(i, x.0 * pr, j, x.1 * qr, h, 2real * u, 2real * u);
    closeness::lemma_close_more(l, x.2 * rr, h, h + 2real, 2real * u, 2real * u);
    closeness::lemma_sum(
        i.fsub(j),
        x.0 * pr - x.1 * qr,
        l,
        x.2 * rr,
        h + 2real,
        4real * u,
        2real * u,
    );
}

/// A determinant of two rows is close to the exact one.
proof fn lemma_minor(
    a: Num,
    b: Num,
    c: Num,
    d: Num,
    x: real,
    y: real,
    z: real,
    w: real,
    k: real,
    m: real,
)
    requires
        close(a, x, k, m) && close(b, y, k, m) && close(c, z, k, m) && close(d, w, k, m),
        k <= 1_000_000real,
        1real <= m <= closeness::huge(),
        m * m <= closeness::huge(),
    ensures
        close(a.fmul(d).fsub(b.fmul(c)), x * w - y * z, 2real * k + 5real, 2real * (m * m)),
{
    closeness::lemma_product(a, x, d, w, k, k, m, m);
    closeness::lemma_product(b, y, c, z, k, k, m, m);
    closeness::lemma_sum(a.fmul(d), x * w, b.fmul(c), y * z, 2real * k + 3real, m * m, m * m);
}

/// The coefficients of a fit times the determinant, in real numbers.
pub open spec fn numerators(smile: Seq<SmilePoint>, logs: Seq<Num>) -> (real, real, real) {
    let n = smile.len();
    let (s0, s1, s2) = (moment(logs, n, 0), moment(logs, n, 1), moment(logs, n, 2));
    let (s3, s4) = (moment(logs, n, 3), moment(logs, n, 4));
    let (t0, t1, t2) = (
        vol_moment(smile, logs, n, 0),
        vol_moment(smile, logs, n, 1),
        vol_moment(smile, logs, n, 2),
    );
    (
        rdet((t0, s1, s2), (t1, s2, s3), (t2, s3, s4)),
        rdet((s0, t0, s2), (s1, t1, s3), (s2, t2, s4)),
        rdet((s0, s1, t0), (s1, s2, t1), (s2, s3, t2)),
    )
}

/// Whether the normal equations are far enough from singular: beyond what
/// rounding may hide, and beyond 2^-38.
pub open spec fn solvable(logs: Seq<Num>, n: nat, w: real) -> bool {
    exact::rabs(system(logs, n)) >= 1real / (0x40_0000_0000int as real) + det_error(n, w)
}

/// The number of points is the sum of the zeroth powers.
proof fn lemma_count(logs: Seq<Num>, n: nat)
    ensures
        moment(logs, n, 0) == n as int as real,
    decreases n,
{
    if n > 0 {
        lemma_count(logs, (n - 1) as nat);
        lemma_rpow(logs[n - 1].exact());
    }
}

/// A quotient of two determinants, times the second.
proof fn lemma_coefficient(p: Num, x: real, d: Num, y: real, k: real, m: real)
    requires
        close(p, x, k, m),
        close(d, y, k, m),
        k <= 2_000_000real,
        1real <= m <= closeness::huge(),
        exact::rabs(y) >= 1real / (0x40_0000_0000int as real) + (k * exact::eps()) * m,
    ensures
        !d.fabs().fle(Num::of(rnd::RND_DET_EPS)),
        p.fdiv(d).finite(),
        exact::rabs(p.fdiv(d).exact() * y - x) <= (((k + 4real) * exact::eps()) * m) * (1real
            + exact::rabs(p.fdiv(d).exact())),
{
    let e = exact::eps();
    let (a, b, q) = (p.exact(), d.exact(), p.fdiv(d));
    // The divisor is above the threshold.
    let small = bounds::power(-39);
    let eps = Num::of(rnd::RND_DET_EPS);
    lemma_small_power();
    exact::lemma_exact_neg(d);
    exact::lemma_exact_zero(Num::of(ZERO));
    exact::lemma_exact_order(Num::of(ZERO), d);
    exact::lemma_exact_order(d, Num::of(ZERO));
    assert(d.fabs().finite() && d.fabs().exact() == exact::rabs(b)) by {
        if d.negative() {
            assert(d.fabs() == d.fneg());
        } else {
            assert(d.fabs() == d);
        }
    }
    exact::lemma_exact_order(d.fabs(), small);
    exact::lemma_exact_order(small, d.fabs());
    assert(eps.flt(small));
    // The quotient is finite.
    closeness::lemma_close_size(p, x, k, m);
    closeness::lemma_close_size(d, y, k, m);
    closeness::lemma_within_huge(p, 2real * m);
    bounds::lemma_power(401);
    bounds::lemma_div_within(p, d, 401, -39);
    exact::lemma_exact_div(p, d);
    let r = a / b;
    assert(r * b == a) by (nonlinear_arith)
        requires
            r == a / b,
            b != 0real,
    ;
    let c = q.exact();
    let miss = c - r;
    // c y - x = (c - r) b + (a - x) + c (y - b)
    payoff::lemma_dist(c, r, b);
    payoff::lemma_dist(y, b, c);
    assert(c * y - x == miss * b + (a - x) + c * (y - b));
    payoff::lemma_abs_mul(miss, b);
    payoff::lemma_abs_mul(c, y - b);
    payoff::lemma_abs_mul(r, b);
    let (g, h) = (exact::rabs(r), exact::rabs(b));
    exact::lemma_times(exact::rabs(miss), e * g + exact::tiny(), h);
    payoff::lemma_dist(e * g, exact::tiny(), h);
    lemma_regroup(e, g, h);
    exact::lemma_times(exact::rabs(a), 2real * m, e);
    exact::lemma_units_positive();
    exact::lemma_small();
    exact::lemma_small_is_small();
    exact::lemma_times(exact::small(), 1real, e);
    exact::lemma_times(exact::tiny(), e, h);
    exact::lemma_times(h, 2real * m, e);
    let f = (k * e) * m;
    exact::lemma_times(exact::rabs(y - b), f, exact::rabs(c));
    lemma_total(k, e, m, exact::rabs(c), f);
}

proof fn lemma_regroup(e: real, g: real, h: real)
    by (nonlinear_arith)
    ensures
        (e * g) * h == e * (g * h),
{
}

/// The errors of a coefficient together.
proof fn lemma_total(k: real, e: real, m: real, c: real, f: real)
    requires
        f == (k * e) * m,
        c >= 0real,
        m >= 0real,
        e >= 0real,
    ensures
        e * (2real * m) + e * (2real * m) + f + c * f <= (((k + 4real) * e) * m) * (1real + c),
{
    let z = e * m;
    let t = ((k + 4real) * e) * m;
    assert(t == f + 4real * z) by (nonlinear_arith)
        requires
            t == ((k + 4real) * e) * m,
            f == (k * e) * m,
            z == e * m,
    ;
    assert(e * (2real * m) == 2real * z) by (nonlinear_arith)
        requires
            z == e * m,
    ;
    exact::lemma_not_negative(e, m);
    exact::lemma_not_negative(z, c);
    payoff::lemma_dist(1real, c, t);
    payoff::lemma_dist(f, 4real * z, c);
    assert((4real * z) * c == 4real * (z * c)) by (nonlinear_arith);
    assert(f * c == c * f) by (nonlinear_arith);
}

/// 2^-39 is above the threshold of a singular system.
proof fn lemma_small_power()
    ensures
        bounds::power(-39).finite(),
        bounds::power(-39).exact() == 1real / (0x80_0000_0000int as real),
        !bounds::power(-39).negative(),
        Num::of(rnd::RND_DET_EPS).flt(bounds::power(-39)),
        bounds::power(-39).mag() == 984 * 0x10_0000_0000_0000,
{
    bounds::lemma_power(-39);
    reveal(Num::exact);
    exact::lemma_units_positive();
    lemma2_to64_rest();
    lemma_pow2_adds(39, 1035);
    exact::lemma_real_mul(pow2(39) as int, pow2(1035) as int);
    let (x, u) = (pow2(1035) as int as real, exact::one_units());
    let t = 0x80_0000_0000int as real;
    assert(x / u == 1real / t) by (nonlinear_arith)
        requires
            u == t * x,
            u >= 1real,
            t == 0x80_0000_0000int as real,
    {
        let v = x / u;
        assert(v * u == x);
        assert((v * t - 1real) * x == 0real);
        assert(x > 0real);
        assert(v * t == 1real);
    }
}

/// The coefficients of a fit are those of the least-squares parabola, up to
/// rounding.
proof fn lemma_fit(smile: Seq<SmilePoint>, logs: Seq<Num>, iv_base: Num, w: real)
    requires
        moderate(smile, logs, w),
        solvable(logs, smile.len(), w),
    ensures
        ({
            let f = SmileFit::of_smile(smile, logs, iv_base);
            let (d, n) = (system(logs, smile.len()), numerators(smile, logs));
            let e = det_error(smile.len(), w);
            &&& f.a.finite() && f.b.finite() && f.c.finite()
            &&& exact::rabs(f.a.exact() * d - n.0) <= e * (1real + exact::rabs(f.a.exact()))
            &&& exact::rabs(f.b.exact() * d - n.1) <= e * (1real + exact::rabs(f.b.exact()))
            &&& exact::rabs(f.c.exact() * d - n.2) <= e * (1real + exact::rabs(f.c.exact()))
        }),
{
    let n = smile.len();
    let s = SmileSums::of_points(smile, logs, n);
    let c = Num::whole(false, n);
    let (k, b) = ((2 * n + 9) as int as real, reach(n, w));
    lemma_sums(smile, logs, w, n);
    lemma_reach(n, w);
    lemma_count(logs, n);
    lemma2_to64_rest();
    integral::lemma_whole_exact(n);
    exact::lemma_exact_whole(n);
    closeness::lemma_close_self(c, b);
    closeness::lemma_close_more(c, moment(logs, n, 0), 0real, k, b, b);
    let (s0, s1, s2) = (moment(logs, n, 0), moment(logs, n, 1), moment(logs, n, 2));
    let (s3, s4) = (moment(logs, n, 3), moment(logs, n, 4));
    let (t0, t1, t2) = (
        vol_moment(smile, logs, n, 0),
        vol_moment(smile, logs, n, 1),
        vol_moment(smile, logs, n, 2),
    );
    lemma_det(
        (c, s.x, s.x2),
        (s.x, s.x2, s.x3),
        (s.x2, s.x3, s.x4),
        (s0, s1, s2),
        (s1, s2, s3),
        (s2, s3, s4),
        k,
        b,
    );
    lemma_det(
        (s.y, s.x, s.x2),
        (s.xy, s.x2, s.x3),
        (s.x2y, s.x3, s.x4),
        (t0, s1, s2),
        (t1, s2, s3),
        (t2, s3, s4),
        k,
        b,
    );
    lemma_det(
        (c, s.y, s.x2),
        (s.x, s.xy, s.x3),
        (s.x2, s.x2y, s.x4),
        (s0, t0, s2),
        (s1, t1, s3),
        (s2, t2, s4),
        k,
        b,
    );
    lemma_det(
        (c, s.x, s.y),
        (s.x, s.x2, s.xy),
        (s.x2, s.x3, s.x2y),
        (s0, s1, t0),
        (s1, s2, t1),
        (s2, s3, t2),
        k,
        b,
    );
    let (h, m) = (3real * k + 12real, 6real * ((b * b) * b));
    let v = numerators(smile, logs);
    let d = rnd::det3((c, s.x, s.x2), (s.x, s.x2, s.x3), (s.x2, s.x3, s.x4));
    let pa = rnd::det3((s.y, s.x, s.x2), (s.xy, s.x2, s.x3), (s.x2y, s.x3, s.x4));
    let pb = rnd::det3((c, s.y, s.x2), (s.x, s.xy, s.x3), (s.x2, s.x2y, s.x4));
    let pc = rnd::det3((c, s.x, s.y), (s.x, s.x2, s.xy), (s.x2, s.x3, s.x2y));
    let y = system(logs, n);
    lemma_error_size(n, h, m, w);
    lemma_coefficient(pa, v.0, d, y, h, m);
    lemma_coefficient(pb, v.1, d, y, h, m);
    lemma_coefficient(pc, v.2, d, y, h, m);
    let e = det_error(n, w);
    let f = SmileFit::of_smile(smile, logs, iv_base);
    exact::lemma_times(((h + 4real) * exact::eps()) * m, e, 1real + exact::rabs(f.a.exact()));
    exact::lemma_times(((h + 4real) * exact::eps()) * m, e, 1real + exact::rabs(f.b.exact()));
    exact::lemma_times(((h + 4real) * exact::eps()) * m, e, 1real + exact::rabs(f.c.exact()));
}

/// The stated error covers those of the determinants and of their quotients.
proof fn lemma_error_size(n: nat, h: real, m: real, w: real)
    requires
        1 <= n <= 0x1_0000,
        1real <= w <= 1024real,
        h == 3real * ((2 * n + 9) as int as real) + 12real,
        m == 6real * ((reach(n, w) * reach(n, w)) * reach(n, w)),
    ensures
        m >= 1real,
        (h * exact::eps()) * m <= det_error(n, w),
        ((h + 4real) * exact::eps()) * m <= det_error(n, w),
{
    let (e, b) = (exact::eps(), reach(n, w));
    lemma_reach(n, w);
    exact::lemma_times(1real, b, b);
    exact::lemma_times(1real, b * b, b);
    let k = (6 * n + 50) as int as real;
    exact::lemma_times(h, k, e);
    exact::lemma_times(h + 4real, k, e);
    exact::lemma_times(h * e, k * e, m);
    exact::lemma_times((h + 4real) * e, k * e, m);
}

/// A sum of residuals in terms of the moments.
proof fn lemma_residual(
    smile: Seq<SmilePoint>,
    logs: Seq<Num>,
    n: nat,
    k: nat,
    a: real,
    b: real,
    c: real,
)
    ensures
        residual(smile, logs, n, k, a, b, c) == a * moment(logs, n, k) + b * moment(
            logs,
            n,
            k + 1,
        ) + c * moment(logs, n, k + 2) - vol_moment(smile, logs, n, k),
    decreases n,
{
    if n == 0 {
        assert(a * 0real == 0real && b * 0real == 0real && c * 0real == 0real) by (nonlinear_arith);
    } else {
        let m = (n - 1) as nat;
        lemma_residual(smile, logs, m, k, a, b, c);
        let (x, y) = (logs[n - 1].exact(), smile[n - 1].iv.exact());
        let p = rpow(x, k);
        assert(rpow(x, k + 1) == p * x);
        assert(rpow(x, k + 2) == rpow(x, k + 1) * x);
        payoff::lemma_dist(moment(logs, m, k), p, a);
        payoff::lemma_dist(moment(logs, m, k + 1), p * x, b);
        payoff::lemma_dist(moment(logs, m, k + 2), (p * x) * x, c);
        payoff::lemma_dist(a + b * x, c * (x * x), p);
        payoff::lemma_dist(a, b * x, p);
        payoff::lemma_dist(parabola(a, b, c, x), y, p);
        assert((b * x) * p == b * (p * x)) by (nonlinear_arith);
        assert((c * (x * x)) * p == c * ((p * x) * x)) by (nonlinear_arith);
        assert(y * p == p * y) by (nonlinear_arith);
    }
}

/// Expansion of a determinant by the minors of its first column.
proof fn lemma_expand(
    a: (real, real, real),
    b: (real, real, real),
    c: (real, real, real),
)
    ensures
        rdet(a, b, c) == a.0 * (b.1 * c.2 - b.2 * c.1) - b.0 * (a.1 * c.2 - a.2 * c.1) + c.0 * (a.1
            * b.2 - a.2 * b.1),
        rdet(a, b, c) == -(a.1 * (b.0 * c.2 - b.2 * c.0)) + b.1 * (a.0 * c.2 - a.2 * c.0) - c.1 * (
        a.0 * b.2 - a.2 * b.0),
        rdet(a, b, c) == a.2 * (b.0 * c.1 - b.1 * c.0) - b.2 * (a.0 * c.1 - a.1 * c.0) + c.2 * (a.0
            * b.1 - a.1 * b.0),
{
    let (p, q, r) = (a.0, a.1, a.2);
    let (s, t, u) = (b.0, b.1, b.2);
    let (x, y, z) = (c.0, c.1, c.2);
    lemma_triples(p, t, z);
    lemma_triples(p, u, y);
    lemma_triples(q, s, z);
    lemma_triples(q, u, x);
    lemma_triples(r, s, y);
    lemma_triples(r, t, x);
    payoff::lemma_dist(t * z, u * y, p);
    payoff::lemma_dist(s * z, u * x, q);
    payoff::lemma_dist(s * y, t * x, r);
    payoff::lemma_dist(q * z, r * y, s);
    payoff::lemma_dist(q * u, r * t, x);
    payoff::lemma_dist(p * z, r * x, t);
    payoff::lemma_dist(p * u, r * s, y);
    payoff::lemma_dist(p * y, q * x, u);
    payoff::lemma_dist(p * t, q * s, z);
}

proof fn lemma_triples(x: real, y: real, z: real)
    by (nonlinear_arith)
    ensures
        x * (y * z) == y * (x * z),
        x * (y * z) == z * (x * y),
{
}

/// Cramer's rule: the numerators solve each of the equations.
proof fn lemma_cramer(
    s0: real,
    s1: real,
    s2: real,
    s3: real,
    s4: real,
    t0: real,
    t1: real,
    t2: real,
)
    ensures
        ({
            let d = rdet((s0, s1, s2), (s1, s2, s3), (s2, s3, s4));
            let a = rdet((t0, s1, s2), (t1, s2, s3), (t2, s3, s4));
            let b = rdet((s0, t0, s2), (s1, t1, s3), (s2, t2, s4));
            let c = rdet((s0, s1, t0), (s1, s2, t1), (s2, s3, t2));
            &&& s0 * a + s1 * b + s2 * c == t0 * d
            &&& s1 * a + s2 * b + s3 * c == t1 * d
            &&& s2 * a + s3 * b + s4 * c == t2 * d
        }),
{
    // The minors of the matrix, which is symmetric.
    let (m00, m01, m02) = (s2 * s4 - s3 * s3, s1 * s4 - s3 * s2, s1 * s3 - s2 * s2);
    let (m11, m12, m22) = (s0 * s4 - s2 * s2, s0 * s3 - s1 * s2, s0 * s2 - s1 * s1);
    let d = rdet((s0, s1, s2), (s1, s2, s3), (s2, s3, s4));
    let a = rdet((t0, s1, s2), (t1, s2, s3), (t2, s3, s4));
    let b = rdet((s0, t0, s2), (s1, t1, s3), (s2, t2, s4));
    let c = rdet((s0, s1, t0), (s1, s2, t1), (s2, s3, t2));
    lemma_expand((t0, s1, s2), (t1, s2, s3), (t2, s3, s4));
    lemma_expand((s0, t0, s2), (s1, t1, s3), (s2, t2, s4));
    lemma_expand((s0, s1, t0), (s1, s2, t1), (s2, s3, t2));
    lemma_commute(s1, s2);
    lemma_commute(s2, s3);
    lemma_commute(s1, s3);
    lemma_commute(s1, s4);
    assert(a == t0 * m00 - t1 * m01 + t2 * m02);
    assert(b == -(t0 * m01) + t1 * m11 - t2 * m12);
    assert(c == t0 * m02 - t1 * m12 + t2 * m22);
    lemma_row(s0, s1, s2, t0, t1, t2, m00, m01, m02, m11, m12, m22, a, b, c);
    lemma_row(s1, s2, s3, t0, t1, t2, m00, m01, m02, m11, m12, m22, a, b, c);
    lemma_row(s2, s3, s4, t0, t1, t2, m00, m01, m02, m11, m12, m22, a, b, c);
    lemma_minors(s0, s1, s2, s3, s4);
    lemma_zero(t0);
    lemma_zero(t1);
    lemma_zero(t2);
}

proof fn lemma_zero(x: real)
    by (nonlinear_arith)
    ensures
        x * 0real == 0real,
{
}

proof fn lemma_commute(x: real, y: real)
    by (nonlinear_arith)
    ensures
        x * y == y * x,
{
}

/// The rows of the matrix times its minors: the determinant, or nothing.
proof fn lemma_minors(s0: real, s1: real, s2: real, s3: real, s4: real)
    ensures
        ({
            let (m00, m01, m02) = (s2 * s4 - s3 * s3, s1 * s4 - s3 * s2, s1 * s3 - s2 * s2);
            let (m11, m12, m22) = (s0 * s4 - s2 * s2, s0 * s3 - s1 * s2, s0 * s2 - s1 * s1);
            let d = rdet((s0, s1, s2), (s1, s2, s3), (s2, s3, s4));
            &&& s0 * m00 - s1 * m01 + s2 * m02 == d
            &&& -(s0 * m01) + s1 * m11 - s2 * m12 == 0real
            &&& s0 * m02 - s1 * m12 + s2 * m22 == 0real
            &&& s1 * m00 - s2 * m01 + s3 * m02 == 0real
            &&& -(s1 * m01) + s2 * m11 - s3 * m12 == d
            &&& s1 * m02 - s2 * m12 + s3 * m22 == 0real
            &&& s2 * m00 - s3 * m01 + s4 * m02 == 0real
            &&& -(s2 * m01) + s3 * m11 - s4 * m12 == 0real
            &&& s2 * m02 - s3 * m12 + s4 * m22 == d
        }),
{
    lemma_minor_terms(s0, s1, s2, s3, s4, s0);
    lemma_minor_terms(s0, s1, s2, s3, s4, s1);
    lemma_minor_terms(s0, s1, s2, s3, s4, s2);
    lemma_minor_terms(s0, s1, s2, s3, s4, s3);
    lemma_minor_terms(s0, s1, s2, s3, s4, s4);
    lemma_expand((s0, s1, s2), (s1, s2, s3), (s2, s3, s4));
    lemma_triples(s0, s1, s3);
    lemma_triples(s0, s1, s4);
    lemma_triples(s0, s2, s3);
    lemma_triples(s0, s2, s4);
    lemma_triples(s0, s3, s4);
    lemma_triples(s1, s2, s3);
    lemma_triples(s1, s2, s4);
    lemma_triples(s1, s3, s4);
    lemma_triples(s2, s3, s4);
    lemma_triples(s0, s1, s2);
    lemma_squares(s0, s1);
    lemma_squares(s0, s2);
    lemma_squares(s0, s3);
    lemma_squares(s1, s2);
    lemma_squares(s1, s3);
    lemma_squares(s2, s1);
    lemma_squares(s2, s3);
    lemma_squares(s3, s2);
    lemma_squares(s3, s1);
    lemma_squares(s4, s2);
    lemma_squares(s4, s1);
    lemma_squares(s4, s3);
    lemma_commute(s1, s2);
    lemma_commute(s2, s3);
    lemma_commute(s1, s3);
}

proof fn lemma_squares(x: real, y: real)
    by (nonlinear_arith)
    ensures
        x * (y * y) == y * (x * y),
        x * (y * y) == y * (y * x),
{
}

/// A number times each minor.
proof fn lemma_minor_terms(s0: real, s1: real, s2: real, s3: real, s4: real, x: real)
    ensures
        x * (s2 * s4 - s3 * s3) == x * (s2 * s4) - x * (s3 * s3),
        x * (s1 * s4 - s3 * s2) == x * (s1 * s4) - x * (s3 * s2),
        x * (s1 * s3 - s2 * s2) == x * (s1 * s3) - x * (s2 * s2),
        x * (s0 * s4 - s2 * s2) == x * (s0 * s4) - x * (s2 * s2),
        x * (s0 * s3 - s1 * s2) == x * (s0 * s3) - x * (s1 * s2),
        x * (s0 * s2 - s1 * s1) == x * (s0 * s2) - x * (s1 * s1),
{
    payoff::lemma_dist(s2 * s4, s3 * s3, x);
    payoff::lemma_dist(s1 * s4, s3 * s2, x);
    payoff::lemma_dist(s1 * s3, s2 * s2, x);
    payoff::lemma_dist(s0 * s4, s2 * s2, x);
    payoff::lemma_dist(s0 * s3, s1 * s2, x);
    payoff::lemma_dist(s0 * s2, s1 * s1, x);
}

/// A row times the numerators, by the right-hand sides.
proof fn lemma_row(
    x: real,
    y: real,
    z: real,
    t0: real,
    t1: real,
    t2: real,
    m00: real,
    m01: real,
    m02: real,
    m11: real,
    m12: real,
    m22: real,
    a: real,
    b: real,
    c: real,
)
    requires
        a == t0 * m00 - t1 * m01 + t2 * m02,
        b == -(t0 * m01) + t1 * m11 - t2 * m12,
        c == t0 * m02 - t1 * m12 + t2 * m22,
    ensures
        x * a + y * b + z * c == t0 * (x * m00 - y * m01 + z * m02) + t1 * (-(x * m01) + y * m11 - z
            * m12) + t2 * (x * m02 - y * m12 + z * m22),
{
    lemma_row_part(x, t0, m00, t1, m01, t2, m02);
    lemma_row_part(y, t0, m01, t1, m11, t2, m12);
    lemma_row_part(z, t0, m02, t1, m12, t2, m22);
    lemma_combine(t0, x * m00, y * m01, z * m02);
    lemma_combine(t1, x * m01, y * m11, z * m12);
    lemma_combine(t2, x * m02, y * m12, z * m22);
}

proof fn lemma_combine(t: real, x: real, y: real, z: real)
    ensures
        t * (x - y + z) == t * x - t * y + t * z,
        t * (-x + y - z) == -(t * x) + t * y - t * z,
{
    payoff::lemma_dist(x, y, t);
    payoff::lemma_dist(x - y, z, t);
    payoff::lemma_dist(y, x, t);
    payoff::lemma_dist(y - x, z, t);
    assert(-x + y - z == (y - x) - z);
}

/// A number times a sum of three products with signs.
proof fn lemma_row_part(x: real, t0: real, m: real, t1: real, p: real, t2: real, q: real)
    ensures
        x * (t0 * m - t1 * p + t2 * q) == t0 * (x * m) - t1 * (x * p) + t2 * (x * q),
        x * (-(t0 * m) + t1 * p - t2 * q) == -(t0 * (x * m)) + t1 * (x * p) - t2 * (x * q),
{
    lemma_combine(x, t0 * m, t1 * p, t2 * q);
    lemma_triples(x, t0, m);
    lemma_triples(x, t1, p);
    lemma_triples(x, t2, q);
}

/// The sizes of three coefficients and three units.
pub open spec fn bulk(a: real, b: real, c: real) -> real {
    3real + exact::rabs(a) + exact::rabs(b) + exact::rabs(c)
}

/// What the errors of three coefficients make of one equation.
proof fn lemma_equation(
    x: real,
    y: real,
    z: real,
    t: real,
    d: real,
    a: real,
    b: real,
    c: real,
    na: real,
    nb: real,
    nc: real,
    e: real,
    r: real,
)
    requires
        x * na + y * nb + z * nc == t * d,
        exact::rabs(a * d - na) <= e * (1real + exact::rabs(a)),
        exact::rabs(b * d - nb) <= e * (1real + exact::rabs(b)),
        exact::rabs(c * d - nc) <= e * (1real + exact::rabs(c)),
        exact::rabs(x) <= r,
        exact::rabs(y) <= r,
        exact::rabs(z) <= r,
        e >= 0real,
    ensures
        exact::rabs(d * (a * x + b * y + c * z - t)) <= (r * e) * bulk(a, b, c),
{
    let (p, q, s) = (a * d - na, b * d - nb, c * d - nc);
    payoff::lemma_dist(a * d, na, x);
    payoff::lemma_dist(b * d, nb, y);
    payoff::lemma_dist(c * d, nc, z);
    payoff::lemma_dist(a * x + b * y + c * z, t, d);
    payoff::lemma_dist(a * x + b * y, c * z, d);
    payoff::lemma_dist(a * x, b * y, d);
    lemma_move(d, a, x);
    lemma_move(d, b, y);
    lemma_move(d, c, z);
    lemma_commute(t, d);
    assert(d * (a * x + b * y + c * z - t) == x * p + y * q + s * z) by {
        lemma_commute(z, s);
    }
    lemma_term(x, p, r, e, a);
    lemma_term(y, q, r, e, b);
    lemma_term(z, s, r, e, c);
    lemma_commute(z, s);
    let u = r * e;
    payoff::lemma_dist(1real + exact::rabs(a), 1real + exact::rabs(b), u);
    payoff::lemma_dist(
        (1real + exact::rabs(a)) + (1real + exact::rabs(b)),
        1real + exact::rabs(c),
        u,
    );
}

proof fn lemma_move(d: real, a: real, x: real)
    by (nonlinear_arith)
    ensures
        d * (a * x) == x * (a * d),
{
}

/// One term of an equation.
proof fn lemma_term(x: real, p: real, r: real, e: real, a: real)
    requires
        exact::rabs(x) <= r,
        exact::rabs(p) <= e * (1real + exact::rabs(a)),
        e >= 0real,
    ensures
        exact::rabs(x * p) <= (r * e) * (1real + exact::rabs(a)),
{
    let h = 1real + exact::rabs(a);
    payoff::lemma_abs_mul(x, p);
    exact::lemma_times(exact::rabs(x), r, exact::rabs(p));
    exact::lemma_times(exact::rabs(p), e * h, r);
    assert(r * (e * h) == (r * e) * h) by (nonlinear_arith);
}

/// The fitted parabola minimizes the squared residuals: their sums against one,
/// x and x squared vanish up to rounding, where the equations are solvable.
///
/// The sums are measured with the determinant of the equations, so that the
/// bound holds however near to singular they are.
pub proof fn law_fit_is_least_squares(
    smile: Seq<SmilePoint>,
    logs: Seq<Num>,
    iv_base: Num,
    w: real,
    k: nat,
)
    requires
        moderate(smile, logs, w),
        solvable(logs, smile.len(), w),
        k <= 2,
    ensures
        ({
            let f = SmileFit::of_smile(smile, logs, iv_base);
            let (a, b, c) = (f.a.exact(), f.b.exact(), f.c.exact());
            let n = smile.len();
            &&& f.a.finite() && f.b.finite() && f.c.finite() && f.iv_base == iv_base
            &&& exact::rabs(system(logs, n) * residual(smile, logs, n, k, a, b, c)) <= (reach(n, w)
                * det_error(n, w)) * bulk(a, b, c)
        }),
{
    let n = smile.len();
    let f = SmileFit::of_smile(smile, logs, iv_base);
    let (a, b, c) = (f.a.exact(), f.b.exact(), f.c.exact());
    lemma_fit(smile, logs, iv_base, w);
    lemma_residual(smile, logs, n, k, a, b, c);
    lemma_sums(smile, logs, w, n);
    lemma_reach(n, w);
    lemma_count(logs, n);
    let (s0, s1, s2) = (moment(logs, n, 0), moment(logs, n, 1), moment(logs, n, 2));
    let (s3, s4) = (moment(logs, n, 3), moment(logs, n, 4));
    let (t0, t1, t2) = (
        vol_moment(smile, logs, n, 0),
        vol_moment(smile, logs, n, 1),
        vol_moment(smile, logs, n, 2),
    );
    lemma_cramer(s0, s1, s2, s3, s4, t0, t1, t2);
    let (d, v, e, r) = (system(logs, n), numerators(smile, logs), det_error(n, w), reach(n, w));
    lemma_error_positive(n, w);
    if k == 0 {
        lemma_equation(s0, s1, s2, t0, d, a, b, c, v.0, v.1, v.2, e, r);
    } else if k == 1 {
        lemma_equation(s1, s2, s3, t1, d, a, b, c, v.0, v.1, v.2, e, r);
    } else {
        lemma_equation(s2, s3, s4, t2, d, a, b, c, v.0, v.1, v.2, e, r);
    }
}

proof fn lemma_error_positive(n: nat, w: real)
    requires
        1 <= n <= 0x1_0000,
        1real <= w <= 1024real,
    ensures
        det_error(n, w) >= 0real,
{
    let b = reach(n, w);
    lemma_error_size(
        n,
        3real * ((2 * n + 9) as int as real) + 12real,
        6real * ((b * b) * b),
        w,
    );
    exact::lemma_not_negative((6 * n + 50) as int as real, exact::eps());
    exact::lemma_not_negative(
        ((6 * n + 50) as int as real) * exact::eps(),
        6real * ((b * b) * b),
    );
}

/// The vol moments of points on a parabola.
proof fn lemma_on_parabola(
    smile: Seq<SmilePoint>,
    logs: Seq<Num>,
    n: nat,
    k: nat,
    a: real,
    b: real,
    c: real,
)
    requires
        n <= smile.len(),
        forall|i: int|
            0 <= i < smile.len() ==> (#[trigger] smile[i]).iv.exact() == parabola(
                a,
                b,
                c,
                logs[i].exact(),
            ),
    ensures
        vol_moment(smile, logs, n, k) == a * moment(logs, n, k) + b * moment(logs, n, k + 1) + c
            * moment(logs, n, k + 2),
    decreases n,
{
    lemma_residual(smile, logs, n, k, a, b, c);
    lemma_no_residual(smile, logs, n, k, a, b, c);
}

/// Points on a parabola leave no residuals.
proof fn lemma_no_residual(
    smile: Seq<SmilePoint>,
    logs: Seq<Num>,
    n: nat,
    k: nat,
    a: real,
    b: real,
    c: real,
)
    requires
        n <= smile.len(),
        forall|i: int|
            0 <= i < smile.len() ==> (#[trigger] smile[i]).iv.exact() == parabola(
                a,
                b,
                c,
                logs[i].exact(),
            ),
    ensures
        residual(smile, logs, n, k, a, b, c) == 0real,
    decreases n,
{
    if n > 0 {
        lemma_no_residual(smile, logs, (n - 1) as nat, k, a, b, c);
        assert(smile[n - 1].iv.exact() == parabola(a, b, c, logs[n - 1].exact()));
        let p = rpow(logs[n - 1].exact(), k);
        lemma_zero(p);
        lemma_commute(0real, p);
    }
}

/// The numerators of right-hand sides that have a solution.
proof fn lemma_solution(
    s0: real,
    s1: real,
    s2: real,
    s3: real,
    s4: real,
    a: real,
    b: real,
    c: real,
)
    ensures
        ({
            let d = rdet((s0, s1, s2), (s1, s2, s3), (s2, s3, s4));
            let (t0, t1, t2) = (
                a * s0 + b * s1 + c * s2,
                a * s1 + b * s2 + c * s3,
                a * s2 + b * s3 + c * s4,
            );
            &&& rdet((t0, s1, s2), (t1, s2, s3), (t2, s3, s4)) == a * d
            &&& rdet((s0, t0, s2), (s1, t1, s3), (s2, t2, s4)) == b * d
            &&& rdet((s0, s1, t0), (s1, s2, t1), (s2, s3, t2)) == c * d
        }),
{
    let (m00, m01, m02) = (s2 * s4 - s3 * s3, s1 * s4 - s3 * s2, s1 * s3 - s2 * s2);
    let (m11, m12, m22) = (s0 * s4 - s2 * s2, s0 * s3 - s1 * s2, s0 * s2 - s1 * s1);
    let (t0, t1, t2) = (
        a * s0 + b * s1 + c * s2,
        a * s1 + b * s2 + c * s3,
        a * s2 + b * s3 + c * s4,
    );
    lemma_expand((t0, s1, s2), (t1, s2, s3), (t2, s3, s4));
    lemma_expand((s0, t0, s2), (s1, t1, s3), (s2, t2, s4));
    lemma_expand((s0, s1, t0), (s1, s2, t1), (s2, s3, t2));
    lemma_commute(s1, s2);
    lemma_commute(s2, s3);
    lemma_commute(s1, s3);
    lemma_commute(s1, s4);
    lemma_minors(s0, s1, s2, s3, s4);
    lemma_column(a, b, c, s0, s1, s2, s1, s2, s3, s2, s3, s4, m00, m01, m02);
    lemma_column(a, b, c, s0, s1, s2, s1, s2, s3, s2, s3, s4, m01, m11, m12);
    lemma_column(a, b, c, s0, s1, s2, s1, s2, s3, s2, s3, s4, m02, m12, m22);
    lemma_zero(a);
    lemma_zero(b);
    lemma_zero(c);
}

/// A combination of three columns, against three minors.
proof fn lemma_column(
    a: real,
    b: real,
    c: real,
    x0: real,
    y0: real,
    z0: real,
    x1: real,
    y1: real,
    z1: real,
    x2: real,
    y2: real,
    z2: real,
    m: real,
    p: real,
    q: real,
)
    ensures
        (a * x0 + b * y0 + c * z0) * m - (a * x1 + b * y1 + c * z1) * p + (a * x2 + b * y2 + c * z2)
            * q == a * (x0 * m - x1 * p + x2 * q) + b * (y0 * m - y1 * p + y2 * q) + c * (z0 * m - z1
            * p + z2 * q),
        -((a * x0 + b * y0 + c * z0) * m) + (a * x1 + b * y1 + c * z1) * p - (a * x2 + b * y2 + c
            * z2) * q == a * (-(x0 * m) + x1 * p - x2 * q) + b * (-(y0 * m) + y1 * p - y2 * q) + c * (
        -(z0 * m) + z1 * p - z2 * q),
{
    lemma_three(a * x0, b * y0, c * z0, m);
    lemma_three(a * x1, b * y1, c * z1, p);
    lemma_three(a * x2, b * y2, c * z2, q);
    lemma_assoc3(a, x0, m);
    lemma_assoc3(b, y0, m);
    lemma_assoc3(c, z0, m);
    lemma_assoc3(a, x1, p);
    lemma_assoc3(b, y1, p);
    lemma_assoc3(c, z1, p);
    lemma_assoc3(a, x2, q);
    lemma_assoc3(b, y2, q);
    lemma_assoc3(c, z2, q);
    lemma_combine(a, x0 * m, x1 * p, x2 * q);
    lemma_combine(b, y0 * m, y1 * p, y2 * q);
    lemma_combine(c, z0 * m, z1 * p, z2 * q);
}

proof fn lemma_three(x: real, y: real, z: real, m: real)
    ensures
        (x + y + z) * m == x * m + y * m + z * m,
{
    payoff::lemma_dist(x + y, z, m);
    payoff::lemma_dist(x, y, m);
}

proof fn lemma_assoc3(a: real, x: real, m: real)
    by (nonlinear_arith)
    ensures
        (a * x) * m == a * (x * m),
{
}

/// The coefficients of points on a parabola are those of the parabola, up to
/// rounding, measured with the determinant of the equations.
pub proof fn law_parabolas_are_recovered(
    smile: Seq<SmilePoint>,
    logs: Seq<Num>,
    iv_base: Num,
    w: real,
    a: real,
    b: real,
    c: real,
)
    requires
        moderate(smile, logs, w),
        solvable(logs, smile.len(), w),
        forall|i: int|
            0 <= i < smile.len() ==> (#[trigger] smile[i]).iv.exact() == parabola(
                a,
                b,
                c,
                logs[i].exact(),
            ),
    ensures
        ({
            let f = SmileFit::of_smile(smile, logs, iv_base);
            let (d, e) = (exact::rabs(system(logs, smile.len())), det_error(smile.len(), w));
            &&& f.a.finite() && f.b.finite() && f.c.finite()
            &&& d * exact::rabs(f.a.exact() - a) <= e * (1real + exact::rabs(f.a.exact()))
            &&& d * exact::rabs(f.b.exact() - b) <= e * (1real + exact::rabs(f.b.exact()))
            &&& d * exact::rabs(f.c.exact() - c) <= e * (1real + exact::rabs(f.c.exact()))
        }),
{
    let n = smile.len();
    let f = SmileFit::of_smile(smile, logs, iv_base);
    lemma_fit(smile, logs, iv_base, w);
    let (s0, s1, s2) = (moment(logs, n, 0), moment(logs, n, 1), moment(logs, n, 2));
    let (s3, s4) = (moment(logs, n, 3), moment(logs, n, 4));
    lemma_on_parabola(smile, logs, n, 0, a, b, c);
    lemma_on_parabola(smile, logs, n, 1, a, b, c);
    lemma_on_parabola(smile, logs, n, 2, a, b, c);
    lemma_solution(s0, s1, s2, s3, s4, a, b, c);
    let d = system(logs, n);
    lemma_scaled_distance(f.a.exact(), a, d);
    lemma_scaled_distance(f.b.exact(), b, d);
    lemma_scaled_distance(f.c.exact(), c, d);
}

proof fn lemma_scaled_distance(x: real, y: real, d: real)
    ensures
        exact::rabs(d) * exact::rabs(x - y) == exact::rabs(x * d - y * d),
{
    payoff::lemma_dist(x, y, d);
    payoff::lemma_abs_mul(d, x - y);
    lemma_commute(d, x - y);
}

/// A real number moved between two others.
pub open spec fn clamped(x: real, lo: real, hi: real) -> real {
    if x < lo {
        lo
    } else if x > hi {
        hi
    } else {
        x
    }
}

/// The vol at `x` is the value of the fitted parabola there, moved into the
/// band, up to a few roundings.
pub proof fn law_vol_follows_the_parabola(f: SmileFit, x: Num, w: real, v: real)
    requires
        rnd::usable(f.iv_base),
        f.floor().finite(),
        f.cap().finite(),
        f.a.finite() && exact::rabs(f.a.exact()) <= v,
        f.b.finite() && exact::rabs(f.b.exact()) <= v,
        f.c.finite() && exact::rabs(f.c.exact()) <= v,
        x.finite() && exact::rabs(x.exact()) <= w,
        1real <= w <= 1024real,
        1real <= v <= 0x100_0000_0000int as real,
    ensures
        ({
            let q = parabola(f.a.exact(), f.b.exact(), f.c.exact(), x.exact());
            &&& f.vol(x).finite()
            &&& exact::rabs(
                f.vol(x).exact() - clamped(q, f.floor().exact(), f.cap().exact()),
            ) <= (10real * exact::eps()) * (3real * ((v * w) * w))
        }),
{
    let (a, b, c, y) = (f.a.exact(), f.b.exact(), f.c.exact(), x.exact());
    let (t, u) = (v * w, (v * w) * w);
    lemma_reach(1, w);
    exact::lemma_times(1real, w, v);
    exact::lemma_times(1real, w, t);
    exact::lemma_times(w, 1024real, v);
    exact::lemma_times(v, 0x100_0000_0000int as real, 1024real);
    exact::lemma_times(w, 1024real, t);
    lemma2_to64_rest();
    lemma_pow2_strictly_increases(63, 400);
    assert(u <= 0x1000_0000_0000_0000int as real);
    closeness::lemma_close_self(x, w);
    closeness::lemma_close_self(f.a, v);
    closeness::lemma_close_self(f.b, v);
    closeness::lemma_close_self(f.c, v);
    closeness::lemma_product(f.b, b, x, y, 0real, 0real, v, w);
    closeness::lemma_product(f.c, c, x, y, 0real, 0real, v, w);
    closeness::lemma_product(f.c.fmul(x), c * y, x, y, 3real, 0real, t, w);
    closeness::lemma_close_more(f.a, a, 0real, 3real, v, u);
    closeness::lemma_close_more(f.b.fmul(x), b * y, 3real, 3real, t, u);
    closeness::lemma_sum(f.a, a, f.b.fmul(x), b * y, 3real, u, u);
    let s = f.a.fadd(f.b.fmul(x));
    let r = f.c.fmul(x).fmul(x);
    closeness::lemma_close_more(s, a + b * y, 5real, 6real, 2real * u, 2real * u);
    closeness::lemma_sum(s, a + b * y, r, (c * y) * y, 6real, 2real * u, u);
    let p = s.fadd(r);
    assert((c * y) * y == c * (y * y)) by (nonlinear_arith);
    closeness::lemma_close_more(p, a + b * y + (c * y) * y, 8real, 10real, 3real * u, 3real * u);
    rnd::law_vol_band_is_ordered(f);
    exact::lemma_exact_order(f.floor(), f.cap());
    exact::lemma_exact_order(p, f.floor());
    exact::lemma_exact_order(f.cap(), p);
}

/// The vol does not rise with the logarithm where the linear coefficient is
/// negative and there is no quadratic one, and does not fall where it is not.
pub proof fn law_linear_smiles_lean(f: SmileFit, x: Num, y: Num)
    requires
        rnd::usable(f.iv_base),
        f.a.finite(),
        f.b.finite(),
        f.c.mag() == 0,
        x.finite(),
        y.finite(),
        x.fle(y),
    ensures
        f.b.negative() ==> f.vol(y).fle(f.vol(x)),
        !f.b.negative() ==> f.vol(x).fle(f.vol(y)),
{
    lemma_line(f, x);
    lemma_line(f, y);
    rnd::law_vol_band_is_ordered(f);
    algebra::lemma_mul_is_number(f.b, x);
    algebra::lemma_mul_is_number(f.b, y);
    let (p, q) = (f.b.fmul(x), f.b.fmul(y));
    if f.b.negative() {
        let g = f.b.fneg();
        algebra::lemma_weight_order(g, x, y);
        algebra::law_mul_commutes(f.b, x);
        algebra::law_mul_commutes(f.b, y);
        algebra::law_mul_neg(x, f.b);
        algebra::law_mul_neg(y, f.b);
        algebra::law_mul_commutes(g, x);
        algebra::law_mul_commutes(g, y);
        assert(q.fle(p));
    } else {
        algebra::lemma_weight_order(f.b, x, y);
        assert(p.fle(q));
    }
    algebra::lemma_add_finite(p, f.a);
    algebra::lemma_add_finite(q, f.a);
    algebra::law_add_commutes(f.a, p);
    algebra::law_add_commutes(f.a, q);
    if f.b.negative() {
        algebra::law_add_monotone(q, p, f.a);
    } else {
        algebra::law_add_monotone(p, q, f.a);
    }
}

/// Without a quadratic coefficient the parabola is a line.
proof fn lemma_line(f: SmileFit, x: Num)
    requires
        f.a.finite(),
        f.b.finite(),
        f.c.mag() == 0,
        x.finite(),
    ensures
        f.a.fadd(f.b.fmul(x)).fadd(f.c.fmul(x).fmul(x)).feq(f.a.fadd(f.b.fmul(x))),
        !f.a.fadd(f.b.fmul(x)).nan(),
{
    algebra::law_zero_mul(f.c, x);
    algebra::law_zero_mul(f.c.fmul(x), x);
    algebra::lemma_mul_is_number(f.b, x);
    algebra::lemma_add_finite(f.b.fmul(x), f.a);
    algebra::lemma_add_any_zero(f.a.fadd(f.b.fmul(x)), f.c.fmul(x).fmul(x));
}

/// Vols that lie on a parabola, in log moneyness, are given back at every point
/// inside the band, up to rounding, measured with the determinant of the
/// equations.
pub proof fn law_quoted_vols_are_given_back(
    smile: Seq<SmilePoint>,
    logs: Seq<Num>,
    iv_base: Num,
    w: real,
    v: real,
    a: real,
    b: real,
    c: real,
    i: int,
)
    requires
        moderate(smile, logs, w),
        solvable(logs, smile.len(), w),
        forall|i: int|
            0 <= i < smile.len() ==> (#[trigger] smile[i]).iv.exact() == parabola(
                a,
                b,
                c,
                logs[i].exact(),
            ),
        rnd::usable(iv_base),
        1real <= v <= 0x100_0000_0000int as real,
        ({
            let f = SmileFit::of_smile(smile, logs, iv_base);
            &&& f.floor().finite() && f.cap().finite()
            &&& exact::rabs(f.a.exact()) <= v
            &&& exact::rabs(f.b.exact()) <= v
            &&& exact::rabs(f.c.exact()) <= v
            &&& 0 <= i < smile.len()
            &&& f.floor().exact() <= smile[i].iv.exact() <= f.cap().exact()
        }),
    ensures
        ({
            let f = SmileFit::of_smile(smile, logs, iv_base);
            let (d, e) = (exact::rabs(system(logs, smile.len())), det_error(smile.len(), w));
            d * exact::rabs(f.vol(logs[i]).exact() - smile[i].iv.exact()) <= (e * bulk(v, v, v)) * (w
                * w) + d * ((10real * exact::eps()) * (3real * ((v * w) * w)))
        }),
{
    let f = SmileFit::of_smile(smile, logs, iv_base);
    let (d, e) = (exact::rabs(system(logs, smile.len())), det_error(smile.len(), w));
    let (x, y) = (logs[i].exact(), smile[i].iv.exact());
    law_parabolas_are_recovered(smile, logs, iv_base, w, a, b, c);
    law_vol_follows_the_parabola(f, logs[i], w, v);
    lemma_error_positive(smile.len(), w);
    lemma_reach(1, w);
    let (fa, fb, fc) = (f.a.exact(), f.b.exact(), f.c.exact());
    let (da, db, dc) = (fa - a, fb - b, fc - c);
    let q = parabola(fa, fb, fc, x);
    let z = x * x;
    payoff::lemma_dist(fb, b, x);
    payoff::lemma_dist(fc, c, z);
    assert(q - y == da + db * x + dc * z);
    payoff::lemma_abs_mul(db, x);
    payoff::lemma_abs_mul(dc, z);
    payoff::lemma_abs_mul(x, x);
    let (u, h) = (w * w, exact::rabs(z));
    exact::lemma_times(exact::rabs(x), w, exact::rabs(x));
    exact::lemma_times(exact::rabs(x), w, w);
    let (pa, pb, pc) = (exact::rabs(da), exact::rabs(db), exact::rabs(dc));
    exact::lemma_times(exact::rabs(x), u, pb);
    exact::lemma_times(h, u, pc);
    exact::lemma_times(1real, u, pa);
    payoff::lemma_dist(pa, pb, u);
    payoff::lemma_dist(pa + pb, pc, u);
    let g = exact::rabs(q - y);
    assert(g <= (pa + pb + pc) * u);
    exact::lemma_times(g, (pa + pb + pc) * u, d);
    // The errors of the coefficients.
    exact::lemma_times(1real + exact::rabs(fa), 1real + v, e);
    exact::lemma_times(1real + exact::rabs(fb), 1real + v, e);
    exact::lemma_times(1real + exact::rabs(fc), 1real + v, e);
    payoff::lemma_dist(1real + v, 1real + v, e);
    payoff::lemma_dist((1real + v) + (1real + v), 1real + v, e);
    payoff::lemma_dist(pa, pb, d);
    payoff::lemma_dist(pa + pb, pc, d);
    let t = d * (pa + pb + pc);
    assert(t <= e * bulk(v, v, v));
    exact::lemma_times(t, e * bulk(v, v, v), u);
    assert(d * ((pa + pb + pc) * u) == t * u) by {
        lemma_assoc3(d, pa + pb + pc, u);
    }
    // The rounding of the vol.
    let r = (10real * exact::eps()) * (3real * ((v * w) * w));
    let m = exact::rabs(f.vol(logs[i]).exact() - y);
    assert(m <= g + r);
    exact::lemma_times(m, g + r, d);
    payoff::lemma_dist(g, r, d);
}

/// The band of vols: from 0.015 or a quarter of the base vol on, whichever is
/// the greater, up to 2.2 or five times it.
pub proof fn law_band_is_round_the_base(f: SmileFit)
    requires
        rnd::usable(f.iv_base),
        f.iv_base.exact() <= 1000real,
    ensures
        ({
            let x = f.iv_base.exact();
            let (lo, hi) = (x / 4real, 5real * x);
            let (p, q) = (
                if lo < 3real / 200real {
                    3real / 200real
                } else {
                    lo
                },
                if hi < 11real / 5real {
                    11real / 5real
                } else {
                    hi
                },
            );
            &&& f.floor().finite() && exact::rabs(f.floor().exact() - p) <= 10_000real * exact::eps()
            &&& f.cap().finite() && exact::rabs(f.cap().exact() - q) <= 100_000real * exact::eps()
        }),
{
    let x = f.iv_base.exact();
    let (la, lr) = (Num::of(rnd::RND_IV_FLOOR_ABS), Num::of(rnd::RND_IV_FLOOR_REL));
    let (ha, hr) = (Num::of(rnd::RND_IV_CAP_ABS), Num::of(rnd::RND_IV_CAP_REL));
    lemma2_to64_rest();
    lemma_pow2_strictly_increases(53, 400);
    decimal::lemma_decimal(rnd::RND_IV_FLOOR_ABS, 3, 200, 59);
    decimal::lemma_decimal(rnd::RND_IV_FLOOR_REL, 1, 4, 54);
    decimal::lemma_decimal(rnd::RND_IV_CAP_ABS, 11, 5, 51);
    decimal::lemma_decimal(rnd::RND_IV_CAP_REL, 5, 1, 50);
    exact::lemma_exact_zero(Num::of(ZERO));
    exact::lemma_exact_order(Num::of(ZERO), f.iv_base);
    closeness::lemma_close_self(f.iv_base, 1000real);
    closeness::lemma_close_self(lr, 1real);
    closeness::lemma_close_self(hr, 5real);
    closeness::lemma_product(lr, 1real / 4real, f.iv_base, x, 0real, 0real, 1real, 1000real);
    closeness::lemma_product(hr, 5real, f.iv_base, x, 0real, 0real, 5real, 1000real);
    let (l, h) = (lr.fmul(f.iv_base), hr.fmul(f.iv_base));
    assert((1real / 4real) * x == x / 4real);
    assert(exact::rabs(l.exact() - x / 4real) <= 3000real * exact::eps());
    assert(exact::rabs(h.exact() - 5real * x) <= 15_000real * exact::eps());
    exact::lemma_times(3real / 200real, 1real, exact::eps());
    exact::lemma_times(11real / 5real, 3real, exact::eps());
    assert(exact::rabs(la.exact() - 3real / 200real) <= exact::eps());
    assert(exact::rabs(ha.exact() - 11real / 5real) <= 3real * exact::eps());
    exact::lemma_exact_order(la, l);
    exact::lemma_exact_order(ha, h);
}

} // verus!
