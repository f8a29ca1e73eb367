//! Round-to-nearest-even of exact rationals onto the binary64 grid.
//!
//! A non-negative magnitude is measured in units of the smallest subnormal,
//! 2^-1074.  The magnitude pattern of a binary64 value (its bits without the
//! sign) is `k * 2^52 + m`, where the value is `m * 2^k` units: `k` is 0 for
//! every value below 2^53 units, and `m` has its bit 52 set otherwise.

use vstd::arithmetic::div_mod::*;
use vstd::arithmetic::mul::*;
use vstd::arithmetic::power2::*;
use vstd::prelude::*;

verus! {

/// 2^52, the distance between the patterns of two neighbouring binades.
pub const BINADE: u64 = 0x0010_0000_0000_0000;

/// The magnitude pattern of infinity.
pub const INF_MAG: u64 = 0x7FF0_0000_0000_0000;

/// The integer nearest to `n / q`, the even one where two are as near.
pub open spec fn nearest_even(n: nat, q: nat) -> nat {
    let f = n / q;
    let r = n % q;
    if 2 * r < q || (2 * r == q && f % 2 == 0) {
        f
    } else {
        f + 1
    }
}

/// The least `k` with `n / d < 2^(k + 53)`.
pub open spec fn scale_of(n: nat, d: nat) -> nat
    decreases n - d,
    when d > 0
{
    if n < d * pow2(53) {
        0
    } else {
        proof {
            lemma_two_d(n, d);
        }
        1 + scale_of(n, 2 * d)
    }
}

/// The magnitude pattern nearest to `n / d` units, capped at infinity.
pub open spec fn round_mag(n: nat, d: nat) -> nat {
    let k = scale_of(n, d);
    let mag: nat = k * (BINADE as nat) + nearest_even(n, d * pow2(k));
    if mag < INF_MAG {
        mag
    } else {
        INF_MAG as nat
    }
}

pub proof fn lemma_two_d(n: nat, d: nat)
    requires
        n >= d * pow2(53),
    ensures
        n >= 2 * d,
{
    lemma_pow2_unfold(53);
    lemma_pow2_pos(52);
    let h = pow2(52);
    assert(d * pow2(53) >= 2 * d) by (nonlinear_arith)
        requires
            pow2(53) == 2 * h,
            h >= 1,
            d >= 0,
    ;
}

/// `scale_of` is pinned down by its two bounds.
pub proof fn lemma_scale(n: nat, d: nat, k: nat)
    requires
        d > 0,
        n < d * pow2(k + 53),
        k > 0 ==> n >= d * pow2((k + 52) as nat),
    ensures
        scale_of(n, d) == k,
    decreases k,
{
    if k > 0 {
        lemma_pow2_unfold(k + 53);
        let half = pow2((k + 52) as nat);
        assert(d * pow2(k + 53) == (2 * d) * half) by (nonlinear_arith)
            requires
                pow2(k + 53) == 2 * half,
        ;
        lemma_pow2_pos(53);
        if k == 1 {
            assert(n >= d * pow2(53));
        } else {
            lemma_pow2_strictly_increases(53, (k + 52) as nat);
            assert(d * pow2(53) <= d * half) by (nonlinear_arith)
                requires
                    pow2(53) < half,
                    d > 0,
            ;
            lemma_pow2_unfold((k + 52) as nat);
            let quarter = pow2((k + 51) as nat);
            assert(d * half == (2 * d) * quarter) by (nonlinear_arith)
                requires
                    half == 2 * quarter,
            ;
        }
        lemma_scale(n, 2 * d, (k - 1) as nat);
    }
}

/// The bounds that `scale_of` meets.
pub proof fn lemma_scale_bounds(n: nat, d: nat)
    requires
        d > 0,
    ensures
        n < d * pow2(scale_of(n, d) + 53),
        scale_of(n, d) > 0 ==> n >= d * pow2((scale_of(n, d) + 52) as nat),
    decreases n - d,
{
    if n >= d * pow2(53) {
        lemma_two_d(n, d);
        lemma_scale_bounds(n, 2 * d);
        let k = scale_of(n, 2 * d);
        lemma_pow2_unfold(k + 54);
        let q = pow2(k + 53);
        assert((2 * d) * q == d * pow2(k + 54)) by (nonlinear_arith)
            requires
                pow2(k + 54) == 2 * q,
        ;
        if k > 0 {
            lemma_pow2_unfold(k + 53);
            let h = pow2((k + 52) as nat);
            assert((2 * d) * h == d * q) by (nonlinear_arith)
                requires
                    q == 2 * h,
            ;
        }
    }
}

/// Scaling numerator and denominator alike leaves the nearest integer as it is.
pub proof fn lemma_nearest_scale(n: nat, q: nat, c: nat)
    requires
        q > 0,
        c > 0,
    ensures
        nearest_even(n * c, q * c) == nearest_even(n, q),
{
    let f = n / q;
    let r = n % q;
    lemma_fundamental_div_mod(n as int, q as int);
    lemma_mod_bound(n as int, q as int);
    assert(q * c > 0) by (nonlinear_arith)
        requires
            q > 0,
            c > 0,
    ;
    assert(n * c == f * (q * c) + r * c) by (nonlinear_arith)
        requires
            n == q * f + r,
    ;
    assert(0 <= r * c < q * c) by (nonlinear_arith)
        requires
            0 <= r < q,
            c > 0,
    ;
    lemma_fundamental_div_mod_converse((n * c) as int, (q * c) as int, f as int, (r * c) as int);
    assert((2 * (r * c) < q * c) == (2 * r < q)) by (nonlinear_arith)
        requires
            c > 0,
    ;
    assert((2 * (r * c) == q * c) == (2 * r == q)) by (nonlinear_arith)
        requires
            c > 0,
    ;
}

/// What a truncated quotient and its sticky bit say about the nearest integer.
///
/// The exact value is `x / d`, known to lie in `[n, n + 1)`; `n` splits as
/// `f * (2 * half) + rem`.
proof fn lemma_nearest_split(x: nat, d: nat, n: nat, f: nat, rem: nat, half: nat)
    requires
        d > 0,
        half > 0,
        n * d <= x < (n + 1) * d,
        n == f * (2 * half) + rem,
        rem < 2 * half,
    ensures
        nearest_even(x, d * (2 * half)) == (if rem < half || (rem == half && x == n * d && f % 2
            == 0) {
            f
        } else {
            f + 1
        }),
{
    let q = d * (2 * half);
    let delta = x - n * d;
    let r = rem * d + delta;
    assert(q > 0) by (nonlinear_arith)
        requires
            d > 0,
            half > 0,
            q == d * (2 * half),
    ;
    assert(0 <= delta < d) by (nonlinear_arith)
        requires
            n * d <= x < (n + 1) * d,
            delta == x - n * d,
    ;
    assert(x == f * q + r) by (nonlinear_arith)
        requires
            n == f * (2 * half) + rem,
            q == d * (2 * half),
            delta == x - n * d,
            r == rem * d + delta,
    ;
    assert(0 <= r < q) by (nonlinear_arith)
        requires
            0 <= delta < d,
            0 <= rem < 2 * half,
            r == rem * d + delta,
            q == d * (2 * half),
    ;
    lemma_fundamental_div_mod_converse(x as int, q as int, f as int, r);
    if rem < half {
        assert(2 * r < q) by (nonlinear_arith)
            requires
                rem < half,
                0 <= delta < d,
                r == rem * d + delta,
                q == d * (2 * half),
        ;
    } else if rem == half {
        assert(2 * r == q + 2 * delta) by (nonlinear_arith)
            requires
                rem == half,
                r == rem * d + delta,
                q == d * (2 * half),
        ;
    } else {
        assert(2 * r > q) by (nonlinear_arith)
            requires
                rem > half,
                d > 0,
                0 <= delta,
                r == rem * d + delta,
                q == d * (2 * half),
        ;
    }
}

/// Powers of two as machine integers.
pub fn pow2_u128(e: u32) -> (r: u128)
    requires
        e < 128,
    ensures
        r == pow2(e as nat),
{
    proof {
        lemma_one_shl(e as u128);
    }
    1u128 << (e as u128)
}

proof fn lemma_one_shl(e: u128)
    requires
        e < 128,
    ensures
        1u128 << e == pow2(e as nat),
    decreases e,
{
    if e == 0 {
        assert(1u128 << 0u128 == 1u128) by (bit_vector);
        lemma2_to64();
    } else {
        let d: u128 = (e - 1) as u128;
        lemma_one_shl(d);
        lemma_pow2_unfold(e as nat);
        assert(1u128 << e == 2 * (1u128 << d)) by (bit_vector)
            requires
                e == d + 1,
                e < 128,
        ;
    }
}

proof fn lemma_length_step(n: nat, x: nat, l: nat, s: nat, y: nat)
    requires
        x * pow2(l) <= n < (x + 1) * pow2(l),
        y == x / pow2(s),
    ensures
        y * pow2(l + s) <= n < (y + 1) * pow2(l + s),
{
    lemma_pow2_adds(l, s);
    lemma_pow2_pos(l);
    lemma_pow2_pos(s);
    let a = pow2(l);
    let b = pow2(s);
    lemma_fundamental_div_mod(x as int, b as int);
    lemma_mod_bound(x as int, b as int);
    let r = x % b;
    assert(y * (a * b) <= x * a) by (nonlinear_arith)
        requires
            x == b * y + r,
            r >= 0,
            a > 0,
    ;
    assert((x + 1) * a <= (y + 1) * (a * b)) by (nonlinear_arith)
        requires
            x == b * y + r,
            r + 1 <= b,
            a > 0,
    ;
}

/// One step of the search for the bit length: drops `s` digits where more are left.
fn narrow(n: u128, x: u128, l: u32, s: u32) -> (r: (u128, u32))
    requires
        0 < x < pow2(2 * (s as nat)),
        1 <= l,
        l + s <= 128,
        0 < s,
        x * pow2((l - 1) as nat) <= n < (x + 1) * pow2((l - 1) as nat),
    ensures
        0 < r.0 < pow2(s as nat),
        l <= r.1 <= l + s,
        r.0 * pow2((r.1 - 1) as nat) <= n < (r.0 + 1) * pow2((r.1 - 1) as nat),
{
    let y: u128 = x >> (s as u128);
    proof {
        vstd::bits::lemma_u128_shr_is_div(x, s as u128);
        let p = pow2(s as nat);
        lemma_pow2_pos(s as nat);
        lemma_pow2_adds(s as nat, s as nat);
        lemma_fundamental_div_mod(x as int, p as int);
        lemma_mod_bound(x as int, p as int);
        let rem = x as nat % p;
        assert(y < p) by (nonlinear_arith)
            requires
                x == p * y + rem,
                x < p * p,
                rem >= 0,
                p > 0,
        ;
        lemma_length_step(n as nat, x as nat, (l - 1) as nat, s as nat, y as nat);
        if y == 0 {
            assert(x < p) by (nonlinear_arith)
                requires
                    x == p * y + rem,
                    y == 0,
                    rem < p,
            ;
        }
    }
    if y == 0 {
        (x, l)
    } else {
        (y, l + s)
    }
}

/// The number of binary digits of a positive integer.
pub fn bit_length(n: u128) -> (l: u32)
    requires
        0 < n,
    ensures
        1 <= l <= 128,
        pow2((l - 1) as nat) <= n < pow2(l as nat),
{
    proof {
        lemma2_to64();
        lemma_pow2_adds(64, 64);
        assert(pow2(128) == 0x1_0000_0000_0000_0000 * 0x1_0000_0000_0000_0000);
        assert(n * pow2(0) <= n < (n + 1) * pow2(0)) by (nonlinear_arith)
            requires
                pow2(0) == 1,
        ;
    }
    let (x, l) = narrow(n, n, 1, 64);
    let (x, l) = narrow(n, x, l, 32);
    let (x, l) = narrow(n, x, l, 16);
    let (x, l) = narrow(n, x, l, 8);
    let (x, l) = narrow(n, x, l, 4);
    let (x, l) = narrow(n, x, l, 2);
    let (x, l) = narrow(n, x, l, 1);
    proof {
        lemma_pow2_unfold(l as nat);
        let p = pow2((l - 1) as nat);
        assert(x * p == p && (x + 1) * p == 2 * p) by (nonlinear_arith)
            requires
                x == 1,
        ;
    }
    l
}

pub open spec fn pos_part(j: int) -> nat {
    if j > 0 {
        j as nat
    } else {
        0
    }
}

/// The exact magnitude `num / den` lies in `[n, n + 1) * 2^j`, at the lower end unless `sticky`.
pub open spec fn brackets(n: nat, j: int, sticky: bool, num: nat, den: nat) -> bool {
    let d = den * pow2(pos_part(j));
    let x = num * pow2(pos_part(-j));
    &&& n * d <= x < (n + 1) * d
    &&& sticky <==> x != n * d
}

/// The scale of a bracketed magnitude follows from the bit length of its leading part.
proof fn lemma_pack_scale(n: nat, j: int, sticky: bool, num: nat, den: nat, l: nat, k: nat)
    requires
        den > 0,
        brackets(n, j, sticky, num, den),
        l >= 1,
        pow2((l - 1) as nat) <= n < pow2(l),
        k == pos_part(l + j - 53),
    ensures
        scale_of(num, den) == k,
{
    let up = pow2(pos_part(j));
    let dn = pow2(pos_part(-j));
    let t = pos_part(-j);
    let jj = pos_part(j);
    let x = num * dn;
    lemma_pow2_pos(t);
    lemma_pow2_pos(jj);
    lemma_pow2_adds(k + 53, t);
    lemma_pow2_adds(l, jj);
    assert(pow2(l + jj) <= pow2(k + 53 + t)) by {
        if l + jj < k + 53 + t {
            lemma_pow2_strictly_increases(l + jj, k + 53 + t);
        }
    }
    let hi = pow2(k + 53);
    let pl = pow2(l);
    assert(num < den * hi) by (nonlinear_arith)
        requires
            num * dn < (n + 1) * (den * up),
            n + 1 <= pl,
            pl * up <= hi * dn,
            den > 0,
            up > 0,
            dn > 0,
    {
        assert((n + 1) * (den * up) <= pl * (den * up));
        assert(pl * (den * up) == den * (pl * up));
        assert(den * (pl * up) <= den * (hi * dn));
        assert(den * (hi * dn) == (den * hi) * dn);
    }
    if k > 0 {
        let lo = pow2((k + 52) as nat);
        let pm = pow2((l - 1) as nat);
        lemma_pow2_adds((k + 52) as nat, t);
        lemma_pow2_adds((l - 1) as nat, jj);
        assert((k + 52) as nat + t == (l - 1) as nat + jj);
        assert(num >= den * lo) by (nonlinear_arith)
            requires
                num * dn >= n * (den * up),
                n >= pm,
                pm * up == lo * dn,
                den > 0,
                up > 0,
                dn > 0,
        {
            assert(n * (den * up) >= pm * (den * up));
            assert(pm * (den * up) == den * (pm * up));
            assert(den * (lo * dn) == (den * lo) * dn);
        }
    }
    lemma_scale(num, den, k);
}

/// Rounding a bracketed magnitude at a scale above its own.
proof fn lemma_pack_round(
    n: nat,
    j: int,
    sticky: bool,
    num: nat,
    den: nat,
    k: nat,
    f: nat,
    rem: nat,
    half: nat,
)
    requires
        den > 0,
        brackets(n, j, sticky, num, den),
        k > j,
        half == pow2((k - j - 1) as nat),
        n == f * (2 * half) + rem,
        rem < 2 * half,
    ensures
        nearest_even(num, den * pow2(k)) == (if rem < half || (rem == half && !sticky && f % 2
            == 0) {
            f
        } else {
            f + 1
        }),
{
    let up = pow2(pos_part(j));
    let dn = pow2(pos_part(-j));
    let d = den * up;
    let x = num * dn;
    lemma_pow2_pos(pos_part(j));
    lemma_pow2_pos(pos_part(-j));
    lemma_pow2_pos(k);
    lemma_pow2_pos((k - j - 1) as nat);
    assert(d > 0 && den * pow2(k) > 0) by (nonlinear_arith)
        requires
            den > 0,
            up > 0,
            pow2(k) > 0,
            d == den * up,
    ;
    lemma_nearest_split(x, d, n, f, rem, half);
    lemma_pow2_unfold((k - j) as nat);
    lemma_pow2_adds(pos_part(j), (k - j) as nat);
    lemma_pow2_adds(k, pos_part(-j));
    let s = 2 * half;
    let pk = pow2(k);
    assert(d * s == (den * pk) * dn) by (nonlinear_arith)
        requires
            up * s == pk * dn,
            d == den * up,
    ;
    lemma_nearest_scale(num, den * pk, dn);
}

/// An exact magnitude at or above its scale needs no rounding.
proof fn lemma_pack_exact(n: nat, j: int, num: nat, den: nat, k: nat)
    requires
        den > 0,
        brackets(n, j, false, num, den),
        k <= j,
    ensures
        nearest_even(num, den * pow2(k)) == n * pow2((j - k) as nat),
{
    let dn = pow2(pos_part(-j));
    lemma2_to64();
    assert(dn == 1);
    lemma_pow2_adds((j - k) as nat, k);
    let a = pow2((j - k) as nat);
    let pk = pow2(k);
    lemma_pow2_pos(k);
    let m = n * a;
    let q = den * pk;
    assert(q > 0) by (nonlinear_arith)
        requires
            den > 0,
            pk > 0,
            q == den * pk,
    ;
    assert(num == m * q) by (nonlinear_arith)
        requires
            num * dn == n * (den * (a * pk)),
            dn == 1,
            m == n * a,
            q == den * pk,
    ;
    lemma_fundamental_div_mod_converse(num as int, q as int, m as int, 0);
}

/// Rounds a bracketed magnitude to the nearest pattern.
pub fn round_pack(
    n: u128,
    j: i32,
    sticky: bool,
    Ghost(num): Ghost<nat>,
    Ghost(den): Ghost<nat>,
) -> (mag: u64)
    requires
        0 < n < pow2(127),
        -5000 <= j <= 5000,
        den > 0,
        brackets(n as nat, j as int, sticky, num, den),
        sticky ==> n >= pow2(53) || j < 0,
    ensures
        mag == round_mag(num, den),
        mag <= INF_MAG,
{
    let l: u32 = bit_length(n);
    let e: i32 = l as i32 + j;
    let k: i32 = if e > 53 {
        e - 53
    } else {
        0
    };
    proof {
        lemma_pack_scale(n as nat, j as int, sticky, num, den, l as nat, k as nat);
        lemma_scale_bounds(num, den);
        lemma2_to64();
        lemma2_to64_rest();
        if l > 127 {
            lemma_pow2_strictly_increases(126, 127);
            if l > 128 {
                lemma_pow2_strictly_increases(127, (l - 1) as nat);
            }
        }
        if sticky && k <= j {
            if l < 54 {
                if l < 53 {
                    lemma_pow2_strictly_increases(l as nat, 53);
                }
            }
        }
    }
    let m: u64 = if k > j {
        let sh: i32 = k - j;
        if sh < 128 {
            let half: u128 = pow2_u128((sh - 1) as u32);
            let full: u128 = pow2_u128(sh as u32);
            let f: u128 = n >> (sh as u128);
            proof {
                lemma_pow2_pos(sh as nat);
                vstd::bits::lemma_u128_shr_is_div(n, sh as u128);
                lemma_pow2_unfold(sh as nat);
                lemma_fundamental_div_mod(n as int, pow2(sh as nat) as int);
                lemma_mod_bound(n as int, pow2(sh as nat) as int);
                let p = pow2(sh as nat);
                let rem = n as nat % p;
                assert(n == f * (2 * half) + rem) by (nonlinear_arith)
                    requires
                        n == p * f + rem,
                        p == 2 * half,
                ;
                lemma_pack_round(n as nat, j as int, sticky, num, den, k as nat, f as nat, rem, half as nat);
                lemma_pack_bound(num, den, k as nat);
            }
            let rem: u128 = n % full;
            if rem < half || (rem == half && !sticky && f % 2 == 0) {
                f as u64
            } else {
                (f + 1) as u64
            }
        } else {
            proof {
                lemma_pow2_pos((sh - 1) as nat);
                if sh > 128 {
                    lemma_pow2_strictly_increases(127, (sh - 1) as nat);
                }
                lemma_pack_round(n as nat, j as int, sticky, num, den, k as nat, 0, n as nat, pow2((sh - 1) as nat));
            }
            0
        }
    } else {
        let a: u128 = pow2_u128((j - k) as u32);
        proof {
            lemma_pack_exact(n as nat, j as int, num, den, k as nat);
            lemma_pack_bound(num, den, k as nat);
        }
        (n * a) as u64
    };
    proof {
        lemma_pack_bound(num, den, k as nat);
    }
    if k >= 2046 {
        INF_MAG
    } else {
        let mag: u64 = (k as u64) * BINADE + m;
        if mag < INF_MAG {
            mag
        } else {
            INF_MAG
        }
    }
}

/// The rounded significand stays within one binade.
proof fn lemma_pack_bound(num: nat, den: nat, k: nat)
    requires
        den > 0,
        scale_of(num, den) == k,
    ensures
        nearest_even(num, den * pow2(k)) <= pow2(53),
        k > 0 ==> nearest_even(num, den * pow2(k)) >= pow2(52),
{
    lemma_scale_bounds(num, den);
    lemma_pow2_adds(k, 53);
    lemma_pow2_adds(k, 52);
    lemma_pow2_pos(k);
    let pk = pow2(k);
    let q = den * pk;
    let f = num / q;
    let r = num % q;
    assert(q > 0) by (nonlinear_arith)
        requires
            den > 0,
            pk > 0,
            q == den * pk,
    ;
    lemma_fundamental_div_mod(num as int, q as int);
    lemma_mod_bound(num as int, q as int);
    let hi = pow2(53);
    assert(f < hi) by (nonlinear_arith)
        requires
            num < den * (pk * hi),
            q == den * pk,
            num == q * f + r,
            r >= 0,
            q > 0,
    {
        assert(den * (pk * hi) == q * hi);
    }
    if k > 0 {
        let lo = pow2(52);
        assert(f >= lo) by (nonlinear_arith)
            requires
                num >= den * (pk * lo),
                q == den * pk,
                num == q * f + r,
                r < q,
                q > 0,
        {
            assert(den * (pk * lo) == q * lo);
            assert(q * (f + 1) > q * lo);
        }
    }
}

/// The nearest integer does not fall where the numerator grows.
pub proof fn lemma_nearest_monotone(a: nat, b: nat, q: nat)
    requires
        a <= b,
        q > 0,
    ensures
        nearest_even(a, q) <= nearest_even(b, q),
{
    lemma_fundamental_div_mod(a as int, q as int);
    lemma_fundamental_div_mod(b as int, q as int);
    lemma_mod_bound(a as int, q as int);
    lemma_mod_bound(b as int, q as int);
    lemma_div_is_ordered(a as int, b as int, q as int);
    let (fa, fb) = (a / q, b / q);
    if fa == fb {
        assert(a % q <= b % q);
    }
}

/// Rounding keeps the order of magnitudes.
pub proof fn lemma_round_monotone(a: nat, b: nat, d: nat)
    requires
        a <= b,
        d > 0,
    ensures
        round_mag(a, d) <= round_mag(b, d),
{
    let (ka, kb) = (scale_of(a, d), scale_of(b, d));
    lemma_scale_bounds(a, d);
    lemma_scale_bounds(b, d);
    lemma2_to64_rest();
    lemma_pow2_pos(ka);
    if ka > kb {
        if kb + 53 < ka + 52 {
            lemma_pow2_strictly_increases(kb + 53, (ka + 52) as nat);
        }
        let (x, y) = (pow2(kb + 53), pow2((ka + 52) as nat));
        assert(d * x <= d * y) by (nonlinear_arith)
            requires
                x <= y,
                d > 0,
        ;
        assert(false);
    }
    lemma_pack_bound(a, d, ka);
    lemma_pack_bound(b, d, kb);
    if ka == kb {
        let p = pow2(ka);
        assert(d * p > 0) by (nonlinear_arith)
            requires
                d > 0,
                p > 0,
        ;
        lemma_nearest_monotone(a, b, d * p);
    }
}

} // verus!
