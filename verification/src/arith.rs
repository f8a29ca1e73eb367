//! The four operations on `Num`, each rounded once.

use crate::num::{Num, NAN_BITS, SIGN_BIT};
use crate::rounding::{self, BINADE, INF_MAG};
use vstd::arithmetic::div_mod::*;
use vstd::arithmetic::mul::*;
use vstd::arithmetic::power2::*;
use vstd::prelude::*;

verus! {

/// A finite number taken apart: `significand * 2^scale` units.
pub open spec fn parts_of(a: Num, k: nat, m: nat) -> bool {
    &&& k == a.scale()
    &&& m == a.significand()
    &&& a.size() == m * pow2(k)
    &&& k <= 2045
    &&& m < pow2(53)
    &&& k > 0 ==> m >= pow2(52)
    &&& m == 0 <==> a.mag() == 0
    &&& m == 0 <==> a.size() == 0
}

/// Takes a finite number apart.
pub fn split(a: Num) -> (r: (u32, u64))
    requires
        a.finite(),
    ensures
        parts_of(a, r.0 as nat, r.1 as nat),
{
    let mag: u64 = a.magnitude();
    proof {
        lemma2_to64_rest();
        lemma_pow2_pos(a.scale());
        lemma_mul_nonzero(a.significand() as int, pow2(a.scale()) as int);
    }
    if mag < 2 * BINADE {
        (0, mag)
    } else {
        let k: u64 = mag / BINADE - 1;
        (k as u32, mag - k * BINADE)
    }
}

/// Whether an integer bracket stands for the magnitude `x` units.
pub open spec fn stands_for(r: (u128, i32, bool), x: nat) -> bool {
    &&& 0 < r.0 < pow2(127)
    &&& -5000 <= r.1 <= 5000
    &&& rounding::brackets(r.0 as nat, r.1 as int, r.2, x, 1)
    &&& r.2 ==> r.0 >= pow2(53)
}

proof fn lemma_bits_127()
    ensures
        pow2(127) == 0x8000_0000_0000_0000_0000_0000_0000_0000,
        pow2(117) == 0x20_0000_0000_0000_0000_0000_0000_0000,
        pow2(116) == 0x10_0000_0000_0000_0000_0000_0000_0000,
        pow2(64) == 0x1_0000_0000_0000_0000,
        pow2(63) == 0x8000_0000_0000_0000,
        pow2(58) == 0x400_0000_0000_0000,
        pow2(53) == 0x20_0000_0000_0000,
        pow2(52) == 0x10_0000_0000_0000,
        pow2(0) == 1,
{
    lemma2_to64();
    lemma2_to64_rest();
    lemma_pow2_adds(64, 63);
    lemma_pow2_adds(64, 53);
    lemma_pow2_adds(64, 52);
}

/// The exact sum of two magnitudes as a bracket.
fn add_sizes(k1: u32, m1: u64, k2: u32, m2: u64) -> (r: (u128, i32, bool))
    requires
        k2 <= k1 <= 2045,
        m1 < pow2(58),
        m2 < pow2(58),
        k1 > 0 ==> m1 >= pow2(52),
        m1 > 0 || m2 > 0,
    ensures
        stands_for(r, (m1 * pow2(k1 as nat) + m2 * pow2(k2 as nat)) as nat),
{
    let d: u32 = k1 - k2;
    let ghost x: int = m1 * pow2(k1 as nat) + m2 * pow2(k2 as nat);
    proof {
        lemma_bits_127();
    }
    if d <= 64 {
        let w: u128 = rounding::pow2_u128(d);
        let ghost p2k: nat = pow2(k2 as nat);
        proof {
            lemma_pow2_adds(k2 as nat, d as nat);
            if d < 64 {
                lemma_pow2_strictly_increases(d as nat, 64);
            }
            assert(m1 * w < 0x400_0000_0000_0000 * 0x1_0000_0000_0000_0000 && m1 * w >= 0)
                by (nonlinear_arith)
                requires
                    0 <= m1 < 0x400_0000_0000_0000,
                    0 <= w <= 0x1_0000_0000_0000_0000,
            ;
        }
        let n: u128 = (m1 as u128) * w + (m2 as u128);
        proof {
            assert(x == n * p2k) by (nonlinear_arith)
                requires
                    x == m1 * (p2k * w) + m2 * p2k,
                    n == m1 * w + m2,
            ;
            lemma_pow2_pos(d as nat);
            lemma_pow2_pos(k2 as nat);
            assert(m1 > 0 ==> m1 * w > 0) by (nonlinear_arith)
                requires
                    w > 0,
            ;
            assert(n * (1 * p2k) == n * p2k);
            assert(x * 1 == x);
            assert((n + 1) * p2k == n * p2k + p2k) by (nonlinear_arith);
        }
        (n, k2 as i32, false)
    } else {
        let s: u32 = d - 64;
        let j: i32 = k1 as i32 - 64;
        let (q, sticky) = shift_out(m2, s);
        let n: u128 = (m1 as u128) * 0x1_0000_0000_0000_0000u128 + (q as u128);
        proof {
            let pj = pow2(j as nat);
            let p2k = pow2(k2 as nat);
            let ps = pow2(s as nat);
            lemma_pow2_pos(k2 as nat);
            lemma_pow2_pos(s as nat);
            lemma_pow2_adds(j as nat, 64);
            lemma_pow2_adds(k2 as nat, s as nat);
            let rem = m2 - q * ps;
            assert(x == n * pj + rem * p2k) by (nonlinear_arith)
                requires
                    x == m1 * (pj * 0x1_0000_0000_0000_0000) + m2 * p2k,
                    n == m1 * 0x1_0000_0000_0000_0000 + q,
                    pj == p2k * ps,
                    rem == m2 - q * ps,
            ;
            assert(0 <= rem * p2k < pj) by (nonlinear_arith)
                requires
                    0 <= rem < ps,
                    p2k > 0,
                    pj == p2k * ps,
            ;
            assert(rem * p2k == 0 <==> rem == 0) by (nonlinear_arith)
                requires
                    p2k > 0,
            ;
            assert((n + 1) * pj == n * pj + pj) by (nonlinear_arith);
            assert(n * (1 * pj) == n * pj);
            assert(x * 1 == x);
        }
        (n, j, sticky)
    }
}

/// Drops the last `s` binary digits and says whether any of them was set.
fn shift_out(m: u64, s: u32) -> (r: (u64, bool))
    requires
        m < pow2(58),
    ensures
        0 <= m - r.0 * pow2(s as nat) < pow2(s as nat),
        r.1 <==> m != r.0 * pow2(s as nat),
        r.0 <= m,
{
    proof {
        lemma_pow2_pos(s as nat);
        lemma_bits_127();
    }
    if s >= 64 {
        proof {
            if s > 64 {
                lemma_pow2_strictly_increases(64, s as nat);
            }
            assert(0 * pow2(s as nat) == 0);
        }
        (0, m != 0)
    } else {
        let q: u64 = m >> (s as u64);
        let w: u128 = rounding::pow2_u128(s);
        proof {
            vstd::bits::lemma_u64_shr_is_div(m, s as u64);
            lemma_fundamental_div_mod(m as int, pow2(s as nat) as int);
            lemma_mod_bound(m as int, pow2(s as nat) as int);
            let p = pow2(s as nat);
            lemma_mul_is_commutative(q as int, p as int);
            assert(q <= q * p) by (nonlinear_arith)
                requires
                    p >= 1,
                    q >= 0,
            ;
        }
        (q, (q as u128) * w != m as u128)
    }
}

/// The exact difference of two magnitudes, the greater first, as a bracket.
fn sub_sizes(k1: u32, m1: u64, k2: u32, m2: u64) -> (r: (u128, i32, bool))
    requires
        k2 <= k1 <= 2045,
        m1 < pow2(58),
        m2 < pow2(58),
        k1 > 0 ==> m1 >= pow2(52),
        m1 * pow2(k1 as nat) > m2 * pow2(k2 as nat),
    ensures
        stands_for(r, (m1 * pow2(k1 as nat) - m2 * pow2(k2 as nat)) as nat),
{
    let d: u32 = k1 - k2;
    let ghost x: int = m1 * pow2(k1 as nat) - m2 * pow2(k2 as nat);
    proof {
        lemma_bits_127();
    }
    if d <= 64 {
        let w: u128 = rounding::pow2_u128(d);
        let ghost p2k: nat = pow2(k2 as nat);
        proof {
            lemma_pow2_adds(k2 as nat, d as nat);
            lemma_pow2_pos(k2 as nat);
            if d < 64 {
                lemma_pow2_strictly_increases(d as nat, 64);
            }
            assert(m1 * w < 0x400_0000_0000_0000 * 0x1_0000_0000_0000_0000 && m1 * w >= 0)
                by (nonlinear_arith)
                requires
                    0 <= m1 < 0x400_0000_0000_0000,
                    0 <= w <= 0x1_0000_0000_0000_0000,
            ;
            assert(m1 * w > m2) by (nonlinear_arith)
                requires
                    m1 * (p2k * w) > m2 * p2k,
                    p2k > 0,
            ;
        }
        let n: u128 = (m1 as u128) * w - (m2 as u128);
        proof {
            assert(x == n * p2k) by (nonlinear_arith)
                requires
                    x == m1 * (p2k * w) - m2 * p2k,
                    n == m1 * w - m2,
            ;
            assert(n * (1 * p2k) == n * p2k);
            assert(x * 1 == x);
            assert((n + 1) * p2k == n * p2k + p2k) by (nonlinear_arith);
        }
        (n, k2 as i32, false)
    } else {
        let s: u32 = d - 64;
        let j: i32 = k1 as i32 - 64;
        let (q, sticky) = shift_out(m2, s);
        let c: u128 = if sticky {
            1
        } else {
            0
        };
        let n: u128 = (m1 as u128) * 0x1_0000_0000_0000_0000u128 - (q as u128) - c;
        proof {
            let pj = pow2(j as nat);
            let p2k = pow2(k2 as nat);
            let ps = pow2(s as nat);
            lemma_pow2_pos(k2 as nat);
            lemma_pow2_pos(s as nat);
            lemma_pow2_adds(j as nat, 64);
            lemma_pow2_adds(k2 as nat, s as nat);
            let rem = c * ps - (m2 - q * ps);
            assert(x == n * pj + rem * p2k) by (nonlinear_arith)
                requires
                    x == m1 * (pj * 0x1_0000_0000_0000_0000) - m2 * p2k,
                    n == m1 * 0x1_0000_0000_0000_0000 - q - c,
                    pj == p2k * ps,
                    rem == c * ps - (m2 - q * ps),
            ;
            assert(c == 0 ==> c * ps == 0);
            assert(c == 1 ==> c * ps == ps);
            assert(0 <= rem < ps);
            assert(0 <= rem * p2k < pj) by (nonlinear_arith)
                requires
                    0 <= rem < ps,
                    p2k > 0,
                    pj == p2k * ps,
            ;
            assert(rem * p2k == 0 <==> rem == 0) by (nonlinear_arith)
                requires
                    p2k > 0,
            ;
            assert((n + 1) * pj == n * pj + pj) by (nonlinear_arith);
            assert(n * (1 * pj) == n * pj);
            assert(x * 1 == x);
        }
        (n, j, sticky)
    }
}

/// Among finite numbers the greater pattern has the greater size.
pub proof fn lemma_size_order(a: Num, b: Num)
    requires
        a.finite(),
        b.finite(),
        a.mag() < b.mag(),
    ensures
        a.scale() <= b.scale(),
        a.size() < b.size(),
{
    lemma_bits_127();
    lemma_pow2_pos(a.scale());
    let (ka, ma, kb, mb) = (a.scale(), a.significand(), b.scale(), b.significand());
    let (pa, pb) = (pow2(ka), pow2(kb));
    if ka == kb {
        assert(ma * pa < mb * pa) by (nonlinear_arith)
            requires
                ma < mb,
                pa > 0,
        ;
    } else {
        let e = pow2((kb - ka) as nat);
        let h = pow2((kb - ka - 1) as nat);
        lemma_pow2_unfold((kb - ka) as nat);
        lemma_pow2_pos((kb - ka - 1) as nat);
        lemma_pow2_adds(ka, (kb - ka) as nat);
        assert(ma * pa < mb * (pa * e)) by (nonlinear_arith)
            requires
                ma < 2 * 0x10_0000_0000_0000,
                mb >= 0x10_0000_0000_0000,
                e == 2 * h,
                h >= 1,
                pa > 0,
        {
            assert(mb * (pa * e) >= 0x10_0000_0000_0000 * (pa * e));
            assert(pa * e >= pa * 2);
        }
    }
}

/// On finite numbers, the order of keys is the order of exact values.
pub proof fn lemma_order_is_exact(a: Num, b: Num)
    requires
        a.finite(),
        b.finite(),
    ensures
        a.flt(b) <==> a.units() < b.units(),
        a.fle(b) <==> a.units() <= b.units(),
        a.feq(b) <==> a.units() == b.units(),
{
    lemma_zero_size(a);
    lemma_zero_size(b);
    if a.mag() < b.mag() {
        lemma_size_order(a, b);
    } else if b.mag() < a.mag() {
        lemma_size_order(b, a);
    }
}

/// Only the zeros have size 0.
pub proof fn lemma_zero_size(a: Num)
    requires
        a.finite(),
    ensures
        a.size() == 0 <==> a.mag() == 0,
{
    lemma_pow2_pos(a.scale());
    lemma_mul_nonzero(a.significand() as int, pow2(a.scale()) as int);
}

/// A value that is on the grid is its own rounding.
pub proof fn lemma_round_exact(a: Num)
    requires
        a.finite(),
    ensures
        rounding::round_mag(a.size(), 1) == a.mag(),
        Num::nearest(a.negative(), a.size(), 1) == a,
{
    lemma_bits_127();
    let (k, m) = (a.scale(), a.significand());
    let p = pow2(k);
    lemma_pow2_pos(k);
    lemma_pow2_adds(k, 53);
    lemma_pow2_adds(k, 52);
    assert(m * p < 1 * (p * 0x20_0000_0000_0000)) by (nonlinear_arith)
        requires
            m < 0x20_0000_0000_0000,
            p > 0,
    ;
    if k > 0 {
        assert(m * p >= 1 * (p * 0x10_0000_0000_0000)) by (nonlinear_arith)
            requires
                m >= 0x10_0000_0000_0000,
                p > 0,
        ;
    }
    rounding::lemma_scale(a.size(), 1, k);
    lemma_fundamental_div_mod_converse(a.size() as int, p as int, m as int, 0);
}

/// Rounds a bracketed magnitude and gives it a sign.
fn finish(negative: bool, r: (u128, i32, bool), Ghost(x): Ghost<nat>) -> (out: Num)
    requires
        stands_for(r, x),
    ensures
        out == Num::nearest(negative, x, 1),
{
    let mag: u64 = rounding::round_pack(r.0, r.1, r.2, Ghost(x), Ghost(1));
    Num::with_sign(negative, mag)
}

/// The sum of two finite numbers.
fn add_finite(a: Num, b: Num) -> (r: Num)
    requires
        a.finite(),
        b.finite(),
    ensures
        r == a.fadd(b),
{
    let (hi, lo) = if a.magnitude() >= b.magnitude() {
        (a, b)
    } else {
        (b, a)
    };
    let same: bool = (a.bits >= SIGN_BIT) == (b.bits >= SIGN_BIT);
    let neg: bool = hi.bits >= SIGN_BIT;
    let (k1, m1) = split(hi);
    let (k2, m2) = split(lo);
    proof {
        lemma_bits_127();
        reveal(Num::fadd);
        lemma_zero_size(a);
        lemma_zero_size(b);
        if lo.mag() < hi.mag() {
            lemma_size_order(lo, hi);
        }
    }
    if hi.magnitude() == 0 {
        Num::with_sign(a.bits >= SIGN_BIT && b.bits >= SIGN_BIT, 0)
    } else if same {
        let r = add_sizes(k1, m1, k2, m2);
        finish(neg, r, Ghost(hi.size() + lo.size()))
    } else if hi.magnitude() == lo.magnitude() {
        Num::with_sign(false, 0)
    } else {
        let r = sub_sizes(k1, m1, k2, m2);
        finish(neg, r, Ghost((hi.size() - lo.size()) as nat))
    }
}

/// Greatest multiple that `add_multiple` takes.
pub const MULTIPLE_LIMIT: i64 = 31;

impl Num {
    /// `self + n * step`, rounded once.
    pub open spec fn fused(self, n: int, step: Num) -> Num {
        let pneg = (n < 0) != step.negative();
        if self.nan() || step.nan() {
            Num::of(NAN_BITS)
        } else if step.infinite() {
            if n == 0 || self.infinite() && self.negative() != pneg {
                Num::of(NAN_BITS)
            } else {
                Num::signed(pneg, INF_MAG as nat)
            }
        } else if self.infinite() {
            self
        } else {
            let s = self.units() + n * step.units();
            if s > 0 {
                Num::nearest(false, s as nat, 1)
            } else if s < 0 {
                Num::nearest(true, (-s) as nat, 1)
            } else {
                Num::signed(self.negative() && pneg, 0)
            }
        }
    }

    /// `self + n * step`, rounded once.
    pub fn add_multiple(self, n: i64, step: Num) -> (r: Num)
        requires
            -MULTIPLE_LIMIT <= n <= MULTIPLE_LIMIT,
        ensures
            r == self.fused(n as int, step),
    {
        let pneg: bool = (n < 0) != (step.bits >= SIGN_BIT);
        if self.is_nan() || step.is_nan() {
            Num::of(NAN_BITS)
        } else if !step.is_finite() {
            if n == 0 || !self.is_finite() && (self.bits >= SIGN_BIT) != pneg {
                Num::of(NAN_BITS)
            } else {
                Num::with_sign(pneg, INF_MAG)
            }
        } else if !self.is_finite() {
            self
        } else {
            add_multiple_finite(self, n, step, pneg)
        }
    }
}

/// The magnitude of a multiple of a finite number, with its scale.
fn multiple_parts(count: u64, step: Num) -> (r: (u32, u64))
    requires
        count <= MULTIPLE_LIMIT,
        step.finite(),
    ensures
        r.0 <= 2045,
        r.1 < pow2(58),
        count > 0 && r.0 > 0 ==> r.1 >= pow2(52),
        r.1 * pow2(r.0 as nat) == count * step.size(),
        r.1 == 0 <==> count * step.size() == 0,
{
    let (k, m) = split(step);
    proof {
        lemma_bits_127();
        lemma_pow2_pos(k as nat);
        assert(m * count <= 0x20_0000_0000_0000 * 31 && (count > 0 ==> m * count >= m) && m * count
            >= 0) by (nonlinear_arith)
            requires
                0 <= m < 0x20_0000_0000_0000,
                0 <= count <= 31,
        ;
        let p = pow2(k as nat);
        assert((m * count) * p == count * (m * p)) by (nonlinear_arith);
        assert((m * count) * p == 0 <==> m * count == 0) by (nonlinear_arith)
            requires
                p > 0,
        ;
    }
    (k, m * count)
}

/// A magnitude of scale `k` at a lower scale.
fn at_scale(k: u32, m: u64, low: u32) -> (r: i128)
    requires
        low <= k <= low + 8,
        k <= 2045,
        m < pow2(58),
    ensures
        0 <= r < 0x4_0000_0000_0000_0000,
        r * pow2(low as nat) == m * pow2(k as nat),
{
    let w: u128 = rounding::pow2_u128(k - low);
    proof {
        lemma_bits_127();
        lemma_pow2_adds(low as nat, (k - low) as nat);
        lemma2_to64();
        if k - low < 8 {
            lemma_pow2_strictly_increases((k - low) as nat, 8);
        }
        assert(0 <= m * w < 0x4_0000_0000_0000_0000) by (nonlinear_arith)
            requires
                0 <= m < 0x400_0000_0000_0000,
                0 <= w <= 256,
        ;
        let pl = pow2(low as nat);
        assert((m * w) * pl == m * (pl * w)) by (nonlinear_arith);
    }
    (m as u128 * w) as i128
}

/// A magnitude at a scale, as a bracket.
fn exact(n: u128, k: u32, Ghost(x): Ghost<nat>) -> (r: (u128, i32, bool))
    requires
        0 < n < pow2(127),
        k <= 2045,
        x == n * pow2(k as nat),
    ensures
        stands_for(r, x),
{
    proof {
        let p = pow2(k as nat);
        lemma_pow2_pos(k as nat);
        lemma_bits_127();
        assert(n * (1 * p) == n * p && (n + 1) * (1 * p) == n * p + p) by (nonlinear_arith);
        assert(x * 1 == x);
    }
    (n, k as i32, false)
}

fn add_multiple_finite(a: Num, n: i64, step: Num, pneg: bool) -> (r: Num)
    requires
        a.finite(),
        step.finite(),
        -MULTIPLE_LIMIT <= n <= MULTIPLE_LIMIT,
        pneg == ((n < 0) != step.negative()),
    ensures
        r == a.fused(n as int, step),
{
    let count: u64 = if n < 0 {
        (-n) as u64
    } else {
        n as u64
    };
    let aneg: bool = a.bits >= SIGN_BIT;
    let (ka, ma) = split(a);
    let (kp, mp) = multiple_parts(count, step);
    let ghost (xa, xp) = (a.size() as int, count * step.size());
    proof {
        lemma_bits_127();
        lemma_zero_size(a);
        let z = step.size() as int;
        assert(xp >= 0) by (nonlinear_arith)
            requires
                xp == count * z,
                count >= 0,
                z >= 0,
        ;
        assert(n * step.units() == (if pneg {
            -xp
        } else {
            xp
        })) by {
            let u = step.units();
            if n < 0 {
                assert(n * u == -(count * u)) by (nonlinear_arith)
                    requires
                        n == -(count as int),
                ;
            }
            if step.negative() {
                assert(count * u == -(count * z)) by (nonlinear_arith)
                    requires
                        u == -z,
                ;
            }
        }
    }
    if mp == 0 {
        if ma == 0 {
            return Num::with_sign(aneg && pneg, 0);
        }
        proof {
            lemma_round_exact(a);
        }
        return a;
    }
    if ma == 0 {
        let r = add_sizes(kp, mp, 0, 0);
        return finish(pneg, r, Ghost(xp as nat));
    }
    if aneg == pneg {
        let r = if ka >= kp {
            add_sizes(ka, ma, kp, mp)
        } else {
            add_sizes(kp, mp, ka, ma)
        };
        return finish(aneg, r, Ghost((xa + xp) as nat));
    }
    if ka > kp + 8 {
        proof {
            lemma_far_apart(ka as nat, ma as nat, kp as nat, mp as nat);
        }
        let r = sub_sizes(ka, ma, kp, mp);
        finish(aneg, r, Ghost((xa - xp) as nat))
    } else if kp > ka + 8 {
        proof {
            lemma_far_apart(kp as nat, mp as nat, ka as nat, ma as nat);
        }
        let r = sub_sizes(kp, mp, ka, ma);
        finish(pneg, r, Ghost((xp - xa) as nat))
    } else {
        let low: u32 = if ka < kp {
            ka
        } else {
            kp
        };
        let va: i128 = at_scale(ka, ma, low);
        let vp: i128 = at_scale(kp, mp, low);
        let d: i128 = va - vp;
        let ghost p = pow2(low as nat) as int;
        proof {
            lemma_pow2_pos(low as nat);
            assert(xa - xp == d * p) by (nonlinear_arith)
                requires
                    xa == va * p,
                    xp == vp * p,
                    d == va - vp,
            ;
            assert((d > 0 ==> d * p > 0) && (d < 0 ==> d * p < 0) && (d == 0 ==> d * p == 0))
                by (nonlinear_arith)
                requires
                    p > 0,
            ;
        }
        if d > 0 {
            finish(
                aneg,
                exact(d as u128, low, Ghost((xa - xp) as nat)),
                Ghost((xa - xp) as nat),
            )
        } else if d < 0 {
            let e: i128 = -d;
            proof {
                assert(e * p == -(d * p)) by (nonlinear_arith)
                    requires
                        e == -d,
                ;
            }
            finish(
                pneg,
                exact(e as u128, low, Ghost((xp - xa) as nat)),
                Ghost((xp - xa) as nat),
            )
        } else {
            Num::with_sign(false, 0)
        }
    }
}

/// Of two magnitudes far apart in scale the one of the greater scale is greater.
proof fn lemma_far_apart(k1: nat, m1: nat, k2: nat, m2: nat)
    requires
        k1 > k2 + 8,
        m1 >= pow2(52),
        m2 < pow2(58),
    ensures
        m1 * pow2(k1) > m2 * pow2(k2),
{
    lemma_bits_127();
    lemma_pow2_pos(k2);
    lemma_pow2_adds(k2, (k1 - k2) as nat);
    lemma2_to64();
    if k1 - k2 > 9 {
        lemma_pow2_strictly_increases(9, (k1 - k2) as nat);
    }
    let (p, w) = (pow2(k2), pow2((k1 - k2) as nat));
    assert(m1 * (p * w) > m2 * p) by (nonlinear_arith)
        requires
            m1 >= 0x10_0000_0000_0000,
            m2 < 0x400_0000_0000_0000,
            w >= 512,
            p > 0,
    ;
}

impl core::ops::Add for Num {
    type Output = Num;

    fn add(self, rhs: Num) -> (r: Num) {
        if self.is_finite() && rhs.is_finite() {
            return add_finite(self, rhs);
        }
        proof {
            reveal(Num::fadd);
        }
        if self.is_nan() || rhs.is_nan() {
            Num::of(NAN_BITS)
        } else if !self.is_finite() {
            if !rhs.is_finite() && (self.bits >= SIGN_BIT) != (rhs.bits >= SIGN_BIT) {
                Num::of(NAN_BITS)
            } else {
                self
            }
        } else {
            rhs
        }
    }
}

impl vstd::std_specs::ops::AddSpecImpl for Num {
    open spec fn obeys_add_spec() -> bool {
        true
    }

    open spec fn add_req(self, rhs: Num) -> bool {
        true
    }

    open spec fn add_spec(self, rhs: Num) -> Num {
        self.fadd(rhs)
    }
}

impl core::ops::Sub for Num {
    type Output = Num;

    fn sub(self, rhs: Num) -> (r: Num) {
        self + rhs.neg()
    }
}

impl vstd::std_specs::ops::SubSpecImpl for Num {
    open spec fn obeys_sub_spec() -> bool {
        true
    }

    open spec fn sub_req(self, rhs: Num) -> bool {
        true
    }

    open spec fn sub_spec(self, rhs: Num) -> Num {
        self.fsub(rhs)
    }
}

/// The product of two finite numbers other than zero.
fn mul_finite(a: Num, b: Num) -> (r: Num)
    requires
        a.finite(),
        b.finite(),
        a.mag() > 0,
        b.mag() > 0,
    ensures
        r == a.fmul(b),
{
    let neg: bool = (a.bits >= SIGN_BIT) != (b.bits >= SIGN_BIT);
    let (k1, m1) = split(a);
    let (k2, m2) = split(b);
    let ghost num: nat = a.size() * b.size();
    let ghost den: nat = pow2(1074);
    proof {
        lemma_bits_127();
        assert(0 < m1 * m2 < 0x20_0000_0000_0000 * 0x20_0000_0000_0000) by (nonlinear_arith)
            requires
                0 < m1 < 0x20_0000_0000_0000,
                0 < m2 < 0x20_0000_0000_0000,
        ;
    }
    let n: u128 = (m1 as u128) * (m2 as u128);
    let j: i32 = k1 as i32 + k2 as i32 - 1074;
    proof {
        reveal(Num::fmul);
        lemma_pow2_pos(1074);
        let jj = rounding::pos_part(j as int);
        let t = rounding::pos_part(-(j as int));
        lemma_pow2_pos(jj);
        lemma_pow2_adds(1074, jj);
        lemma_pow2_adds(k1 as nat, k2 as nat);
        lemma_pow2_adds((k1 + k2) as nat, t);
        let (p1, p2, pj, pt) = (pow2(k1 as nat), pow2(k2 as nat), pow2(jj), pow2(t));
        let d = den * pj;
        assert(num * pt == n * d) by (nonlinear_arith)
            requires
                num == (m1 * p1) * (m2 * p2),
                n == m1 * m2,
                d == (p1 * p2) * pt,
        ;
        assert(d > 0) by (nonlinear_arith)
            requires
                den > 0,
                pj > 0,
                d == den * pj,
        ;
        assert((n + 1) * d == n * d + d) by (nonlinear_arith);
    }
    let mag: u64 = rounding::round_pack(n, j, false, Ghost(num), Ghost(den));
    Num::with_sign(neg, mag)
}

impl core::ops::Mul for Num {
    type Output = Num;

    fn mul(self, rhs: Num) -> (r: Num) {
        let neg: bool = (self.bits >= SIGN_BIT) != (rhs.bits >= SIGN_BIT);
        let zero: bool = self.magnitude() == 0 || rhs.magnitude() == 0;
        if self.is_finite() && rhs.is_finite() && !zero {
            return mul_finite(self, rhs);
        }
        proof {
            reveal(Num::fmul);
        }
        if self.is_nan() || rhs.is_nan() {
            Num::of(NAN_BITS)
        } else if self.is_finite() && rhs.is_finite() {
            proof {
                lemma_zero_size(self);
                lemma_zero_size(rhs);
                lemma_pow2_pos(1074);
                let n = self.size() * rhs.size();
                assert(n == 0) by (nonlinear_arith)
                    requires
                        n == self.size() * rhs.size(),
                        self.size() == 0 || rhs.size() == 0,
                ;
                lemma_round_zero(pow2(1074));
            }
            Num::with_sign(neg, 0)
        } else if zero {
            Num::of(NAN_BITS)
        } else {
            Num::with_sign(neg, INF_MAG)
        }
    }
}

impl vstd::std_specs::ops::MulSpecImpl for Num {
    open spec fn obeys_mul_spec() -> bool {
        true
    }

    open spec fn mul_req(self, rhs: Num) -> bool {
        true
    }

    open spec fn mul_spec(self, rhs: Num) -> Num {
        self.fmul(rhs)
    }
}

/// Zero rounds to zero.
pub proof fn lemma_round_zero(d: nat)
    requires
        d > 0,
    ensures
        rounding::round_mag(0, d) == 0,
{
    lemma_pow2_pos(53);
    lemma_pow2_pos(0);
    lemma_mul_strictly_positive(d as int, pow2(53) as int);
    lemma_mul_strictly_positive(d as int, pow2(0) as int);
    lemma_fundamental_div_mod_converse(0, (d * pow2(0)) as int, 0, 0);
}

/// Moves the leading digit of a significand to bit 52.
pub fn normalize(m: u64) -> (r: (u64, u32))
    requires
        0 < m < pow2(53),
    ensures
        pow2(52) <= r.0 < pow2(53),
        r.1 <= 52,
        r.0 == m * pow2(r.1 as nat),
{
    let l: u32 = rounding::bit_length(m as u128);
    proof {
        lemma_bits_127();
        if l > 53 {
            if l > 54 {
                lemma_pow2_strictly_increases(53, (l - 1) as nat);
            }
        }
    }
    let z: u32 = 53 - l;
    let w: u128 = rounding::pow2_u128(z);
    proof {
        lemma_pow2_adds((l - 1) as nat, z as nat);
        lemma_pow2_adds(l as nat, z as nat);
        lemma_pow2_pos(z as nat);
        let lo = pow2((l - 1) as nat);
        let hi = pow2(l as nat);
        assert(lo * w <= m * w < hi * w) by (nonlinear_arith)
            requires
                lo <= m < hi,
                w > 0,
        ;
    }
    ((m as u128 * w) as u64, z)
}

/// The quotient of two finite numbers other than zero.
fn div_finite(a: Num, b: Num) -> (r: Num)
    requires
        a.finite(),
        b.finite(),
        a.mag() > 0,
        b.mag() > 0,
    ensures
        r == a.fdiv(b),
{
    let neg: bool = (a.bits >= SIGN_BIT) != (b.bits >= SIGN_BIT);
    let (k1, m1) = split(a);
    let (k2, m2) = split(b);
    let (a1, z1) = normalize(m1);
    let (a2, z2) = normalize(m2);
    let ghost num: nat = a.size() * pow2(1074);
    let ghost den: nat = b.size();
    proof {
        lemma_bits_127();
    }
    let top: u128 = (a1 as u128) * 0x1_0000_0000_0000_0000u128;
    let n: u128 = top / (a2 as u128);
    let sticky: bool = top % (a2 as u128) != 0;
    let j: i32 = k1 as i32 - k2 as i32 + 1010 + z2 as i32 - z1 as i32;
    proof {
        reveal(Num::fdiv);
        lemma_fundamental_div_mod(top as int, a2 as int);
        lemma_mod_bound(top as int, a2 as int);
        let rem = top % (a2 as u128);
        assert(0x4000_0000_0000_0000 <= n < 0x8_0000_0000_0000_0000) by (nonlinear_arith)
            requires
                top == a2 * n + rem,
                0 <= rem < a2,
                0x10_0000_0000_0000 <= a2 < 0x20_0000_0000_0000,
                0x10_0000_0000_0000 * 0x1_0000_0000_0000_0000 <= top < 0x20_0000_0000_0000
                    * 0x1_0000_0000_0000_0000,
        ;
        lemma_quotient_brackets(
            n as nat,
            j as int,
            k1 as nat,
            m1 as nat,
            z1 as nat,
            a1 as nat,
            k2 as nat,
            m2 as nat,
            z2 as nat,
            a2 as nat,
            rem as nat,
        );
    }
    let mag: u64 = rounding::round_pack(n, j, sticky, Ghost(num), Ghost(den));
    Num::with_sign(neg, mag)
}

proof fn lemma_quotient_brackets(
    n: nat,
    j: int,
    k1: nat,
    m1: nat,
    z1: nat,
    a1: nat,
    k2: nat,
    m2: nat,
    z2: nat,
    a2: nat,
    rem: nat,
)
    requires
        a1 == m1 * pow2(z1),
        a2 == m2 * pow2(z2),
        m2 > 0,
        a1 * 0x1_0000_0000_0000_0000 == a2 * n + rem,
        rem < a2,
        j == k1 - k2 + 1010 + z2 - z1,
    ensures
        rounding::brackets(
            n,
            j,
            rem != 0,
            (m1 * pow2(k1)) * pow2(1074),
            m2 * pow2(k2),
        ),
{
    let jj = rounding::pos_part(j);
    let t = rounding::pos_part(-j);
    let num = (m1 * pow2(k1)) * pow2(1074);
    let den = m2 * pow2(k2);
    let d = den * pow2(jj);
    let x = num * pow2(t);
    let pz = pow2(z1) * pow2(z2);
    lemma_pow2_pos(z1);
    lemma_pow2_pos(z2);
    lemma_mul_strictly_positive(pow2(z1) as int, pow2(z2) as int);
    // d * 2^(z1 + z2) == a2 * c and x * 2^(z1 + z2) == a1 * 2^64 * c.
    let c = pow2(k2 + jj + z1);
    lemma_pow2_pos(k2 + jj + z1);
    lemma_pow2_adds(k2, jj);
    lemma_pow2_adds(k2 + jj, z1);
    lemma_pow2_adds(k1, 1074);
    lemma_pow2_adds(k1 + 1074, t);
    lemma_pow2_adds(k1 + 1074 + t, z2);
    lemma_pow2_adds(64, k2 + jj + z1);
    lemma2_to64();
    assert(k1 + 1074 + t + z2 == 64 + (k2 + jj + z1));
    let (p1, p2, pj, pt, q1, q2, p1074) = (
        pow2(k1),
        pow2(k2),
        pow2(jj),
        pow2(t),
        pow2(z1),
        pow2(z2),
        pow2(1074),
    );
    assert(d * pz == a2 * c) by (nonlinear_arith)
        requires
            d == (m2 * p2) * pj,
            pz == q1 * q2,
            a2 == m2 * q2,
            c == (p2 * pj) * q1,
    ;
    let top = a1 * 0x1_0000_0000_0000_0000;
    assert(x * pz == top * c) by (nonlinear_arith)
        requires
            x == ((m1 * p1) * p1074) * pt,
            pz == q1 * q2,
            top == (m1 * q1) * 0x1_0000_0000_0000_0000,
            ((p1 * p1074) * pt) * q2 == 0x1_0000_0000_0000_0000 * c,
    {
        assert(x * pz == (m1 * q1) * (((p1 * p1074) * pt) * q2));
        assert(top * c == (m1 * q1) * (0x1_0000_0000_0000_0000 * c));
    }
    assert(x * pz == (n * d) * pz + rem * c) by (nonlinear_arith)
        requires
            x * pz == top * c,
            top == a2 * n + rem,
            d * pz == a2 * c,
    {
        assert((n * d) * pz == n * (a2 * c));
        assert(top * c == n * (a2 * c) + rem * c);
    }
    assert(x >= n * d && (x == n * d <==> rem == 0) && x < (n + 1) * d) by (nonlinear_arith)
        requires
            x * pz == (n * d) * pz + rem * c,
            rem < a2,
            d * pz == a2 * c,
            c > 0,
            pz > 0,
            rem >= 0,
    {
        assert(rem * c >= 0);
        assert(rem > 0 ==> rem * c > 0);
        assert(rem * c < a2 * c);
        assert((x - n * d) * pz == rem * c);
        assert(((n + 1) * d) * pz == (n * d) * pz + d * pz);
    }
}

impl core::ops::Div for Num {
    type Output = Num;

    fn div(self, rhs: Num) -> (r: Num) {
        let neg: bool = (self.bits >= SIGN_BIT) != (rhs.bits >= SIGN_BIT);
        let zero: bool = self.magnitude() == 0 || rhs.magnitude() == 0;
        if self.is_finite() && rhs.is_finite() && !zero {
            return div_finite(self, rhs);
        }
        proof {
            reveal(Num::fdiv);
        }
        if self.is_nan() || rhs.is_nan() {
            Num::of(NAN_BITS)
        } else if !self.is_finite() {
            if !rhs.is_finite() {
                Num::of(NAN_BITS)
            } else {
                Num::with_sign(neg, INF_MAG)
            }
        } else if !rhs.is_finite() {
            Num::with_sign(neg, 0)
        } else if rhs.magnitude() == 0 {
            if self.magnitude() == 0 {
                Num::of(NAN_BITS)
            } else {
                Num::with_sign(neg, INF_MAG)
            }
        } else {
            proof {
                lemma_zero_size(self);
                lemma_zero_size(rhs);
                assert(0 * pow2(1074) == 0);
                lemma_round_zero(rhs.size());
            }
            Num::with_sign(neg, 0)
        }
    }
}

impl vstd::std_specs::ops::DivSpecImpl for Num {
    open spec fn obeys_div_spec() -> bool {
        true
    }

    open spec fn div_req(self, rhs: Num) -> bool {
        true
    }

    open spec fn div_spec(self, rhs: Num) -> Num {
        self.fdiv(rhs)
    }
}

} // verus!
