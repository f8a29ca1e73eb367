//! Standard normal distribution machinery.
//!
//! CDF: Hart's rational approximation (Hart 1968, as restated in West,
//! "Better approximations to cumulative normal functions", Wilmott 2005).
//! Inverse CDF: Wichura's AS 241 / PPND16 (Applied Statistics 37, 1988).
//!
//! The exponential and the logarithm of the host machine enter as arguments:
//! each function says at which point they are to be taken.

use crate::consts::{HALF, ONE, ZERO};
use crate::num::{Num, NAN_BITS};
use vstd::prelude::*;

verus! {

/// 1/sqrt(2 pi), the normalizing constant of the standard normal density (0.3989422804014327).
pub const INV_SQRT_TAU: u64 = 0x3FD9_8845_33D4_3651;

/// sqrt(2 pi), used by the tail branch of the CDF (2.5066282746310007).
pub const SQRT_TAU: u64 = 0x4004_0D93_1FF6_2706;

/// -0.5.
pub const NEG_HALF: u64 = 0xBFE0_0000_0000_0000;

/// |x| beyond which the CDF is 0 or 1 (37.0).
pub const HART_CUTOFF: u64 = 0x4042_8000_0000_0000;

/// Boundary between Hart's central approximation and its continued-fraction tail (7.071067811865475).
pub const HART_CENTRAL_BOUND: u64 = 0x401C_48C6_001F_0ABF;

/// Innermost offset of the continued fraction (0.65).
pub const HART_TAIL_OFFSET: u64 = 0x3FE4_CCCC_CCCC_CCCD;

/// Coefficient of the continued fraction (2.0).
pub const CF_TWO: u64 = 0x4000_0000_0000_0000;

/// Coefficient of the continued fraction (3.0).
pub const CF_THREE: u64 = 0x4008_0000_0000_0000;

/// Coefficient of the continued fraction (4.0).
pub const CF_FOUR: u64 = 0x4010_0000_0000_0000;

/// Central-branch bound on |p - 1/2| (0.425).
pub const PPND_CENTRAL_BOUND: u64 = 0x3FDB_3333_3333_3333;

/// Square of the central-branch bound (0.180625).
pub const PPND_CENTRAL_R0: u64 = 0x3FC7_1EB8_51EB_851F;

/// Boundary between the intermediate and far-tail branches (5.0).
pub const PPND_TAIL_BOUND: u64 = 0x4014_0000_0000_0000;

/// Shift of the intermediate branch (1.6).
pub const PPND_MID_SHIFT: u64 = 0x3FF9_9999_9999_999A;

/// Half the logarithm of 2 pi (0.9189385332046727).
pub const HALF_LN_TAU: u64 = 0x3FED_67F1_C864_BEB4;

/// Numerator of Hart's central approximation, highest degree first:
/// 0.0352624965998911, 0.700383064443688, 6.37396220353165, 33.912866078383,
/// 112.079291497871, 221.213596169931, 220.206867912376.
pub open spec fn hart_num() -> Seq<u64> {
    seq![
        0x3FA2_0DED_0B57_FBDEu64,
        0x3FE6_6989_BE8E_A71Fu64,
        0x4019_7EEF_F2A8_6F23u64,
        0x4040_F4D8_CBB0_2431u64,
        0x405C_0513_1CA5_8D3Cu64,
        0x406B_A6D5_C7A2_8CF2u64,
        0x406B_869E_A974_C7E5u64,
    ]
}

fn hart_num_table() -> (r: [u64; 7])
    ensures
        r@ == hart_num(),
{
    let t: [u64; 7] = [
        0x3FA2_0DED_0B57_FBDE,
        0x3FE6_6989_BE8E_A71F,
        0x4019_7EEF_F2A8_6F23,
        0x4040_F4D8_CBB0_2431,
        0x405C_0513_1CA5_8D3C,
        0x406B_A6D5_C7A2_8CF2,
        0x406B_869E_A974_C7E5,
    ];
    proof {
        assert(t@ =~= hart_num());
    }
    t
}

/// Denominator of Hart's central approximation, highest degree first:
/// 0.0883883476483184, 1.75566716318264, 16.064177579207, 86.7807322029461,
/// 296.564248779674, 637.333633378831, 793.826512519948, 440.413735824752.
pub open spec fn hart_den() -> Seq<u64> {
    seq![
        0x3FB6_A09E_667F_3BCAu64,
        0x3FFC_1736_7388_7D11u64,
        0x4030_106D_F11B_D49Du64,
        0x4055_B1F7_8433_A59Au64,
        0x4072_8907_29BA_7820u64,
        0x4083_EAAB_47FA_1777u64,
        0x4088_CE9C_B298_974Au64,
        0x407B_869E_A974_C7E5u64,
    ]
}

fn hart_den_table() -> (r: [u64; 8])
    ensures
        r@ == hart_den(),
{
    let t: [u64; 8] = [
        0x3FB6_A09E_667F_3BCA,
        0x3FFC_1736_7388_7D11,
        0x4030_106D_F11B_D49D,
        0x4055_B1F7_8433_A59A,
        0x4072_8907_29BA_7820,
        0x4083_EAAB_47FA_1777,
        0x4088_CE9C_B298_974A,
        0x407B_869E_A974_C7E5,
    ];
    proof {
        assert(t@ =~= hart_den());
    }
    t
}

/// Central-branch numerator, highest degree first:
/// 2509.0809287301227, 33430.57558358813, 67265.7709270087, 45921.95393154987,
/// 13731.69376550946, 1971.5909503065513, 133.14166789178438, 3.3871328727963665.
pub open spec fn ppnd_a() -> Seq<u64> {
    seq![
        0x40A3_9A29_6F7D_925Eu64,
        0x40E0_52D2_6B2E_45E4u64,
        0x40F0_6C1C_55B7_8F20u64,
        0x40E6_6C3E_869B_752Au64,
        0x40CA_D1D8_CD4E_E71Du64,
        0x409E_CE5D_2213_C0CCu64,
        0x4060_A488_8B1A_436Eu64,
        0x400B_18D9_1E9E_EF75u64,
    ]
}

fn ppnd_a_table() -> (r: [u64; 8])
    ensures
        r@ == ppnd_a(),
{
    let t: [u64; 8] = [
        0x40A3_9A29_6F7D_925E,
        0x40E0_52D2_6B2E_45E4,
        0x40F0_6C1C_55B7_8F20,
        0x40E6_6C3E_869B_752A,
        0x40CA_D1D8_CD4E_E71D,
        0x409E_CE5D_2213_C0CC,
        0x4060_A488_8B1A_436E,
        0x400B_18D9_1E9E_EF75,
    ];
    proof {
        assert(t@ =~= ppnd_a());
    }
    t
}

/// Central-branch denominator, highest degree first:
/// 5226.495278852545, 28729.085735721943, 39307.89580009271, 21213.794301586597,
/// 5394.196021424751, 687.1870074920579, 42.31333070160091, 1.0.
pub open spec fn ppnd_b() -> Seq<u64> {
    seq![
        0x40B4_6A7E_CA98_4A15u64,
        0x40DC_0E45_7CB1_AE76u64,
        0x40E3_317C_AA64_F4BEu64,
        0x40D4_B772_D5D6_5266u64,
        0x40B5_1232_2E75_C89Fu64,
        0x4085_797E_FDC8_B3F7u64,
        0x4045_281B_386E_1AB5u64,
        0x3FF0_0000_0000_0000u64,
    ]
}

fn ppnd_b_table() -> (r: [u64; 8])
    ensures
        r@ == ppnd_b(),
{
    let t: [u64; 8] = [
        0x40B4_6A7E_CA98_4A15,
        0x40DC_0E45_7CB1_AE76,
        0x40E3_317C_AA64_F4BE,
        0x40D4_B772_D5D6_5266,
        0x40B5_1232_2E75_C89F,
        0x4085_797E_FDC8_B3F7,
        0x4045_281B_386E_1AB5,
        0x3FF0_0000_0000_0000,
    ];
    proof {
        assert(t@ =~= ppnd_b());
    }
    t
}

/// Intermediate-branch numerator, highest degree first:
/// 0.0007745450142783414, 0.022723844989269184, 0.2417807251774506, 1.2704582524523684,
/// 3.6478483247632045, 5.769497221460691, 4.630337846156545, 1.4234371107496835.
pub open spec fn ppnd_c() -> Seq<u64> {
    seq![
        0x3F49_615A_C0B7_ACE9u64,
        0x3F97_44EB_6C45_EC67u64,
        0x3FCE_F2AB_B9B8_5C37u64,
        0x3FF4_53CC_0853_75B2u64,
        0x400D_2ECB_1A3D_02C4u64,
        0x4017_13F7_1462_256Au64,
        0x4012_8577_48CA_B19Au64,
        0x3FF6_C665_FDE9_526Au64,
    ]
}

fn ppnd_c_table() -> (r: [u64; 8])
    ensures
        r@ == ppnd_c(),
{
    let t: [u64; 8] = [
        0x3F49_615A_C0B7_ACE9,
        0x3F97_44EB_6C45_EC67,
        0x3FCE_F2AB_B9B8_5C37,
        0x3FF4_53CC_0853_75B2,
        0x400D_2ECB_1A3D_02C4,
        0x4017_13F7_1462_256A,
        0x4012_8577_48CA_B19A,
        0x3FF6_C665_FDE9_526A,
    ];
    proof {
        assert(t@ =~= ppnd_c());
    }
    t
}

/// Intermediate-branch denominator, highest degree first:
/// 1.0507500716444169e-09, 0.0005475938084995345, 0.015198666563616457, 0.14810397642748008,
/// 0.6897673349851, 1.6763848301838038, 2.053191626637759, 1.0.
pub open spec fn ppnd_d() -> Seq<u64> {
    seq![
        0x3E12_0D3F_6864_39E4u64,
        0x3F41_F18C_BFDF_2728u64,
        0x3F8F_207A_7EAB_17BFu64,
        0x3FC2_F512_3394_F040u64,
        0x3FE6_1292_F233_85C9u64,
        0x3FFA_D278_E652_6633u64,
        0x4000_6CEF_BB46_A449u64,
        0x3FF0_0000_0000_0000u64,
    ]
}

fn ppnd_d_table() -> (r: [u64; 8])
    ensures
        r@ == ppnd_d(),
{
    let t: [u64; 8] = [
        0x3E12_0D3F_6864_39E4,
        0x3F41_F18C_BFDF_2728,
        0x3F8F_207A_7EAB_17BF,
        0x3FC2_F512_3394_F040,
        0x3FE6_1292_F233_85C9,
        0x3FFA_D278_E652_6633,
        0x4000_6CEF_BB46_A449,
        0x3FF0_0000_0000_0000,
    ];
    proof {
        assert(t@ =~= ppnd_d());
    }
    t
}

/// Far-tail numerator, highest degree first:
/// 2.0103343992922881e-07, 2.7115555687434876e-05, 0.0012426609473880784, 0.026532189526576124,
/// 0.29656057182850487, 1.7848265399172913, 5.463784911164114, 6.657904643501103.
pub open spec fn ppnd_e() -> Seq<u64> {
    seq![
        0x3E8A_FB74_D693_BF93u64,
        0x3EFC_6EC6_CC59_E02Au64,
        0x3F54_5C19_0842_5345u64,
        0x3F9B_2B41_193B_4EE7u64,
        0x3FD2_FAD9_3152_55CFu64,
        0x3FFC_8EA6_461F_A445u64,
        0x4015_DAEA_6E87_5003u64,
        0x401A_A1B1_C13E_E526u64,
    ]
}

fn ppnd_e_table() -> (r: [u64; 8])
    ensures
        r@ == ppnd_e(),
{
    let t: [u64; 8] = [
        0x3E8A_FB74_D693_BF93,
        0x3EFC_6EC6_CC59_E02A,
        0x3F54_5C19_0842_5345,
        0x3F9B_2B41_193B_4EE7,
        0x3FD2_FAD9_3152_55CF,
        0x3FFC_8EA6_461F_A445,
        0x4015_DAEA_6E87_5003,
        0x401A_A1B1_C13E_E526,
    ];
    proof {
        assert(t@ =~= ppnd_e());
    }
    t
}

/// Far-tail denominator, highest degree first:
/// 2.0442631033899397e-15, 1.421511758316446e-07, 1.8463183175100548e-05, 0.0007868691311456133,
/// 0.014875361290850615, 0.1369298809227358, 0.599832206555888, 1.0.
pub open spec fn ppnd_f() -> Seq<u64> {
    seq![
        0x3CE2_69BF_F1F8_C190u64,
        0x3E83_1446_F740_B9E0u64,
        0x3EF3_5C2C_4963_74BFu64,
        0x3F49_C8BC_979D_C5D7u64,
        0x3F8E_76F9_3215_462Au64,
        0x3FC1_86EB_1834_43FBu64,
        0x3FE3_31D3_4FC7_D77Fu64,
        0x3FF0_0000_0000_0000u64,
    ]
}

fn ppnd_f_table() -> (r: [u64; 8])
    ensures
        r@ == ppnd_f(),
{
    let t: [u64; 8] = [
        0x3CE2_69BF_F1F8_C190,
        0x3E83_1446_F740_B9E0,
        0x3EF3_5C2C_4963_74BF,
        0x3F49_C8BC_979D_C5D7,
        0x3F8E_76F9_3215_462A,
        0x3FC1_86EB_1834_43FB,
        0x3FE3_31D3_4FC7_D77F,
        0x3FF0_0000_0000_0000,
    ];
    proof {
        assert(t@ =~= ppnd_f());
    }
    t
}

/// Horner's rule: the polynomial with the given coefficients, highest degree
/// first, each step rounded.
pub open spec fn horner(coeffs: Seq<u64>, x: Num) -> Num
    decreases coeffs.len(),
{
    if coeffs.len() == 0 {
        Num::of(ZERO)
    } else {
        horner(coeffs.drop_last(), x).fmul(x).fadd(Num::of(coeffs.last()))
    }
}

/// Evaluates a polynomial by Horner's rule.
fn poly(coeffs: &[u64], x: Num) -> (r: Num)
    ensures
        r == horner(coeffs@, x),
{
    let mut acc: Num = Num::of(ZERO);
    let mut i: usize = 0;
    proof {
        assert(coeffs@.take(0) =~= Seq::<u64>::empty());
    }
    while i < coeffs.len()
        invariant
            i <= coeffs@.len(),
            acc == horner(coeffs@.take(i as int), x),
        decreases coeffs@.len() - i,
    {
        proof {
            assert(coeffs@.take(i + 1).drop_last() =~= coeffs@.take(i as int));
        }
        acc = acc * x + Num::of(coeffs[i]);
        i = i + 1;
    }
    proof {
        assert(coeffs@.take(i as int) =~= coeffs@);
    }
    acc
}

/// The point at which the density and the CDF of `x` need the exponential: -x^2/2.
pub open spec fn gauss_exponent(x: Num) -> Num {
    Num::of(NEG_HALF).fmul(x).fmul(x)
}

/// The point at which the density and the CDF of `x` need the exponential: -x^2/2.
pub fn gauss_arg(x: Num) -> (r: Num)
    ensures
        r == gauss_exponent(x),
{
    Num::of(NEG_HALF) * x * x
}

/// Standard normal density from `e`, the exponential at `gauss_arg(x)`.
pub open spec fn pdf_from(e: Num) -> Num {
    Num::of(INV_SQRT_TAU).fmul(e)
}

/// Standard normal density from `e`, the exponential at `gauss_arg(x)`.
pub fn norm_pdf(e: Num) -> (r: Num)
    ensures
        r == pdf_from(e),
{
    Num::of(INV_SQRT_TAU) * e
}

/// The continued fraction of the tail branch.
pub open spec fn hart_fraction(a: Num) -> Num {
    let b0 = a.fadd(Num::of(HART_TAIL_OFFSET));
    let b1 = a.fadd(Num::of(CF_FOUR).fdiv(b0));
    let b2 = a.fadd(Num::of(CF_THREE).fdiv(b1));
    let b3 = a.fadd(Num::of(CF_TWO).fdiv(b2));
    a.fadd(Num::of(ONE).fdiv(b3))
}

/// The upper tail beyond `|x|`, from `e`, the exponential at `gauss_arg(|x|)`.
pub open spec fn upper_tail(a: Num, e: Num) -> Num {
    if a.flt(Num::of(HART_CENTRAL_BOUND)) {
        e.fmul(horner(hart_num(), a)).fdiv(horner(hart_den(), a))
    } else {
        e.fdiv(hart_fraction(a).fmul(Num::of(SQRT_TAU)))
    }
}

/// Standard normal CDF from `e`, the exponential at `gauss_arg(x.abs())`.
pub open spec fn cdf_from(x: Num, e: Num) -> Num {
    let a = x.fabs();
    let positive = Num::of(ZERO).flt(x);
    if x.nan() {
        Num::of(NAN_BITS)
    } else if Num::of(HART_CUTOFF).flt(a) {
        if positive {
            Num::of(ONE)
        } else {
            Num::of(ZERO)
        }
    } else if positive {
        Num::of(ONE).fsub(upper_tail(a, e))
    } else {
        upper_tail(a, e)
    }
}

/// Standard normal CDF from `e`, the exponential at `gauss_arg(x.abs())`.
pub fn norm_cdf(x: Num, e: Num) -> (r: Num)
    ensures
        r == cdf_from(x, e),
{
    if x.is_nan() {
        return Num::of(NAN_BITS);
    }
    let a = x.abs();
    if a > Num::of(HART_CUTOFF) {
        return if x > Num::of(ZERO) {
            Num::of(ONE)
        } else {
            Num::of(ZERO)
        };
    }
    let tail = if a < Num::of(HART_CENTRAL_BOUND) {
        let num = poly(&hart_num_table(), a);
        let den = poly(&hart_den_table(), a);
        e * num / den
    } else {
        let b0 = a + Num::of(HART_TAIL_OFFSET);
        let b1 = a + Num::of(CF_FOUR) / b0;
        let b2 = a + Num::of(CF_THREE) / b1;
        let b3 = a + Num::of(CF_TWO) / b2;
        let b4 = a + Num::of(ONE) / b3;
        e / (b4 * Num::of(SQRT_TAU))
    };
    if x > Num::of(ZERO) {
        Num::of(ONE) - tail
    } else {
        tail
    }
}

/// Outside the cutoff the CDF is exactly 0 or 1, whatever the exponential was.
pub proof fn law_cdf_saturates(x: Num, e: Num)
    requires
        !x.nan(),
        Num::of(HART_CUTOFF).flt(x.fabs()),
    ensures
        cdf_from(x, e) == Num::of(ONE) || cdf_from(x, e) == Num::of(ZERO),
        cdf_from(x, e) == Num::of(ONE) <==> Num::of(ZERO).flt(x),
{
}

/// The density is symmetric, and on the two sides of 0 the CDF takes the
/// upper tail and its complement.
pub proof fn law_normal_is_symmetric(x: Num, e: Num)
    requires
        !x.nan(),
    ensures
        gauss_exponent(x.fneg()) == gauss_exponent(x),
        Num::of(ZERO).flt(x) && x.fle(Num::of(HART_CUTOFF)) ==> cdf_from(x, e) == Num::of(ONE).fsub(
            cdf_from(x.fneg(), e),
        ),
{
    reveal(Num::fmul);
    assert(x.fneg().size() == x.size());
    assert(x.fneg().fabs() == x.fabs());
    let (h, n) = (Num::of(NEG_HALF).fmul(x), Num::of(NEG_HALF).fmul(x.fneg()));
    assert(h.nan() <==> n.nan());
    assert(!h.nan() ==> n.mag() == h.mag() && n.negative() != h.negative());
    assert(!h.nan() ==> n.size() == h.size());
}

/// The probability whose logarithm the tail branches of the quantile need.
pub open spec fn tail_probability(p: Num) -> Num {
    if p.fsub(Num::of(HALF)).flt(Num::of(ZERO)) {
        p
    } else {
        Num::of(ONE).fsub(p)
    }
}

/// Whether the quantile of `p` needs a logarithm: `p` inside (0, 1), away from the centre.
pub open spec fn in_tail(p: Num) -> bool {
    &&& Num::of(ZERO).flt(p)
    &&& p.flt(Num::of(ONE))
    &&& !p.fsub(Num::of(HALF)).fabs().fle(Num::of(PPND_CENTRAL_BOUND))
}

/// The point at which `norm_cdf_inv` needs the logarithm, if it needs one.
pub fn quantile_arg(p: Num) -> (r: Option<Num>)
    ensures
        r == (if in_tail(p) {
            Some(tail_probability(p))
        } else {
            None
        }),
{
    if !(p > Num::of(ZERO) && p < Num::of(ONE)) {
        return None;
    }
    let q = p - Num::of(HALF);
    if q.abs() <= Num::of(PPND_CENTRAL_BOUND) {
        None
    } else if q < Num::of(ZERO) {
        Some(p)
    } else {
        Some(Num::of(ONE) - p)
    }
}

/// The absolute value of a tail quantile at `r`, the root of minus the logarithm.
pub open spec fn tail_quantile(r: Num) -> Num {
    if r.fle(Num::of(PPND_TAIL_BOUND)) {
        let s = r.fsub(Num::of(PPND_MID_SHIFT));
        horner(ppnd_c(), s).fdiv(horner(ppnd_d(), s))
    } else {
        let s = r.fsub(Num::of(PPND_TAIL_BOUND));
        horner(ppnd_e(), s).fdiv(horner(ppnd_f(), s))
    }
}

/// Inverse standard normal CDF from `ln`, the logarithm at `quantile_arg(p)`.
pub open spec fn quantile_from(p: Num, ln: Num) -> Num {
    let q = p.fsub(Num::of(HALF));
    if !(Num::of(ZERO).flt(p) && p.flt(Num::of(ONE))) {
        Num::of(NAN_BITS)
    } else if q.fabs().fle(Num::of(PPND_CENTRAL_BOUND)) {
        let r = Num::of(PPND_CENTRAL_R0).fsub(q.fmul(q));
        q.fmul(horner(ppnd_a(), r)).fdiv(horner(ppnd_b(), r))
    } else {
        let v = tail_quantile(ln.fneg().fsqrt());
        if q.flt(Num::of(ZERO)) {
            v.fneg()
        } else {
            v
        }
    }
}

/// Inverse standard normal CDF for p in (0, 1), NaN outside.
///
/// `ln` is the logarithm at `quantile_arg(p)`; in the centre it is not used.
pub fn norm_cdf_inv(p: Num, ln: Num) -> (r: Num)
    ensures
        r == quantile_from(p, ln),
{
    if !(p > Num::of(ZERO) && p < Num::of(ONE)) {
        return Num::of(NAN_BITS);
    }
    let q = p - Num::of(HALF);
    if q.abs() <= Num::of(PPND_CENTRAL_BOUND) {
        let r = Num::of(PPND_CENTRAL_R0) - q * q;
        return q * poly(&ppnd_a_table(), r) / poly(&ppnd_b_table(), r);
    }
    let r = ln.neg().sqrt();
    let v = if r <= Num::of(PPND_TAIL_BOUND) {
        let s = r - Num::of(PPND_MID_SHIFT);
        poly(&ppnd_c_table(), s) / poly(&ppnd_d_table(), s)
    } else {
        let s = r - Num::of(PPND_TAIL_BOUND);
        poly(&ppnd_e_table(), s) / poly(&ppnd_f_table(), s)
    };
    if q < Num::of(ZERO) {
        v.neg()
    } else {
        v
    }
}

/// Logarithm of the standard normal density.
pub fn norm_log_pdf(x: Num) -> (r: Num)
    ensures
        r == gauss_exponent(x).fsub(Num::of(HALF_LN_TAU)),
{
    gauss_arg(x) - Num::of(HALF_LN_TAU)
}

} // verus!
