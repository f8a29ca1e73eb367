//! The integer arithmetic of `Num` against the machine's own.

use slayer::num::Num;

fn n(x: f64) -> Num {
    Num::of(x.to_bits())
}

fn same(a: Num, b: f64) -> bool {
    if b.is_nan() {
        a.is_nan()
    } else {
        a.bits == b.to_bits()
    }
}

struct Lcg(u64);

impl Lcg {
    fn next(&mut self) -> u64 {
        self.0 = self.0.wrapping_mul(6364136223846793005).wrapping_add(1442695040888963407);
        let x = self.0;
        (x ^ (x >> 29)).wrapping_mul(0xBF58476D1CE4E5B9) ^ (x >> 32)
    }

    /// Bit patterns of every kind: any, near each other, subnormal, round.
    fn pick(&mut self) -> f64 {
        let r = self.next();
        match r % 8 {
            0 | 1 => f64::from_bits(self.next()),
            2 => f64::from_bits(self.next() >> 12),
            3 => f64::from_bits((self.next() & 0x800F_FFFF_FFFF_FFFF) | (0x3FF << 52)),
            4 => (self.next() % 2001) as f64 - 1000.0,
            5 => {
                let e = 1023 - 70 + self.next() % 140;
                f64::from_bits((self.next() & 0x800F_FFFF_FFFF_FFFF) | (e << 52))
            }
            6 => [
                0.0,
                -0.0,
                1.0,
                -1.0,
                f64::INFINITY,
                f64::NEG_INFINITY,
                f64::NAN,
                f64::MAX,
                f64::MIN_POSITIVE,
                5e-324,
                0.5,
                2.5,
            ][(self.next() % 12) as usize],
            _ => (self.next() % 100000) as f64 / 64.0,
        }
    }
}

#[test]
fn four_operations_agree_with_the_machine() {
    let mut g = Lcg(42);
    for _ in 0..400_000 {
        let (a, b) = (g.pick(), g.pick());
        assert!(same(n(a) + n(b), a + b), "{a:e} + {b:e}");
        assert!(same(n(a) - n(b), a - b), "{a:e} - {b:e}");
        assert!(same(n(a) * n(b), a * b), "{a:e} * {b:e}");
        assert!(same(n(a) / n(b), a / b), "{a:e} / {b:e}");
    }
}

#[test]
fn near_cancellation_agrees_with_the_machine() {
    let mut g = Lcg(7);
    for _ in 0..200_000 {
        let a = g.pick();
        let b = f64::from_bits(a.to_bits().wrapping_add(g.next() % 5));
        assert!(same(n(a) - n(b), a - b), "{a:e} - {b:e}");
        assert!(same(n(a) / n(b), a / b), "{a:e} / {b:e}");
    }
}

#[test]
fn roots_and_integral_parts_agree_with_the_machine() {
    let mut g = Lcg(3);
    for _ in 0..300_000 {
        let a = g.pick();
        assert!(same(n(a).sqrt(), a.sqrt()), "sqrt {a:e}");
        assert!(same(n(a).floor(), a.floor()), "floor {a:e}");
        assert!(same(n(a).ceil(), a.ceil()), "ceil {a:e}");
        assert!(same(n(a).round(), a.round()), "round {a:e}");
        assert_eq!(n(a).to_u64(), a as u64);
        assert!(same(n(a).abs(), a.abs()) || a.is_nan());
        assert!(same(n(a).neg(), -a) || a.is_nan());
    }
}

#[test]
fn conversions_agree_with_the_machine() {
    let mut g = Lcg(11);
    for _ in 0..200_000 {
        let x = g.next() >> (g.next() % 64);
        assert!(same(Num::from_u64(x), x as f64));
        let y = x as i64;
        assert!(same(Num::from_i64(y), y as f64));
    }
    assert!(same(Num::from_i64(i64::MIN), i64::MIN as f64));
    assert!(same(Num::from_u64(u64::MAX), u64::MAX as f64));
}

#[test]
fn comparisons_agree_with_the_machine() {
    let mut g = Lcg(5);
    for _ in 0..400_000 {
        let (a, b) = (g.pick(), g.pick());
        assert_eq!(n(a) < n(b), a < b);
        assert_eq!(n(a) <= n(b), a <= b);
        assert_eq!(n(a) > n(b), a > b);
        assert_eq!(n(a) >= n(b), a >= b);
        assert_eq!(n(a) == n(b), a == b);
        assert_eq!(n(a).is_finite(), a.is_finite());
        assert_eq!(n(a).is_nan(), a.is_nan());
        assert_eq!(n(a).before(n(b)), a.total_cmp(&b).is_lt());
        if !a.is_nan() && !b.is_nan() && a != b {
            assert!(same(n(a).max(n(b)), a.max(b)));
            assert!(same(n(a).min(n(b)), a.min(b)));
            let (lo, hi) = if a < b { (a, b) } else { (b, a) };
            let c = g.pick();
            if !c.is_nan() {
                assert!(n(c).clamp(n(lo), n(hi)) == n(c.clamp(lo, hi)));
            }
        }
    }
    assert!(n(f64::NAN).max(n(1.0)) == n(1.0));
    assert!(n(1.0).min(n(f64::NAN)) == n(1.0));
}
