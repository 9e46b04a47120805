use gpui_ios::ieee::double::Double;
use gpui_ios::ieee::single::Single;

struct Random(u64);

impl Random {
    fn next(&mut self) -> u64 {
        self.0 = self.0.wrapping_mul(6364136223846793005).wrapping_add(1442695040888963407);
        let x = self.0 ^ (self.0 >> 29);
        x.wrapping_mul(0xbf58476d1ce4e5b9) ^ (x >> 32)
    }

    /// A number of any magnitude, or one close to a boundary.
    fn single(&mut self) -> f32 {
        let r = self.next();
        let special: [u32; 12] = [
            0, 0x8000_0000, 1, 0x007f_ffff, 0x0080_0000, 0x3f80_0000, 0x7f7f_ffff, 0x7f80_0000,
            0xff80_0000, 0x7fc0_0000, 0x4b80_0000, 0x3f80_0001,
        ];
        match r % 8 {
            0 => f32::from_bits(special[(r >> 8) as usize % 12]),
            1 => f32::from_bits((r >> 32) as u32 & 0x80ff_ffff),
            2 | 3 => ((r >> 40) as f32 - 8_000_000.0) / 1024.0,
            4 => f32::from_bits(0x3f80_0000 ^ (r >> 41) as u32),
            _ => f32::from_bits((r >> 32) as u32),
        }
    }

    fn double(&mut self) -> f64 {
        let r = self.next();
        let special: [u64; 10] = [
            0,
            1 << 63,
            1,
            0x000f_ffff_ffff_ffff,
            0x0010_0000_0000_0000,
            0x3ff0_0000_0000_0000,
            0x7fef_ffff_ffff_ffff,
            0x7ff0_0000_0000_0000,
            0xfff0_0000_0000_0000,
            0x7ff8_0000_0000_0000,
        ];
        match r % 8 {
            0 => f64::from_bits(special[(r >> 8) as usize % 10]),
            1 => f64::from_bits(self.next() & 0x801f_ffff_ffff_ffff),
            2 | 3 => ((r >> 20) as f64 - 8.0e12) / 65536.0,
            4 => f64::from_bits(0x3690_0000_0000_0000 + (self.next() >> 8)),
            _ => f64::from_bits(self.next()),
        }
    }
}

fn s(v: f32) -> Single {
    Single::from_bits(v.to_bits())
}

fn d(v: f64) -> Double {
    Double::from_bits(v.to_bits())
}

/// The same number, sign of zero and all; any two NaNs are the same.
fn same(ours: Single, native: f32) -> bool {
    let ours = f32::from_bits(ours.to_bits());
    (ours.is_nan() && native.is_nan()) || ours.to_bits() == native.to_bits()
}

fn same_double(ours: Double, native: f64) -> bool {
    let ours = f64::from_bits(ours.to_bits());
    (ours.is_nan() && native.is_nan()) || ours.to_bits() == native.to_bits()
}

#[test]
fn single_arithmetic_agrees_with_native() {
    let mut r = Random(1);
    for _ in 0..200_000 {
        let (a, b) = (r.single(), r.single());
        assert!(same(s(a).add(s(b)), a + b), "{a:e} + {b:e}");
        assert!(same(s(a).sub(s(b)), a - b), "{a:e} - {b:e}");
        assert!(same(s(a).mul(s(b)), a * b), "{a:e} * {b:e}");
        assert!(same(s(a).div(s(b)), a / b), "{a:e} / {b:e}");
        assert!(same(s(a).sqrt(), a.sqrt()), "sqrt {a:e}");
        assert!(same(s(a).neg(), -a));
        assert!(same(s(a).abs(), a.abs()));
        assert_eq!(s(a).lt(s(b)), a < b);
        assert_eq!(s(a).ge(s(b)), a >= b);
        assert_eq!(s(a) == s(b), a == b);
        assert_eq!(s(a) == s(-a), a == -a);
        assert_eq!(s(a) == s(a), !a.is_nan());
        assert!(same_double(s(a).to_double(), a as f64));
    }
}

#[test]
fn double_arithmetic_agrees_with_native() {
    let mut r = Random(2);
    for _ in 0..200_000 {
        let (a, b) = (r.double(), r.double());
        assert!(same_double(d(a).add(d(b)), a + b), "{a:e} + {b:e}");
        assert!(same_double(d(a).sub(d(b)), a - b), "{a:e} - {b:e}");
        assert!(same_double(d(a).mul(d(b)), a * b), "{a:e} * {b:e}");
        assert!(same_double(d(a).div(d(b)), a / b), "{a:e} / {b:e}");
        assert!(same_double(d(a).neg(), -a));
        assert!(same_double(d(a).abs(), a.abs()));
        assert_eq!(d(a).lt(d(b)), a < b);
        assert_eq!(d(a) == d(b), a == b);
        assert_eq!(d(a) == d(-a), a == -a);
        assert_eq!(d(a) == d(a), !a.is_nan());
        assert!(same(d(a).to_single(), a as f32), "narrow {a:e}");
    }
}

#[test]
fn nearby_operands_agree_with_native() {
    let mut r = Random(3);
    for _ in 0..200_000 {
        let a = r.single();
        let b = f32::from_bits(a.to_bits() ^ (r.next() & 0x8000_000f) as u32);
        assert!(same(s(a).add(s(b)), a + b), "{a:e} + {b:e}");
        assert!(same(s(a).sub(s(b)), a - b), "{a:e} - {b:e}");
        let c = r.double();
        let e = f64::from_bits(c.to_bits() ^ (r.next() & 0x8030_0000_0000_000f));
        assert!(same_double(d(c).add(d(e)), c + e), "{c:e} + {e:e}");
        assert!(same_double(d(c).sub(d(e)), c - e), "{c:e} - {e:e}");
    }
}

#[test]
fn bounds_and_clamps_agree_with_native() {
    let mut r = Random(4);
    for _ in 0..100_000 {
        let (a, b, c) = (r.single(), r.single(), r.single());
        let max = s(a).max(s(b));
        let min = s(a).min(s(b));
        // The sign of a zero is left open by the native functions.
        assert!(same(max, a.max(b)) || (a == 0.0 && b == 0.0));
        assert!(same(min, a.min(b)) || (a == 0.0 && b == 0.0));
        if b <= c {
            assert!(same(s(a).clamp(s(b), s(c)), a.clamp(b, c)));
        }
    }
}

#[test]
fn integers_and_fractions_agree_with_native() {
    let mut r = Random(5);
    for _ in 0..100_000 {
        let n = r.next() >> (r.next() % 64);
        assert!(same(Single::from_integer(n), n as f32), "{n}");
        assert!(same_double(Double::from_integer(n), n as f64), "{n}");
    }
    assert!(same(Single::from_fraction(998, 1000), 0.998));
    assert!(same(Single::from_fraction(1, 10), 0.1));
    assert!(same(Single::from_fraction(33, 1000), 0.033));
    assert!(same(Single::from_fraction(1, 1_000_000), 1e-6));
    assert!(same(Single::from_fraction(1, 1_000_000_000), 1e-9));
    assert!(same_double(Double::from_fraction(1, 1_000_000_000_000), 1e-12));
    assert!(same_double(Double::from_fraction(1, 10), 0.1));
}

#[test]
fn rounding_goes_to_the_nearest_even() {
    // Half way between two neighbours.
    assert!(same(Single::from_integer(16777217), 16777216.0));
    assert!(same(Single::from_integer(16777219), 16777220.0));
    assert!(same_double(Double::from_integer(9007199254740993), 9007199254740992.0));
    // The smallest subnormal, and half of it.
    assert!(same(s(f32::from_bits(1)).div(s(2.0)), 0.0));
    assert!(same(s(f32::from_bits(3)).div(s(2.0)), f32::from_bits(2)));
    // Overflow.
    assert!(same(s(f32::MAX).add(s(f32::MAX)), f32::INFINITY));
    assert!(same(s(1.0).div(s(-0.0)), f32::NEG_INFINITY));
    assert!(same(s(0.0).div(s(0.0)), f32::NAN));
    assert!(same(s(-4.0).sqrt(), f32::NAN));
    assert!(same(s(-0.0).sqrt(), -0.0));
}
