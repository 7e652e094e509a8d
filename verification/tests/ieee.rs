use dantesync::ieee::double::Double;
use dantesync::ieee::single::Single;

struct Bits(u64);

impl Bits {
    fn next(&mut self) -> u64 {
        self.0 ^= self.0 << 13;
        self.0 ^= self.0 >> 7;
        self.0 ^= self.0 << 17;
        self.0
    }

    /// A number of any size, often near others.
    fn number(&mut self) -> f64 {
        let b = self.next();
        match b % 8 {
            0 => f64::from_bits(self.next()),
            1 => (self.next() as i64 >> 40) as f64,
            2 => f64::from_bits(self.next() % 0x40_0000_0000_0000),
            3 => [0.0, -0.0, 1.0, -1.0, f64::INFINITY, f64::MAX, f64::MIN_POSITIVE, 0.5]
                [(self.next() % 8) as usize],
            _ => {
                let e = 1000 + self.next() % 60;
                f64::from_bits((self.next() & 0x800f_ffff_ffff_ffff) | (e << 52))
            }
        }
    }

    fn small(&mut self) -> f32 {
        let b = self.next();
        match b % 4 {
            0 => f32::from_bits(self.next() as u32),
            1 => (self.next() % 512) as f32 - 256.0,
            _ => {
                let e = 110 + (self.next() % 40) as u32;
                f32::from_bits((self.next() as u32 & 0x807f_ffff) | (e << 23))
            }
        }
    }
}

fn double(x: f64) -> Double {
    Double::from_bits(x.to_bits())
}

fn single(x: f32) -> Single {
    Single::from_bits(x.to_bits())
}

fn same(got: Double, want: f64) {
    if want.is_nan() {
        assert!(got.is_nan());
    } else {
        assert_eq!(got.to_bits(), want.to_bits());
    }
}

fn same_single(got: Single, want: f32) {
    if want.is_nan() {
        assert!(got.is_nan());
    } else {
        assert_eq!(got.to_bits(), want.to_bits());
    }
}

#[test]
fn double_arithmetic_is_that_of_the_machine() {
    let mut bits = Bits(0x9E37_79B9_7F4A_7C15);
    for _ in 0..40_000 {
        let a = bits.number();
        let b = bits.number();
        same(double(a).add(double(b)), a + b);
        same(double(a).sub(double(b)), a - b);
        same(double(a).mul(double(b)), a * b);
        same(double(a).div(double(b)), a / b);
        same(double(a).neg(), -a);
        same(double(a).abs(), a.abs());
        assert_eq!(double(a).lt(double(b)), a < b);
        assert_eq!(double(a).le(double(b)), a <= b);
        assert_eq!(double(a).is_finite(), a.is_finite());
    }
}

#[test]
fn double_roots_are_those_of_the_machine() {
    let mut bits = Bits(0x2545_F491_4F6C_DD1D);
    for _ in 0..20_000 {
        let a = bits.number();
        same(double(a).sqrt(), a.sqrt());
    }
}

#[test]
fn double_conversions_are_those_of_the_machine() {
    let mut bits = Bits(0xD1B5_4A32_D192_ED03);
    for _ in 0..40_000 {
        let a = bits.number();
        same(double(a).round(), a.round());
        same(double(a).trunc(), a.trunc());
        same(double(a).fract(), a.fract());
        assert_eq!(double(a).to_i64(), a as i64);
        assert_eq!(double(a).to_u64(), a as u64);
        assert_eq!(double(a).to_u32(), a as u32);
        same_single(double(a).to_single(), a as f32);
        let n = bits.next();
        same(Double::from_u64(n), n as f64);
        same(Double::from_i64(n as i64), n as i64 as f64);
        same(Double::from_i64(n as i64 >> 30), (n as i64 >> 30) as f64);
    }
}

#[test]
fn halves_are_rounded_away_from_zero() {
    for (x, y) in [(0.5, 1.0), (-0.5, -1.0), (2.5, 3.0), (1.4999, 1.0), (-2.5, -3.0)] {
        same(double(x).round(), y);
    }
}

#[test]
fn quotients_of_integers_are_the_literals() {
    same(Double::from_ratio(3, 10), 0.3);
    same(Double::from_ratio(-3, 10), -0.3);
    same(Double::from_ratio(5, 100_000), 0.00005);
    same(Double::from_ratio(1, 3), 1.0 / 3.0);
    same(Double::from_ratio(0, 7), 0.0);
    same_single(Single::from_ratio(13, 10), 1.3);
    same_single(Single::from_ratio(1, 100), 0.01);
    same_single(Single::from_ratio(-1, 3), -1.0 / 3.0);
}

#[test]
fn bounds_and_extremes_are_those_of_the_machine() {
    let mut bits = Bits(0xA076_1D64_78BD_642F);
    for _ in 0..20_000 {
        let (a, b, c) = (bits.number(), bits.number(), bits.number());
        if !a.is_nan() && !b.is_nan() && !(a == 0.0 && b == 0.0) {
            same(double(a).max(double(b)), a.max(b));
            same(double(a).min(double(b)), a.min(b));
        }
        if b <= c {
            same(double(a).clamp(double(b), double(c)), a.clamp(b, c));
        }
    }
    same(double(f64::NAN).min(double(1.0)), 1.0);
    same(double(1.0).max(double(f64::NAN)), 1.0);
}

#[test]
fn single_arithmetic_is_that_of_the_machine() {
    let mut bits = Bits(0xE703_7ED1_A0B4_28DB);
    for _ in 0..40_000 {
        let a = bits.small();
        let b = bits.small();
        same_single(single(a).add(single(b)), a + b);
        same_single(single(a).sub(single(b)), a - b);
        same_single(single(a).mul(single(b)), a * b);
        same_single(single(a).div(single(b)), a / b);
        same_single(single(a).sqrt(), a.sqrt());
        assert_eq!(single(a).lt(single(b)), a < b);
        assert_eq!(single(a).le(single(b)), a <= b);
        assert_eq!(single(a).to_u8(), a as u8);
        if !a.is_nan() && !b.is_nan() && !(a == 0.0 && b == 0.0) {
            same_single(single(a).max(single(b)), a.max(b));
            same_single(single(a).min(single(b)), a.min(b));
        }
    }
}

#[test]
fn rounding_keeps_the_order_of_products() {
    let mut bits = Bits(0x8EBC_6AF0_9C88_C6E3);
    for _ in 0..5_000 {
        let m = bits.number().abs();
        if m.is_nan() {
            continue;
        }
        let mut last = double(0.0);
        for k in [4.0, 5.0, 6.0, 8.0] {
            let p = double(k).mul(double(m));
            assert!(last.le(p));
            last = p;
        }
    }
}
