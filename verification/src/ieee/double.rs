//! Double-precision numbers.
use crate::ieee::arith::{less, over, plus, times, Parts};
use crate::ieee::convert::{
    from_integer, from_quotient, integral, narrow, narrowed, truncated, whole_capped,
};
use crate::ieee::root::root;
use crate::ieee::rounding::{binary32, binary64, lemma_format, Format};
use crate::ieee::single::Single;
use vstd::prelude::*;

verus! {

/// A double-precision number, given by its interchange encoding.
#[derive(Clone, Copy, Debug, PartialEq, Eq, Structural)]
pub struct Double {
    pub bits: u64,
}

/// The format of `Double`.
fn wide() -> (f: Format)
    ensures
        f == binary64(),
        f.valid(),
{
    Format { hidden: 0x10_0000_0000_0000, precision: 53, top: 2047, unit: 1074 }
}

/// The format of `Single`.
fn slim() -> (f: Format)
    ensures
        f == binary32(),
{
    Format { hidden: 0x80_0000, precision: 24, top: 255, unit: 149 }
}

/// Clips an integer to a range.
pub open spec fn clip(n: int, lo: int, hi: int) -> int {
    if n < lo {
        lo
    } else if n > hi {
        hi
    } else {
        n
    }
}

impl Double {
    /// Sign and magnitude.
    pub open spec fn parts(self) -> Parts {
        if self.bits >= 0x8000_0000_0000_0000 {
            Parts { neg: true, mag: (self.bits - 0x8000_0000_0000_0000) as u64 }
        } else {
            Parts { neg: false, mag: self.bits }
        }
    }

    /// The number with the given sign and magnitude.
    pub open spec fn of(p: Parts) -> Double {
        if p.neg {
            Double { bits: (p.mag + 0x8000_0000_0000_0000) as u64 }
        } else {
            Double { bits: p.mag }
        }
    }

    pub open spec fn nan(self) -> bool {
        binary64().is_nan(self.parts())
    }

    pub open spec fn finite(self) -> bool {
        binary64().is_finite(self.parts())
    }

    /// The value in units of the smallest positive number; an infinity counts
    /// as what would follow the largest finite number.
    #[verifier::opaque]
    pub open spec fn value(self) -> int {
        binary64().value(self.parts())
    }

    pub open spec fn zero() -> Double {
        Double { bits: 0 }
    }

    /// The number nearest to an integer.
    pub open spec fn integer(n: int) -> Double {
        Double::ratio(n, 1)
    }

    /// The number nearest to `n / d`.
    #[verifier::opaque]
    pub open spec fn ratio(n: int, d: nat) -> Double {
        let a = if n < 0 {
            -n
        } else {
            n
        };
        Double::of(binary64().quotient_of_integers(n < 0, a as nat, d))
    }

    #[verifier::opaque]
    pub open spec fn plus(self, o: Double) -> Double {
        Double::of(binary64().plus(self.parts(), o.parts()))
    }

    pub open spec fn minus(self, o: Double) -> Double {
        self.plus(o.negated())
    }

    #[verifier::opaque]
    pub open spec fn times(self, o: Double) -> Double {
        Double::of(binary64().times(self.parts(), o.parts()))
    }

    #[verifier::opaque]
    pub open spec fn over(self, o: Double) -> Double {
        Double::of(binary64().over(self.parts(), o.parts()))
    }

    #[verifier::opaque]
    pub open spec fn root(self) -> Double {
        Double::of(binary64().root(self.parts()))
    }

    pub open spec fn negated(self) -> Double {
        Double::of(Parts { neg: !self.parts().neg, mag: self.parts().mag })
    }

    pub open spec fn absolute(self) -> Double {
        Double::of(Parts { neg: false, mag: self.parts().mag })
    }

    /// `self < o`, false if either is not a number.
    pub open spec fn below(self, o: Double) -> bool {
        binary64().less(self.parts(), o.parts())
    }

    /// `self <= o`, false if either is not a number.
    pub open spec fn at_most(self, o: Double) -> bool {
        !self.nan() && !o.nan() && self.value() <= o.value()
    }

    /// The number itself between the bounds, else the bound it exceeds.
    pub open spec fn clamped(self, lo: Double, hi: Double) -> Double {
        if self.below(lo) {
            lo
        } else if hi.below(self) {
            hi
        } else {
            self
        }
    }

    /// The larger of two numbers; the other if one is not a number.
    pub open spec fn larger(self, o: Double) -> Double {
        if self.nan() || self.below(o) {
            o
        } else {
            self
        }
    }

    /// The smaller of two numbers; the other if one is not a number.
    pub open spec fn smaller(self, o: Double) -> Double {
        if self.nan() || o.below(self) {
            o
        } else {
            self
        }
    }

    /// The number rounded to an integral one, halves away from zero.
    #[verifier::opaque]
    pub open spec fn rounded(self) -> Double {
        Double::of(binary64().integral(self.parts()))
    }

    /// The integral part.
    #[verifier::opaque]
    pub open spec fn truncation(self) -> Double {
        Double::of(binary64().truncated(self.parts()))
    }

    /// The integral part clipped to `lo..=hi`; zero if not a number.
    #[verifier::opaque]
    pub open spec fn as_integer(self, lo: int, hi: int) -> int {
        let w = binary64().whole(self.parts()) as int;
        if self.nan() {
            0
        } else if !self.finite() {
            if self.parts().neg {
                lo
            } else {
                hi
            }
        } else if self.parts().neg {
            clip(-w, lo, hi)
        } else {
            clip(w, lo, hi)
        }
    }

    /// The single-precision number nearest to this one.
    #[verifier::opaque]
    pub open spec fn single(self) -> Single {
        Single::of(narrowed(self.parts()))
    }

    pub fn from_bits(bits: u64) -> (r: Double)
        ensures
            r.bits == bits,
    {
        Double { bits }
    }

    pub fn to_bits(self) -> (bits: u64)
        ensures
            bits == self.bits,
    {
        self.bits
    }

    fn split(self) -> (p: Parts)
        ensures
            p == self.parts(),
            binary64().encodes(p),
    {
        proof {
            lemma_double_format();
        }
        if self.bits >= 0x8000_0000_0000_0000 {
            Parts { neg: true, mag: self.bits - 0x8000_0000_0000_0000 }
        } else {
            Parts { neg: false, mag: self.bits }
        }
    }

    fn join(p: Parts) -> (r: Double)
        requires
            binary64().encodes(p),
        ensures
            r == Double::of(p),
            r.parts() == p,
    {
        proof {
            lemma_double_format();
        }
        if p.neg {
            Double { bits: p.mag + 0x8000_0000_0000_0000 }
        } else {
            Double { bits: p.mag }
        }
    }

    pub fn from_i64(n: i64) -> (r: Double)
        ensures
            r == Double::integer(n as int),
            !r.nan(),
    {
        proof {
            reveal(Double::ratio);
        }
        if n < 0 {
            let a: u64 = (-(n as i128)) as u64;
            Double::join(from_integer(wide(), true, a))
        } else {
            Double::join(from_integer(wide(), false, n as u64))
        }
    }

    pub fn from_u64(n: u64) -> (r: Double)
        ensures
            r == Double::integer(n as int),
            !r.nan(),
    {
        proof {
            reveal(Double::ratio);
        }
        Double::join(from_integer(wide(), false, n))
    }

    /// The number nearest to `n / d`.
    pub fn from_ratio(n: i64, d: u64) -> (r: Double)
        requires
            -0x20_0000_0000_0000 < n < 0x20_0000_0000_0000,
            0 < d < 0x20_0000_0000_0000,
        ensures
            r == Double::ratio(n as int, d as nat),
            !r.nan(),
    {
        proof {
            reveal(Double::ratio);
        }
        if n < 0 {
            Double::join(from_quotient(wide(), true, (-n) as u64, d))
        } else {
            Double::join(from_quotient(wide(), false, n as u64, d))
        }
    }

    pub fn is_nan(self) -> (r: bool)
        ensures
            r == self.nan(),
    {
        proof {
            lemma_double_format();
        }
        self.split().mag > 0x7ff0_0000_0000_0000
    }

    pub fn is_finite(self) -> (r: bool)
        ensures
            r == self.finite(),
    {
        proof {
            lemma_double_format();
        }
        self.split().mag < 0x7ff0_0000_0000_0000
    }

    pub fn add(self, o: Double) -> (r: Double)
        ensures
            r == self.plus(o),
    {
        proof {
            reveal(Double::plus);
        }
        Double::join(plus(wide(), self.split(), o.split()))
    }

    pub fn sub(self, o: Double) -> (r: Double)
        ensures
            r == self.minus(o),
    {
        self.add(o.neg())
    }

    pub fn mul(self, o: Double) -> (r: Double)
        ensures
            r == self.times(o),
    {
        proof {
            reveal(Double::times);
        }
        Double::join(times(wide(), self.split(), o.split()))
    }

    pub fn div(self, o: Double) -> (r: Double)
        ensures
            r == self.over(o),
    {
        proof {
            reveal(Double::over);
        }
        Double::join(over(wide(), self.split(), o.split()))
    }

    pub fn sqrt(self) -> (r: Double)
        ensures
            r == self.root(),
    {
        proof {
            reveal(Double::root);
        }
        Double::join(root(wide(), self.split()))
    }

    pub fn neg(self) -> (r: Double)
        ensures
            r == self.negated(),
            r.parts() == (Parts { neg: !self.parts().neg, mag: self.parts().mag }),
    {
        let p = self.split();
        Double::join(Parts { neg: !p.neg, mag: p.mag })
    }

    pub fn abs(self) -> (r: Double)
        ensures
            r == self.absolute(),
            r.parts() == (Parts { neg: false, mag: self.parts().mag }),
    {
        let p = self.split();
        Double::join(Parts { neg: false, mag: p.mag })
    }

    /// Whether `self < o`.
    pub fn lt(self, o: Double) -> (r: bool)
        ensures
            r == self.below(o),
    {
        less(wide(), self.split(), o.split())
    }

    /// Whether `self <= o`.
    pub fn le(self, o: Double) -> (r: bool)
        ensures
            r == self.at_most(o),
    {
        proof {
            reveal(Double::value);
        }
        !self.is_nan() && !o.is_nan() && !o.lt(self)
    }

    pub fn clamp(self, lo: Double, hi: Double) -> (r: Double)
        requires
            lo.at_most(hi),
        ensures
            r == self.clamped(lo, hi),
    {
        if self.lt(lo) {
            lo
        } else if hi.lt(self) {
            hi
        } else {
            self
        }
    }

    pub fn max(self, o: Double) -> (r: Double)
        ensures
            r == self.larger(o),
    {
        if self.is_nan() || self.lt(o) {
            o
        } else {
            self
        }
    }

    pub fn min(self, o: Double) -> (r: Double)
        ensures
            r == self.smaller(o),
    {
        if self.is_nan() || o.lt(self) {
            o
        } else {
            self
        }
    }

    /// Rounds to an integral number, halves away from zero.
    pub fn round(self) -> (r: Double)
        ensures
            r == self.rounded(),
    {
        proof {
            reveal(Double::rounded);
        }
        Double::join(integral(wide(), self.split()))
    }

    /// The integral part.
    pub fn trunc(self) -> (r: Double)
        ensures
            r == self.truncation(),
    {
        proof {
            reveal(Double::truncation);
        }
        Double::join(truncated(wide(), self.split()))
    }

    /// The fractional part.
    pub fn fract(self) -> (r: Double)
        ensures
            r == self.minus(self.truncation()),
    {
        self.sub(self.trunc())
    }

    /// The integral part as an integer, saturating.
    pub fn to_i64(self) -> (r: i64)
        ensures
            r == self.as_integer(i64::MIN as int, i64::MAX as int),
    {
        proof {
            reveal(Double::as_integer);
        }
        if self.is_nan() {
            return 0;
        }
        let p = self.split();
        if !self.is_finite() {
            return if p.neg {
                i64::MIN
            } else {
                i64::MAX
            };
        }
        let w = whole_capped(wide(), p);
        if p.neg {
            if w >= 0x8000_0000_0000_0000 {
                i64::MIN
            } else {
                -(w as i64)
            }
        } else if w > 0x7fff_ffff_ffff_ffff {
            i64::MAX
        } else {
            w as i64
        }
    }

    /// The integral part as a natural number, saturating.
    pub fn to_u64(self) -> (r: u64)
        ensures
            r == self.as_integer(0, u64::MAX as int),
    {
        proof {
            reveal(Double::as_integer);
        }
        if self.is_nan() {
            return 0;
        }
        let p = self.split();
        if !self.is_finite() {
            return if p.neg {
                0
            } else {
                u64::MAX
            };
        }
        let w = whole_capped(wide(), p);
        if p.neg {
            0
        } else if w > 0xffff_ffff_ffff_ffff {
            u64::MAX
        } else {
            w as u64
        }
    }

    /// The integral part as a natural number, saturating.
    pub fn to_u32(self) -> (r: u32)
        ensures
            r == self.as_integer(0, u32::MAX as int),
    {
        proof {
            reveal(Double::as_integer);
        }
        let w = self.to_u64();
        if w > 0xffff_ffff {
            u32::MAX
        } else {
            w as u32
        }
    }

    /// The single-precision number nearest to this one.
    pub fn to_single(self) -> (r: Single)
        ensures
            r == self.single(),
    {
        proof {
            reveal(Double::single);
        }
        Single::join(narrow(wide(), slim(), self.split()))
    }
}

/// The constants of the format.
pub proof fn lemma_double_format()
    ensures
        binary64().valid(),
        binary64().limit() == 0x7ff0_0000_0000_0000,
        binary64().h() == 0x10_0000_0000_0000,
{
    lemma_format(binary64());
    assert(2047 * 0x10_0000_0000_0000 == 0x7ff0_0000_0000_0000);
}

} // verus!
