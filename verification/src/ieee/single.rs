//! Single-precision numbers.
use crate::ieee::arith::{less, over, plus, times, Parts};
use crate::ieee::convert::{from_quotient, whole_capped};
use crate::ieee::root::root;
use crate::ieee::rounding::{binary32, lemma_format, Format};
use vstd::prelude::*;

verus! {

/// A single-precision number, given by its interchange encoding.
#[derive(Clone, Copy, Debug, PartialEq, Eq, Structural)]
pub struct Single {
    pub bits: u32,
}

/// The format of `Single`.
fn slim() -> (f: Format)
    ensures
        f == binary32(),
        f.valid(),
{
    Format { hidden: 0x80_0000, precision: 24, top: 255, unit: 149 }
}

impl Single {
    /// Sign and magnitude.
    pub open spec fn parts(self) -> Parts {
        if self.bits >= 0x8000_0000 {
            Parts { neg: true, mag: (self.bits - 0x8000_0000) as u64 }
        } else {
            Parts { neg: false, mag: self.bits as u64 }
        }
    }

    /// The number with the given sign and magnitude.
    pub open spec fn of(p: Parts) -> Single {
        if p.neg {
            Single { bits: (p.mag + 0x8000_0000) as u32 }
        } else {
            Single { bits: p.mag as u32 }
        }
    }

    pub open spec fn nan(self) -> bool {
        binary32().is_nan(self.parts())
    }

    /// The value in units of the smallest positive number; an infinity counts
    /// as what would follow the largest finite number.
    #[verifier::opaque]
    pub open spec fn value(self) -> int {
        binary32().value(self.parts())
    }

    /// The number nearest to `n / d`.
    #[verifier::opaque]
    pub open spec fn ratio(n: int, d: nat) -> Single {
        let a = if n < 0 {
            -n
        } else {
            n
        };
        Single::of(binary32().quotient_of_integers(n < 0, a as nat, d))
    }

    #[verifier::opaque]
    pub open spec fn plus(self, o: Single) -> Single {
        Single::of(binary32().plus(self.parts(), o.parts()))
    }

    pub open spec fn negated(self) -> Single {
        Single::of(Parts { neg: !self.parts().neg, mag: self.parts().mag })
    }

    pub open spec fn minus(self, o: Single) -> Single {
        self.plus(o.negated())
    }

    #[verifier::opaque]
    pub open spec fn times(self, o: Single) -> Single {
        Single::of(binary32().times(self.parts(), o.parts()))
    }

    #[verifier::opaque]
    pub open spec fn over(self, o: Single) -> Single {
        Single::of(binary32().over(self.parts(), o.parts()))
    }

    #[verifier::opaque]
    pub open spec fn root(self) -> Single {
        Single::of(binary32().root(self.parts()))
    }

    /// `self < o`, false if either is not a number.
    pub open spec fn below(self, o: Single) -> bool {
        binary32().less(self.parts(), o.parts())
    }

    /// `self <= o`, false if either is not a number.
    pub open spec fn at_most(self, o: Single) -> bool {
        !self.nan() && !o.nan() && self.value() <= o.value()
    }

    /// The larger of two numbers; the other if one is not a number.
    pub open spec fn larger(self, o: Single) -> Single {
        if self.nan() || self.below(o) {
            o
        } else {
            self
        }
    }

    /// The smaller of two numbers; the other if one is not a number.
    pub open spec fn smaller(self, o: Single) -> Single {
        if self.nan() || o.below(self) {
            o
        } else {
            self
        }
    }

    /// The integral part clipped to a byte; zero if negative or not a number.
    #[verifier::opaque]
    pub open spec fn as_byte(self) -> int {
        let w = binary32().whole(self.parts()) as int;
        if self.nan() || self.parts().neg {
            0
        } else if !binary32().is_finite(self.parts()) || w > 255 {
            255
        } else {
            w
        }
    }

    fn split(self) -> (p: Parts)
        ensures
            p == self.parts(),
            binary32().encodes(p),
    {
        proof {
            lemma_single_format();
        }
        if self.bits >= 0x8000_0000 {
            Parts { neg: true, mag: (self.bits - 0x8000_0000) as u64 }
        } else {
            Parts { neg: false, mag: self.bits as u64 }
        }
    }

    pub(crate) fn join(p: Parts) -> (r: Single)
        requires
            binary32().encodes(p),
        ensures
            r == Single::of(p),
            r.parts() == p,
    {
        proof {
            lemma_single_format();
        }
        if p.neg {
            Single { bits: (p.mag + 0x8000_0000) as u32 }
        } else {
            Single { bits: p.mag as u32 }
        }
    }

    pub fn from_bits(bits: u32) -> (r: Single)
        ensures
            r.bits == bits,
    {
        Single { bits }
    }

    pub fn to_bits(self) -> (bits: u32)
        ensures
            bits == self.bits,
    {
        self.bits
    }

    /// The number nearest to `n / d`.
    pub fn from_ratio(n: i32, d: u32) -> (r: Single)
        requires
            -0x100_0000 < n < 0x100_0000,
            0 < d < 0x100_0000,
        ensures
            r == Single::ratio(n as int, d as nat),
            !r.nan(),
    {
        proof {
            reveal(Single::ratio);
        }
        if n < 0 {
            Single::join(from_quotient(slim(), true, (-n) as u64, d as u64))
        } else {
            Single::join(from_quotient(slim(), false, n as u64, d as u64))
        }
    }

    pub fn is_nan(self) -> (r: bool)
        ensures
            r == self.nan(),
    {
        proof {
            lemma_single_format();
        }
        self.split().mag > 0x7f80_0000
    }

    pub fn add(self, o: Single) -> (r: Single)
        ensures
            r == self.plus(o),
    {
        proof {
            reveal(Single::plus);
        }
        Single::join(plus(slim(), self.split(), o.split()))
    }

    pub fn neg(self) -> (r: Single)
        ensures
            r == self.negated(),
    {
        let p = self.split();
        Single::join(Parts { neg: !p.neg, mag: p.mag })
    }

    pub fn sub(self, o: Single) -> (r: Single)
        ensures
            r == self.minus(o),
    {
        self.add(o.neg())
    }

    pub fn mul(self, o: Single) -> (r: Single)
        ensures
            r == self.times(o),
    {
        proof {
            reveal(Single::times);
        }
        Single::join(times(slim(), self.split(), o.split()))
    }

    pub fn div(self, o: Single) -> (r: Single)
        ensures
            r == self.over(o),
    {
        proof {
            reveal(Single::over);
        }
        Single::join(over(slim(), self.split(), o.split()))
    }

    pub fn sqrt(self) -> (r: Single)
        ensures
            r == self.root(),
    {
        proof {
            reveal(Single::root);
        }
        Single::join(root(slim(), self.split()))
    }

    /// Whether `self < o`.
    pub fn lt(self, o: Single) -> (r: bool)
        ensures
            r == self.below(o),
    {
        less(slim(), self.split(), o.split())
    }

    /// Whether `self <= o`.
    pub fn le(self, o: Single) -> (r: bool)
        ensures
            r == self.at_most(o),
    {
        proof {
            reveal(Single::value);
        }
        !self.is_nan() && !o.is_nan() && !o.lt(self)
    }

    pub fn max(self, o: Single) -> (r: Single)
        ensures
            r == self.larger(o),
    {
        if self.is_nan() || self.lt(o) {
            o
        } else {
            self
        }
    }

    pub fn min(self, o: Single) -> (r: Single)
        ensures
            r == self.smaller(o),
    {
        if self.is_nan() || o.lt(self) {
            o
        } else {
            self
        }
    }

    /// The integral part as a byte, saturating.
    pub fn to_u8(self) -> (r: u8)
        ensures
            r == self.as_byte(),
    {
        proof {
            reveal(Single::as_byte);
        }
        proof {
            lemma_single_format();
        }
        let p = self.split();
        if p.neg || p.mag > 0x7f80_0000 {
            return 0;
        }
        if p.mag == 0x7f80_0000 {
            return 255;
        }
        let w = whole_capped(slim(), p);
        if w > 255 {
            255
        } else {
            w as u8
        }
    }
}

/// The constants of the format.
pub proof fn lemma_single_format()
    ensures
        binary32().valid(),
        binary32().limit() == 0x7f80_0000,
        binary32().h() == 0x80_0000,
{
    lemma_format(binary32());
    assert(255 * 0x80_0000 == 0x7f80_0000);
}

} // verus!
