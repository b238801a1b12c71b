//! Numbers of 32 bits.
use crate::float::arith::{add_parts, div_parts, mul_parts, negated, product, quotient, sum};
use crate::float::convert::{
    ceiling, ceiling_parts, convert_parts, converted, nearest_whole, nearest_whole_parts, truncate_parts,
    truncated, whole, whole_parts,
};
use crate::float::double::Double;
use crate::float::order::{equal, equal_parts, less, less_parts};
use crate::float::rounding::{Format, Parts};
use vstd::arithmetic::power2::lemma2_to64;
use vstd::prelude::*;

verus! {

/// A number of the 32-bit format, held as its bit pattern. Every pattern is allowed. Where the result of
/// arithmetic or of a conversion is not a number, it has one and the same pattern; `neg`, `abs`,
/// `signum`, `max` and `clamp` hand on the pattern that they got, but for its sign.
#[derive(Clone, Copy, Debug, PartialEq, Eq, Structural)]
pub struct Single {
    pub bits: u32,
}

impl Single {
    /// The number taken apart.
    pub open spec fn parts(self) -> Parts {
        let neg = self.bits >= 0x8000_0000;
        let rest = self.bits % 0x8000_0000;
        let field = rest / 0x80_0000;
        let frac = rest % 0x80_0000;
        if field == 255 {
            if frac == 0 {
                Parts::Infinite { neg }
            } else {
                Parts::Nan
            }
        } else if field == 0 {
            Parts::Finite { neg, mant: frac as u64, exp: -149i32 }
        } else {
            Parts::Finite { neg, mant: (frac + 0x80_0000) as u64, exp: (field - 150) as i32 }
        }
    }

    /// The number with these parts.
    pub open spec fn pack(p: Parts) -> Single {
        match p {
            Parts::Nan => Single { bits: 0x7fc0_0000 },
            Parts::Infinite { neg } => Single {
                bits: if neg {
                    0xff80_0000
                } else {
                    0x7f80_0000
                },
            },
            Parts::Finite { neg, mant, exp } => {
                let low = if mant < 0x80_0000 {
                    mant as int
                } else {
                    (exp + 150) * 0x80_0000 + (mant - 0x80_0000)
                };
                Single {
                    bits: if neg {
                        (low + 0x8000_0000) as u32
                    } else {
                        low as u32
                    },
                }
            },
        }
    }

    /// Taking apart gives the one set of parts that the format has for the number.
    pub proof fn lemma_parts_canonical(self)
        ensures
            self.parts().canonical(Format::single()),
    {
        lemma2_to64();
    }

    /// Packing and taking apart undo each other; of the patterns that are not a number only one
    /// comes back.
    pub proof fn lemma_parts_of_pack(p: Parts)
        requires
            p.canonical(Format::single()),
        ensures
            Single::pack(p).parts() == p,
    {
        lemma2_to64();
    }

    pub proof fn lemma_pack_of_parts(self)
        requires
            self.parts() !is Nan,
        ensures
            Single::pack(self.parts()) == self,
    {
    }

    /// Takes the number apart.
    pub fn unpack(self) -> (r: Parts)
        ensures
            r == self.parts(),
            r.canonical(Format::single()),
    {
        proof {
            self.lemma_parts_canonical();
        }
        let neg = self.bits >= 0x8000_0000;
        let rest: u32 = self.bits % 0x8000_0000;
        let field: u32 = rest / 0x80_0000;
        let frac: u32 = rest % 0x80_0000;
        if field == 255 {
            if frac == 0 {
                Parts::Infinite { neg }
            } else {
                Parts::Nan
            }
        } else if field == 0 {
            Parts::Finite { neg, mant: frac as u64, exp: -149 }
        } else {
            Parts::Finite { neg, mant: (frac + 0x80_0000) as u64, exp: field as i32 - 150 }
        }
    }

    /// Puts a number together.
    pub fn from_parts(p: Parts) -> (r: Single)
        requires
            p.canonical(Format::single()),
        ensures
            r == Single::pack(p),
    {
        proof {
            lemma2_to64();
        }
        match p {
            Parts::Nan => Single { bits: 0x7fc0_0000 },
            Parts::Infinite { neg } => Single {
                bits: if neg {
                    0xff80_0000
                } else {
                    0x7f80_0000
                },
            },
            Parts::Finite { neg, mant, exp } => {
                let low: u32 = if mant < 0x80_0000 {
                    mant as u32
                } else {
                    (exp + 150) as u32 * 0x80_0000 + (mant - 0x80_0000) as u32
                };
                Single {
                    bits: if neg {
                        low + 0x8000_0000
                    } else {
                        low
                    },
                }
            },
        }
    }

    #[verifier::opaque]
    pub open spec fn spec_plus(self, other: Single) -> Single {
        Single::pack(sum(Format::single(), self.parts(), other.parts()))
    }

    /// The sum.
    #[verifier::when_used_as_spec(spec_plus)]
    pub fn plus(self, other: Single) -> (r: Single)
        ensures
            r == self.plus(other),
    {
        reveal(Single::spec_plus);
        Single::from_parts(add_parts(Format::single(), self.unpack(), other.unpack()))
    }

    #[verifier::opaque]
    pub open spec fn spec_minus(self, other: Single) -> Single {
        Single::pack(sum(Format::single(), self.parts(), negated(other.parts())))
    }

    /// The difference.
    #[verifier::when_used_as_spec(spec_minus)]
    pub fn minus(self, other: Single) -> (r: Single)
        ensures
            r == self.minus(other),
    {
        reveal(Single::spec_minus);
        Single::from_parts(add_parts(Format::single(), self.unpack(), negated(other.unpack())))
    }

    #[verifier::opaque]
    pub open spec fn spec_times(self, other: Single) -> Single {
        Single::pack(product(Format::single(), self.parts(), other.parts()))
    }

    /// The product.
    #[verifier::when_used_as_spec(spec_times)]
    pub fn times(self, other: Single) -> (r: Single)
        ensures
            r == self.times(other),
    {
        reveal(Single::spec_times);
        Single::from_parts(mul_parts(Format::single(), self.unpack(), other.unpack()))
    }

    #[verifier::opaque]
    pub open spec fn spec_over(self, other: Single) -> Single {
        Single::pack(quotient(Format::single(), self.parts(), other.parts()))
    }

    /// The quotient.
    #[verifier::when_used_as_spec(spec_over)]
    pub fn over(self, other: Single) -> (r: Single)
        ensures
            r == self.over(other),
    {
        reveal(Single::spec_over);
        Single::from_parts(div_parts(Format::single(), self.unpack(), other.unpack()))
    }

    #[verifier::opaque]
    pub open spec fn spec_lt(self, other: Single) -> bool {
        less(self.parts(), other.parts())
    }

    /// Whether the number is less than the other.
    #[verifier::when_used_as_spec(spec_lt)]
    pub fn lt(self, other: Single) -> (r: bool)
        ensures
            r == self.lt(other),
    {
        reveal(Single::spec_lt);
        less_parts(Format::single(), self.unpack(), other.unpack())
    }

    #[verifier::opaque]
    pub open spec fn spec_gt(self, other: Single) -> bool {
        less(other.parts(), self.parts())
    }

    /// Whether the number is greater than the other.
    #[verifier::when_used_as_spec(spec_gt)]
    pub fn gt(self, other: Single) -> (r: bool)
        ensures
            r == self.gt(other),
    {
        reveal(Single::spec_gt);
        less_parts(Format::single(), other.unpack(), self.unpack())
    }

    #[verifier::opaque]
    pub open spec fn spec_equals(self, other: Single) -> bool {
        equal(self.parts(), other.parts())
    }

    /// Whether the two are equal numbers. The two zeros are; what is not a number equals nothing.
    #[verifier::when_used_as_spec(spec_equals)]
    pub fn equals(self, other: Single) -> (r: bool)
        ensures
            r == self.equals(other),
    {
        reveal(Single::spec_equals);
        equal_parts(Format::single(), self.unpack(), other.unpack())
    }

    pub open spec fn spec_le(self, other: Single) -> bool {
        self.lt(other) || self.equals(other)
    }

    /// Whether the number is less than the other or equal to it.
    #[verifier::when_used_as_spec(spec_le)]
    pub fn le(self, other: Single) -> (r: bool)
        ensures
            r == self.le(other),
    {
        self.lt(other) || self.equals(other)
    }

    pub open spec fn spec_ge(self, other: Single) -> bool {
        self.gt(other) || self.equals(other)
    }

    /// Whether the number is greater than the other or equal to it.
    #[verifier::when_used_as_spec(spec_ge)]
    pub fn ge(self, other: Single) -> (r: bool)
        ensures
            r == self.ge(other),
    {
        self.gt(other) || self.equals(other)
    }

    #[verifier::opaque]
    pub open spec fn spec_from_u64(value: u64) -> Single {
        Single::pack(whole(Format::single(), value as nat))
    }

    /// The number nearest to an integer.
    #[verifier::when_used_as_spec(spec_from_u64)]
    pub fn from_u64(value: u64) -> (r: Single)
        ensures
            r == Single::from_u64(value),
    {
        reveal(Single::spec_from_u64);
        Single::from_parts(whole_parts(Format::single(), value))
    }

    #[verifier::opaque]
    pub open spec fn spec_to_u64(self) -> u64 {
        truncated(self.parts())
    }

    /// The integer that the number becomes: its fraction is dropped, and a number out of range is
    /// moved to the nearest end.
    #[verifier::when_used_as_spec(spec_to_u64)]
    pub fn to_u64(self) -> (r: u64)
        ensures
            r == self.to_u64(),
    {
        reveal(Single::spec_to_u64);
        truncate_parts(Format::single(), self.unpack())
    }

    #[verifier::opaque]
    pub open spec fn spec_round(self) -> Single {
        Single::pack(nearest_whole(Format::single(), self.parts()))
    }

    /// The nearest whole number, ties away from zero.
    #[verifier::when_used_as_spec(spec_round)]
    pub fn round(self) -> (r: Single)
        ensures
            r == self.round(),
    {
        reveal(Single::spec_round);
        Single::from_parts(nearest_whole_parts(Format::single(), self.unpack()))
    }

    pub open spec fn spec_is_nan(self) -> bool {
        self.parts() is Nan
    }

    /// Whether the pattern is not a number.
    #[verifier::when_used_as_spec(spec_is_nan)]
    pub fn is_nan(self) -> (r: bool)
        ensures
            r == self.is_nan(),
    {
        matches!(self.unpack(), Parts::Nan)
    }

    pub open spec fn spec_neg(self) -> Single {
        Single {
            bits: if self.bits < 0x8000_0000 {
                (self.bits + 0x8000_0000) as u32
            } else {
                (self.bits - 0x8000_0000) as u32
            },
        }
    }

    /// The number with its sign changed.
    #[verifier::when_used_as_spec(spec_neg)]
    pub fn neg(self) -> (r: Single)
        ensures
            r == self.neg(),
    {
        Single {
            bits: if self.bits < 0x8000_0000 {
                self.bits + 0x8000_0000
            } else {
                self.bits - 0x8000_0000
            },
        }
    }

    pub open spec fn spec_abs(self) -> Single {
        Single { bits: self.bits % 0x8000_0000 }
    }

    /// The number without its sign.
    #[verifier::when_used_as_spec(spec_abs)]
    pub fn abs(self) -> (r: Single)
        ensures
            r == self.abs(),
    {
        Single { bits: self.bits % 0x8000_0000 }
    }

    pub open spec fn spec_signum(self) -> Single {
        if self.is_nan() {
            self
        } else if self.bits < 0x8000_0000 {
            Single { bits: 0x3f80_0000 }
        } else {
            Single { bits: 0xbf80_0000 }
        }
    }

    /// One, with the sign of the number. What is not a number stays so.
    #[verifier::when_used_as_spec(spec_signum)]
    pub fn signum(self) -> (r: Single)
        ensures
            r == self.signum(),
    {
        if self.is_nan() {
            self
        } else if self.bits < 0x8000_0000 {
            Single { bits: 0x3f80_0000 }
        } else {
            Single { bits: 0xbf80_0000 }
        }
    }

    #[verifier::opaque]
    pub open spec fn spec_ceil(self) -> Single {
        Single::pack(ceiling(Format::single(), self.parts()))
    }

    /// The least whole number that is not below.
    #[verifier::when_used_as_spec(spec_ceil)]
    pub fn ceil(self) -> (r: Single)
        ensures
            r == self.ceil(),
    {
        reveal(Single::spec_ceil);
        Single::from_parts(ceiling_parts(Format::single(), self.unpack()))
    }

    pub open spec fn spec_max(self, other: Single) -> Single {
        if self.is_nan() || self.lt(other) {
            other
        } else {
            self
        }
    }

    /// The larger of two numbers; where one is not a number, the other one.
    #[verifier::when_used_as_spec(spec_max)]
    pub fn max(self, other: Single) -> (r: Single)
        ensures
            r == self.max(other),
    {
        if self.is_nan() || self.lt(other) {
            other
        } else {
            self
        }
    }

    pub open spec fn spec_clamp(self, min: Single, max: Single) -> Single {
        if self.lt(min) {
            min
        } else if self.gt(max) {
            max
        } else {
            self
        }
    }

    /// The number, moved to the nearest end of the range where it lies outside. What is not a
    /// number stays so.
    #[verifier::when_used_as_spec(spec_clamp)]
    pub fn clamp(self, min: Single, max: Single) -> (r: Single)
        requires
            min.le(max),
        ensures
            r == self.clamp(min, max),
    {
        if self.lt(min) {
            min
        } else if self.gt(max) {
            max
        } else {
            self
        }
    }

    #[verifier::opaque]
    pub open spec fn spec_to_double(self) -> Double {
        Double::pack(converted(Format::double(), self.parts()))
    }

    /// The same number in the 64-bit format.
    #[verifier::when_used_as_spec(spec_to_double)]
    pub fn to_double(self) -> (r: Double)
        ensures
            r == self.to_double(),
    {
        reveal(Single::spec_to_double);
        Double::from_parts(convert_parts(Format::double(), self.unpack()))
    }
}

} // verus!
