//! Numbers of 64 bits.
use crate::float::arith::{add_parts, div_parts, mul_parts, negated, product, quotient, sum};
use crate::float::convert::{
    convert_parts, converted, nearest_whole, nearest_whole_parts, truncate_parts, truncated, whole,
    whole_parts,
};
use crate::float::rounding::{Format, Parts};
use crate::float::single::Single;
use vstd::arithmetic::power2::{lemma2_to64, lemma2_to64_rest};
use vstd::prelude::*;

verus! {

/// A number of the 64-bit format, held as its bit pattern. Every pattern is allowed; where the result of
/// an operation is not a number, it has one and the same pattern.
#[derive(Clone, Copy, Debug, PartialEq, Eq, Structural)]
pub struct Double {
    pub bits: u64,
}

impl Double {
    /// The number taken apart.
    pub open spec fn parts(self) -> Parts {
        let neg = self.bits >= 0x8000_0000_0000_0000;
        let rest = self.bits % 0x8000_0000_0000_0000;
        let field = rest / 0x10_0000_0000_0000;
        let frac = rest % 0x10_0000_0000_0000;
        if field == 2047 {
            if frac == 0 {
                Parts::Infinite { neg }
            } else {
                Parts::Nan
            }
        } else if field == 0 {
            Parts::Finite { neg, mant: frac as u64, exp: -1074i32 }
        } else {
            Parts::Finite { neg, mant: (frac + 0x10_0000_0000_0000) as u64, exp: (field - 1075) as i32 }
        }
    }

    /// The number with these parts.
    pub open spec fn pack(p: Parts) -> Double {
        match p {
            Parts::Nan => Double { bits: 0x7ff8_0000_0000_0000 },
            Parts::Infinite { neg } => Double {
                bits: if neg {
                    0xfff0_0000_0000_0000
                } else {
                    0x7ff0_0000_0000_0000
                },
            },
            Parts::Finite { neg, mant, exp } => {
                let low = if mant < 0x10_0000_0000_0000 {
                    mant as int
                } else {
                    (exp + 1075) * 0x10_0000_0000_0000 + (mant - 0x10_0000_0000_0000)
                };
                Double {
                    bits: if neg {
                        (low + 0x8000_0000_0000_0000) as u64
                    } else {
                        low as u64
                    },
                }
            },
        }
    }

    /// Taking apart gives the one set of parts that the format has for the number.
    pub proof fn lemma_parts_canonical(self)
        ensures
            self.parts().canonical(Format::double()),
    {
        lemma2_to64();
        lemma2_to64_rest();
    }

    /// Packing and taking apart undo each other; of the patterns that are not a number only one
    /// comes back.
    pub proof fn lemma_parts_of_pack(p: Parts)
        requires
            p.canonical(Format::double()),
        ensures
            Double::pack(p).parts() == p,
    {
        lemma2_to64();
        lemma2_to64_rest();
    }

    pub proof fn lemma_pack_of_parts(self)
        requires
            self.parts() !is Nan,
        ensures
            Double::pack(self.parts()) == self,
    {
    }

    /// Takes the number apart.
    pub fn unpack(self) -> (r: Parts)
        ensures
            r == self.parts(),
            r.canonical(Format::double()),
    {
        proof {
            self.lemma_parts_canonical();
        }
        let neg = self.bits >= 0x8000_0000_0000_0000;
        let rest: u64 = self.bits % 0x8000_0000_0000_0000;
        let field: u64 = rest / 0x10_0000_0000_0000;
        let frac: u64 = rest % 0x10_0000_0000_0000;
        if field == 2047 {
            if frac == 0 {
                Parts::Infinite { neg }
            } else {
                Parts::Nan
            }
        } else if field == 0 {
            Parts::Finite { neg, mant: frac as u64, exp: -1074 }
        } else {
            Parts::Finite { neg, mant: (frac + 0x10_0000_0000_0000) as u64, exp: field as i32 - 1075 }
        }
    }

    /// Puts a number together.
    pub fn from_parts(p: Parts) -> (r: Double)
        requires
            p.canonical(Format::double()),
        ensures
            r == Double::pack(p),
    {
        proof {
            lemma2_to64();
            lemma2_to64_rest();
        }
        match p {
            Parts::Nan => Double { bits: 0x7ff8_0000_0000_0000 },
            Parts::Infinite { neg } => Double {
                bits: if neg {
                    0xfff0_0000_0000_0000
                } else {
                    0x7ff0_0000_0000_0000
                },
            },
            Parts::Finite { neg, mant, exp } => {
                let low: u64 = if mant < 0x10_0000_0000_0000 {
                    mant as u64
                } else {
                    (exp + 1075) as u64 * 0x10_0000_0000_0000 + (mant - 0x10_0000_0000_0000) as u64
                };
                Double {
                    bits: if neg {
                        low + 0x8000_0000_0000_0000
                    } else {
                        low
                    },
                }
            },
        }
    }

    #[verifier::opaque]
    pub open spec fn spec_plus(self, other: Double) -> Double {
        Double::pack(sum(Format::double(), self.parts(), other.parts()))
    }

    /// The sum.
    #[verifier::when_used_as_spec(spec_plus)]
    pub fn plus(self, other: Double) -> (r: Double)
        ensures
            r == self.plus(other),
    {
        reveal(Double::spec_plus);
        Double::from_parts(add_parts(Format::double(), self.unpack(), other.unpack()))
    }

    #[verifier::opaque]
    pub open spec fn spec_minus(self, other: Double) -> Double {
        Double::pack(sum(Format::double(), self.parts(), negated(other.parts())))
    }

    /// The difference.
    #[verifier::when_used_as_spec(spec_minus)]
    pub fn minus(self, other: Double) -> (r: Double)
        ensures
            r == self.minus(other),
    {
        reveal(Double::spec_minus);
        Double::from_parts(add_parts(Format::double(), self.unpack(), negated(other.unpack())))
    }

    #[verifier::opaque]
    pub open spec fn spec_times(self, other: Double) -> Double {
        Double::pack(product(Format::double(), self.parts(), other.parts()))
    }

    /// The product.
    #[verifier::when_used_as_spec(spec_times)]
    pub fn times(self, other: Double) -> (r: Double)
        ensures
            r == self.times(other),
    {
        reveal(Double::spec_times);
        Double::from_parts(mul_parts(Format::double(), self.unpack(), other.unpack()))
    }

    #[verifier::opaque]
    pub open spec fn spec_over(self, other: Double) -> Double {
        Double::pack(quotient(Format::double(), self.parts(), other.parts()))
    }

    /// The quotient.
    #[verifier::when_used_as_spec(spec_over)]
    pub fn over(self, other: Double) -> (r: Double)
        ensures
            r == self.over(other),
    {
        reveal(Double::spec_over);
        Double::from_parts(div_parts(Format::double(), self.unpack(), other.unpack()))
    }

    #[verifier::opaque]
    pub open spec fn spec_from_u64(value: u64) -> Double {
        Double::pack(whole(Format::double(), value as nat))
    }

    /// The number nearest to an integer.
    #[verifier::when_used_as_spec(spec_from_u64)]
    pub fn from_u64(value: u64) -> (r: Double)
        ensures
            r == Double::from_u64(value),
    {
        reveal(Double::spec_from_u64);
        Double::from_parts(whole_parts(Format::double(), value))
    }

    #[verifier::opaque]
    pub open spec fn spec_to_u64(self) -> u64 {
        truncated(self.parts())
    }

    /// The integer that the number becomes: its fraction is dropped, and a number out of range is
    /// moved to the nearest end.
    #[verifier::when_used_as_spec(spec_to_u64)]
    pub fn to_u64(self) -> (r: u64)
        ensures
            r == self.to_u64(),
    {
        reveal(Double::spec_to_u64);
        truncate_parts(Format::double(), self.unpack())
    }

    #[verifier::opaque]
    pub open spec fn spec_round(self) -> Double {
        Double::pack(nearest_whole(Format::double(), self.parts()))
    }

    /// The nearest whole number, ties away from zero.
    #[verifier::when_used_as_spec(spec_round)]
    pub fn round(self) -> (r: Double)
        ensures
            r == self.round(),
    {
        reveal(Double::spec_round);
        Double::from_parts(nearest_whole_parts(Format::double(), self.unpack()))
    }

    #[verifier::opaque]
    pub open spec fn spec_to_single(self) -> Single {
        Single::pack(converted(Format::single(), self.parts()))
    }

    /// The nearest number of the 32-bit format.
    #[verifier::when_used_as_spec(spec_to_single)]
    pub fn to_single(self) -> (r: Single)
        ensures
            r == self.to_single(),
    {
        reveal(Double::spec_to_single);
        Single::from_parts(convert_parts(Format::single(), self.unpack()))
    }
}

} // verus!
