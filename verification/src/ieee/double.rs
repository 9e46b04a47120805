//! The 64-bit format.

use vstd::prelude::*;
use vstd::arithmetic::power2::*;
use vstd::std_specs::cmp::PartialEqSpecImpl;
use super::format::Format;
use super::number::Number;
use super::single::Single;

verus! {

/// A 64-bit binary floating-point datum, by its bits.
///
/// Sums, differences, products and quotients are those of IEEE 754
/// with round-to-nearest, ties to even, computed here on the bits. A result that is
/// not a number is always the one quiet NaN. Comparing two data compares the numbers
/// they stand for: the zeros are equal, and a NaN equals nothing.
#[derive(Clone, Copy, Debug)]
pub struct Double {
    pub bits: u64,
}

impl Double {
    /// The interchange format.
    pub open spec fn format() -> Format {
        Format {
            precision: 53,
            hidden: 0x10_0000_0000_0000,
            infinity: 0x7ff0_0000_0000_0000,
            unit: 1074,
        }
    }

    /// Sign and code.
    pub open spec fn number(self) -> Number {
        Number {
            negative: self.bits >= 0x8000_0000_0000_0000,
            code: (if self.bits >= 0x8000_0000_0000_0000 {
                self.bits - 0x8000_0000_0000_0000
            } else {
                self.bits as int
            }) as u64,
        }
    }

    /// The datum with a given sign and code.
    pub open spec fn of(n: Number) -> Self {
        Double {
            bits: (if n.negative {
                n.code + 0x8000_0000_0000_0000
            } else {
                n.code as int
            }) as u64,
        }
    }

    pub open spec fn is_nan(self) -> bool {
        Self::format().is_nan(self.number())
    }

    pub open spec fn is_infinite(self) -> bool {
        Self::format().is_infinite(self.number())
    }

    pub open spec fn is_finite(self) -> bool {
        Self::format().is_finite(self.number())
    }

    /// The real number that a datum other than a NaN stands for. The infinities
    /// stand for the first power of two past the largest finite number.
    pub open spec fn value(self) -> real {
        Self::format().real_value(self.number())
    }

    pub open spec fn zero() -> Self {
        Double { bits: 0 }
    }

    /// The datum nearest to `x`, which is the positive zero where `x` is zero.
    #[verifier::opaque]
    pub open spec fn nearest(x: real) -> Self {
        Self::of(Self::format().rounded(false, x))
    }

    #[verifier::opaque]
    pub open spec fn plus(self, other: Self) -> Self {
        Self::of(Self::format().plus(self.number(), other.number()))
    }

    #[verifier::opaque]
    pub open spec fn minus(self, other: Self) -> Self {
        Self::of(
            Self::format().plus(self.number(), Self::format().opposite(other.number())),
        )
    }

    #[verifier::opaque]
    pub open spec fn times(self, other: Self) -> Self {
        Self::of(Self::format().times(self.number(), other.number()))
    }

    #[verifier::opaque]
    pub open spec fn over(self, other: Self) -> Self {
        Self::of(Self::format().over(self.number(), other.number()))
    }

    /// The datum with its sign flipped.
    pub open spec fn opposite(self) -> Self {
        Self::of(Self::format().opposite(self.number()))
    }

    /// The datum with its sign cleared.
    pub open spec fn magnitude(self) -> Self {
        Self::of(Number { negative: false, code: self.number().code })
    }

    /// The same number as `other`, which no NaN is.
    #[verifier::opaque]
    pub open spec fn equals(self, other: Self) -> bool {
        Self::format().same(self.number(), other.number())
    }

    /// `self < other`, which no NaN meets.
    #[verifier::opaque]
    pub open spec fn less(self, other: Self) -> bool {
        Self::format().less(self.number(), other.number())
    }
}

impl PartialEq for Double {
    fn eq(&self, other: &Self) -> (r: bool) {
        proof {
            reveal(Double::equals);
        }
        Self::layout().equal(self.unpack(), other.unpack())
    }
}

impl PartialEqSpecImpl for Double {
    open spec fn obeys_eq_spec() -> bool {
        true
    }

    open spec fn eq_spec(&self, other: &Self) -> bool {
        self.equals(*other)
    }
}

impl Double {
    /// The format is one.
    pub proof fn lemma_format()
        ensures
            Self::format().wf(),
    {
        lemma2_to64();
        lemma2_to64_rest();
    }

    /// Sign and code are the whole of a datum.
    pub proof fn lemma_number_of(n: Number)
        requires
            Self::format().holds(n),
        ensures
            Self::of(n).number() == n,
    {
    }

    /// A datum has a sign and a code of its format.
    pub proof fn lemma_of_number(self)
        ensures
            Self::of(self.number()) == self,
            Self::format().holds(self.number()),
    {
    }

    pub(crate) fn layout() -> (f: Format)
        ensures
            f == Self::format(),
            f.wf(),
    {
        proof {
            Self::lemma_format();
        }
        Format {
            precision: 53,
            hidden: 0x10_0000_0000_0000,
            infinity: 0x7ff0_0000_0000_0000,
            unit: 1074,
        }
    }

    pub(crate) fn unpack(self) -> (n: Number)
        ensures
            n == self.number(),
            Self::format().holds(n),
    {
        let negative = self.bits >= 0x8000_0000_0000_0000;
        let code: u64 = if negative { self.bits - 0x8000_0000_0000_0000 } else { self.bits };
        Number { negative, code: code as u64 }
    }

    pub(crate) fn pack(n: Number) -> (r: Self)
        requires
            Self::format().holds(n),
        ensures
            r == Self::of(n),
    {
        if n.negative {
            Double { bits: n.code as u64 + 0x8000_0000_0000_0000 }
        } else {
            Double { bits: n.code as u64 }
        }
    }

    pub fn from_bits(bits: u64) -> (r: Self)
        ensures
            r.bits == bits,
    {
        Double { bits }
    }

    pub fn to_bits(self) -> (bits: u64)
        ensures
            bits == self.bits,
    {
        self.bits
    }

    /// An integer, rounded.
    pub fn from_integer(n: u64) -> (r: Self)
        ensures
            r == Self::nearest(n as real),
    {
        proof {
            reveal(Double::nearest);
        }
        Self::pack(Self::layout().from_integer(n))
    }

    /// The datum nearest to the fraction `n / d` of two integers that it can hold.
    pub open spec fn fraction(n: nat, d: nat) -> Self {
        Self::nearest(n as real).over(Self::nearest(d as real))
    }

    pub fn from_fraction(n: u64, d: u64) -> (r: Self)
        ensures
            r == Self::fraction(n as nat, d as nat),
    {
        Self::from_integer(n).div(Self::from_integer(d))
    }

    pub fn add(self, other: Self) -> (r: Self)
        ensures
            r == self.plus(other),
    {
        proof {
            reveal(Double::plus);
        }
        Self::pack(Self::layout().add(self.unpack(), other.unpack()))
    }

    pub fn sub(self, other: Self) -> (r: Self)
        ensures
            r == self.minus(other),
    {
        proof {
            reveal(Double::minus);
        }
        let n = other.unpack();
        let opposite = Number { negative: !n.negative, code: n.code };
        Self::pack(Self::layout().add(self.unpack(), opposite))
    }

    pub fn mul(self, other: Self) -> (r: Self)
        ensures
            r == self.times(other),
    {
        proof {
            reveal(Double::times);
        }
        Self::pack(Self::layout().mul(self.unpack(), other.unpack()))
    }

    pub fn div(self, other: Self) -> (r: Self)
        ensures
            r == self.over(other),
    {
        proof {
            reveal(Double::over);
        }
        Self::pack(Self::layout().div(self.unpack(), other.unpack()))
    }

    pub fn neg(self) -> (r: Self)
        ensures
            r == self.opposite(),
    {
        let n = self.unpack();
        Self::pack(Number { negative: !n.negative, code: n.code })
    }

    pub fn abs(self) -> (r: Self)
        ensures
            r == self.magnitude(),
    {
        let n = self.unpack();
        Self::pack(Number { negative: false, code: n.code })
    }

    pub fn lt(self, other: Self) -> (r: bool)
        ensures
            r == self.less(other),
    {
        proof {
            reveal(Double::less);
        }
        Self::layout().less_than(self.unpack(), other.unpack())
    }

    /// The nearest number of the smaller format.
    pub open spec fn narrowed(self) -> Single {
        Single::of(Single::format().converted(Self::format(), self.number()))
    }

    pub fn to_single(self) -> (r: Single)
        ensures
            r == self.narrowed(),
    {
        Single::pack(Single::layout().convert(&Self::layout(), self.unpack()))
    }
}

} // verus!
