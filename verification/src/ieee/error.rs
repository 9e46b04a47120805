//! How far rounding goes: error bounds, and bounds on results.

use vstd::prelude::*;
use vstd::arithmetic::power2::*;
use super::double::Double;
use super::format::Format;
use super::single::Single;

verus! {

/// The absolute value of a real.
pub open spec fn size(x: real) -> real {
    if x < 0real {
        -x
    } else {
        x
    }
}

impl Format {
    /// Rounding moves a normal number by at most half a unit in its last place, which is
    /// one part in twice the hidden bit, and a subnormal one by at most half the smallest
    /// positive number.
    pub proof fn law_rounding_error(self, x: real)
        requires
            self.wf(),
            0real <= x < self.value(self.infinity as nat),
        ensures
            ({
                let d = size(self.value(self.nearest(x)) - x);
                &&& x >= self.value(self.hidden as nat) ==> d * (2real * self.hidden as real) <= x
                &&& x < self.value(self.hidden as nat) ==> 2real * d <= self.value(1)
            }),
    {
        let top = self.infinity as nat;
        let h = self.hidden as nat;
        let c = self.lemma_floor(x, top);
        let k = self.nearest(x);
        self.law_nearest_exists(x);
        self.lemma_value_succ(c);
        let low = self.value(c);
        let gap = Self::exp2(self.exponent(c) - self.unit);
        let v = self.value(k);
        let d = size(v - x);
        if k <= c {
            assert(self.above_midpoint((c + 1) as nat, k, x));
            if k < c {
                self.lemma_value_increasing(k, c);
                assert(self.above_midpoint(c, k, x));
            }
        } else {
            assert(self.below_midpoint(c, k, x));
            if k > c + 1 {
                self.lemma_value_increasing(c + 1, k);
                assert(self.below_midpoint((c + 1) as nat, k, x));
            }
        }
        assert(2real * d <= gap);
        let (q, sig) = self.lemma_split(c);
        self.lemma_value_split(q, sig);
        Self::lemma_exp2_pos(q - self.unit);
        if x >= self.value(h) {
            if c < h {
                self.lemma_value_increasing(c + 1, h);
            }
            let hr = h as real;
            let s = sig as real;
            assert(s >= hr);
            assert(d * (2real * hr) <= x) by (nonlinear_arith)
                requires
                    2real * d <= gap,
                    low == s * gap,
                    low <= x,
                    s >= hr,
                    hr > 0real,
                    gap > 0real,
            ;
        } else {
            if c >= h {
                self.lemma_value_increasing(h, c);
            }
            self.lemma_value_split(0, 1);
            assert(1real * gap == gap) by (nonlinear_arith);
        }
    }

    /// A rounded number misses the exact one by one part in twice the hidden bit, and
    /// half the smallest positive number.
    pub proof fn lemma_rounded_error(self, zero_sign: bool, x: real)
        requires
            self.wf(),
            size(x) < self.value(self.infinity as nat),
        ensures
            ({
                let d = size(self.real_value(self.rounded(zero_sign, x)) - x);
                let h2 = 2real * self.hidden as real;
                &&& size(x) >= self.value(self.hidden as nat) ==> d * h2 <= size(x)
                &&& size(x) < self.value(self.hidden as nat) ==> 2real * d <= self.value(1)
            }),
    {
        self.law_rounding_error(size(x));
        self.law_nearest_exists(size(x));
        self.lemma_value_zero();
        if x == 0real {
            self.lemma_value_increasing(0, 1);
            self.lemma_value_increasing(0, self.hidden as nat);
            assert(0real * (2real * self.hidden as real) == 0real) by (nonlinear_arith);
        }
    }

    /// What is between a power of two and its opposite still is once it is rounded.
    pub proof fn lemma_rounded_at_most(self, zero_sign: bool, x: real, k: int)
        requires
            self.wf(),
            k + self.unit >= 0,
            (k + self.unit + 3) * self.hidden <= self.infinity,
            size(x) <= Self::exp2(k),
        ensures
            self.is_finite(self.rounded(zero_sign, x)),
            size(self.real_value(self.rounded(zero_sign, x))) <= Self::exp2(k),
    {
        let h = self.hidden as int;
        assert((k + self.unit + 2) * h + h == (k + self.unit + 3) * h) by (nonlinear_arith);
        let code = self.lemma_dyadic(1, k);
        let p = Self::exp2(k);
        assert(1real * p == p) by (nonlinear_arith);
        self.law_nearest_bounded(size(x), code);
        self.law_nearest_exists(size(x));
        let r = self.rounded(zero_sign, x);
        self.lemma_value_zero();
        self.lemma_zero_value(r);
        self.lemma_value_increasing(r.code as nat, code);
    }

    /// What is no less than a number of the format still is once it is rounded.
    pub proof fn lemma_rounded_at_least(self, zero_sign: bool, x: real, code: nat)
        requires
            self.wf(),
            code <= self.infinity,
            x >= self.value(code),
        ensures
            self.real_value(self.rounded(zero_sign, x)) >= self.value(code),
            x > 0real ==> !self.rounded(zero_sign, x).negative,
            self.rounded(zero_sign, x).code >= code,
    {
        self.lemma_value_zero();
        self.lemma_value_increasing(0, code);
        self.law_nearest_bounded(x, code);
        self.law_nearest_exists(x);
        self.lemma_value_increasing(code, self.nearest(x));
        if x == 0real && code > 0 {
            self.lemma_value_increasing(1, code);
            self.lemma_value_increasing(0, 1);
        }
    }
}

impl Double {
    /// Whole numbers of at most 53 bits are exact.
    pub proof fn law_integer_exact(n: nat)
        requires
            n <= 0x20_0000_0000_0000,
        ensures
            Self::nearest(n as real).value() == n as real,
            Self::nearest(n as real).is_finite(),
            !Self::nearest(n as real).number().negative,
    {
        reveal(Double::nearest);
        let f = Self::format();
        let x = n as real;
        Self::lemma_format();
        lemma2_to64();
        f.lemma_rounded_holds(false, x);
        f.lemma_value_zero();
        if n > 0 {
            assert(x * 1real == x) by (nonlinear_arith);
            let code = f.lemma_dyadic(n, 0);
            f.law_nearest_exact(code);
            f.lemma_value_increasing(0, code);
        }
    }

    /// Finite, and between a power of two and its opposite.
    pub open spec fn at_most(self, k: int) -> bool {
        self.is_finite() && size(self.value()) <= Format::exp2(k)
    }

    /// A smaller bound is a bound.
    pub proof fn lemma_at_most_more(self, k: int, more: int)
        requires
            self.at_most(k),
            k <= more,
        ensures
            self.at_most(more),
    {
        let n = (more - k) as nat;
        Format::lemma_exp2_shift(k, n);
        Format::lemma_exp2_pos(k);
        lemma_pow2_pos(n);
        let p = pow2(n) as real;
        let e = Format::exp2(k);
        assert(p * e >= e) by (nonlinear_arith)
            requires
                p >= 1real,
                e > 0real,
        ;
    }

    pub proof fn lemma_of_rounded(zero_sign: bool, x: real, k: int)
        requires
            -1000 <= k <= 900,
            size(x) <= Format::exp2(k),
        ensures
            Self::of(Self::format().rounded(zero_sign, x)).at_most(k),
            Self::of(Self::format().rounded(zero_sign, x)).number() == Self::format().rounded(
                zero_sign,
                x,
            ),
    {
        let f = Self::format();
        Self::lemma_format();
        let h = f.hidden as int;
        assert((k + 1074 + 3) * h <= 2047 * h) by (nonlinear_arith)
            requires
                k <= 900,
                h > 0,
        ;
        f.lemma_rounded_at_most(zero_sign, x, k);
        f.lemma_rounded_holds(zero_sign, x);
        Self::lemma_number_of(f.rounded(zero_sign, x));
    }

    /// Bounds multiply with the numbers.
    pub proof fn law_product_at_most(a: Self, b: Self, i: int, j: int)
        requires
            a.at_most(i),
            b.at_most(j),
            -1000 <= i + j <= 900,
        ensures
            a.times(b).at_most(i + j),
    {
        reveal(Double::times);
        let x = a.value();
        let y = b.value();
        let p = Format::exp2(i);
        let q = Format::exp2(j);
        Format::lemma_exp2_adds(i, j);
        assert(-(p * q) <= x * y <= p * q) by (nonlinear_arith)
            requires
                -p <= x <= p,
                -q <= y <= q,
        ;
        Self::lemma_of_rounded(a.number().negative != b.number().negative, x * y, i + j);
    }

    /// A sum is within twice the bound of its terms.
    pub proof fn law_sum_at_most(a: Self, b: Self, k: int)
        requires
            a.at_most(k),
            b.at_most(k),
            -1000 <= k < 900,
        ensures
            a.plus(b).at_most(k + 1),
    {
        reveal(Double::plus);
        Format::lemma_exp2_step(k);
        Self::lemma_of_rounded(
            a.number().negative && b.number().negative,
            a.value() + b.value(),
            k + 1,
        );
    }

    /// A difference is within twice the bound of its terms.
    pub proof fn law_difference_at_most(a: Self, b: Self, k: int)
        requires
            a.at_most(k),
            b.at_most(k),
            -1000 <= k < 900,
        ensures
            a.minus(b).at_most(k + 1),
    {
        reveal(Double::minus);
        Format::lemma_exp2_step(k);
        Self::lemma_of_rounded(
            a.number().negative && !b.number().negative,
            a.value() - b.value(),
            k + 1,
        );
    }

    /// A quotient of a finite number by one that is neither zero nor infinite is a
    /// number.
    pub proof fn law_quotient_is_a_number(a: Self, b: Self)
        requires
            !a.is_nan(),
            b.is_finite(),
            b.value() != 0real,
        ensures
            !a.over(b).is_nan(),
    {
        reveal(Double::over);
        let f = Self::format();
        Self::lemma_format();
        f.lemma_zero_value(b.number());
        let z = a.number().negative != b.number().negative;
        if a.is_infinite() {
            Self::lemma_number_of(f.signed_infinity(z));
        } else {
            let x = a.value() / b.value();
            f.lemma_rounded_holds(z, x);
            Self::lemma_number_of(f.rounded(z, x));
        }
    }

    /// What is a number stays one in the smaller format.
    pub proof fn law_narrowed_is_a_number(a: Self)
        requires
            !a.is_nan(),
        ensures
            !a.narrowed().is_nan(),
    {
        let f = Single::format();
        Single::lemma_format();
        if a.is_infinite() {
            Single::lemma_number_of(f.signed_infinity(a.number().negative));
        } else {
            f.lemma_rounded_holds(a.number().negative, a.value());
            Single::lemma_number_of(f.rounded(a.number().negative, a.value()));
        }
    }
}

impl Single {
    /// A finite number of the smaller format is below `2^128` in the larger one; no
    /// number becomes a NaN there.
    pub proof fn law_widened_at_most(a: Self)
        requires
            !a.is_nan(),
        ensures
            !a.widened().is_nan(),
            a.is_finite() ==> a.widened().at_most(128),
    {
        let f = Self::format();
        let g = Double::format();
        Self::lemma_format();
        Double::lemma_format();
        lemma2_to64();
        if a.is_infinite() {
            Double::lemma_number_of(g.signed_infinity(a.number().negative));
        } else {
            f.lemma_value_increasing(a.number().code as nat, f.infinity as nat);
            f.lemma_zero_value(a.number());
            f.lemma_value_split(253, 0x100_0000);
            Format::lemma_exp2_shift(104, 24);
            assert(f.value(f.infinity as nat) == Format::exp2(128));
            Double::lemma_of_rounded(a.number().negative, a.value(), 128);
        }
    }

    /// A rounded number below `2^100` is finite, and misses the exact one by one part in
    /// `2^24` where that is no subnormal, and by half the smallest positive number more
    /// otherwise.
    pub proof fn law_rounding_error(zero_sign: bool, x: real)
        requires
            size(x) <= Format::exp2(100),
        ensures
            ({
                let r = Self::of(Self::format().rounded(zero_sign, x));
                let d = size(r.value() - x);
                &&& r.number() == Self::format().rounded(zero_sign, x)
                &&& r.is_finite()
                &&& size(r.value()) <= Format::exp2(100)
                &&& size(x) >= Format::exp2(-126) ==> d * 16777216real <= size(x)
                &&& d <= size(x) / 16777216real + Format::exp2(-150)
            }),
    {
        let f = Self::format();
        Self::lemma_format();
        lemma2_to64();
        let h = f.hidden as int;
        assert((100 + 149 + 3) * h <= 255 * h) by (nonlinear_arith)
            requires
                h > 0,
        ;
        f.lemma_rounded_at_most(zero_sign, x, 100);
        f.lemma_rounded_holds(zero_sign, x);
        Self::lemma_number_of(f.rounded(zero_sign, x));
        // The normal numbers start at 2^-126, and infinity counts as 2^128.
        f.lemma_value_split(0, 0x80_0000);
        Format::lemma_exp2_shift(-149, 23);
        f.lemma_value_split(0, 1);
        let w = Format::exp2(-149);
        assert(1real * w == w) by (nonlinear_arith);
        Format::lemma_exp2_step(-150);
        Format::lemma_exp2_pos(-150);
        f.lemma_value_split(253, 0x100_0000);
        Format::lemma_exp2_shift(104, 24);
        Format::lemma_exp2_shift(100, 28);
        Format::lemma_exp2_pos(100);
        let b = Format::exp2(100);
        assert(268435456real * b > b) by (nonlinear_arith)
            requires
                b > 0real,
        ;
        f.lemma_rounded_error(zero_sign, x);
    }

    /// A difference of finite numbers is a number.
    pub proof fn law_difference_is_a_number(a: Self, b: Self)
        requires
            a.is_finite(),
            b.is_finite(),
        ensures
            !a.minus(b).is_nan(),
    {
        reveal(Single::minus);
        let f = Self::format();
        Self::lemma_format();
        let z = a.number().negative && !b.number().negative;
        let x = a.value() - b.value();
        f.lemma_rounded_holds(z, x);
        Self::lemma_number_of(f.rounded(z, x));
    }
}

} // verus!
