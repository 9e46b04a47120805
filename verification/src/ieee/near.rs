//! How near a single-precision result is to the exact one, operation by operation.

use vstd::prelude::*;
use vstd::arithmetic::power2::*;
use super::format::Format;
use super::single::Single;

verus! {

impl Single {
    /// A finite number that misses an exact one by one part in `2^24`, and half the
    /// smallest positive number, at most.
    pub open spec fn near(self, x: real) -> bool {
        &&& self.is_finite()
        &&& super::error::size(self.value() - x) <= super::error::size(x) / 16777216real
            + Format::exp2(-150)
    }

    /// What is below `2^80` is below `2^100`.
    pub proof fn lemma_in_range(x: real)
        requires
            super::error::size(x) <= 1208925819614629174706176real,
        ensures
            super::error::size(x) <= Format::exp2(100),
    {
        lemma2_to64();
        lemma2_to64_rest();
        Format::lemma_exp2_shift(0, 40);
        Format::lemma_exp2_shift(40, 40);
        Format::lemma_exp2_shift(80, 20);
        let one = Format::exp2(0);
        let a = Format::exp2(40);
        let b = Format::exp2(80);
        let c = Format::exp2(100);
        assert(one == 1real);
        assert(a == 1099511627776real) by (nonlinear_arith)
            requires
                a == 1099511627776real * one,
                one == 1real,
        ;
        assert(b == 1208925819614629174706176real) by (nonlinear_arith)
            requires
                b == 1099511627776real * a,
                a == 1099511627776real,
        ;
        assert(c >= b) by (nonlinear_arith)
            requires
                c == 1048576real * b,
                b >= 0real,
        ;
    }

    /// Half the smallest positive number is next to nothing.
    pub proof fn lemma_least()
        ensures
            0real < Format::exp2(-150) <= 1real / 1152921504606846976real,
    {
        lemma2_to64();
        lemma2_to64_rest();
        Format::lemma_exp2_pos(-150);
        Format::lemma_exp2_shift(-150, 60);
        Format::lemma_exp2_shift(-90, 60);
        Format::lemma_exp2_shift(-30, 30);
        Format::lemma_exp2_pos(-90);
        Format::lemma_exp2_pos(-30);
        let a = Format::exp2(-90);
        let b = Format::exp2(-30);
        let e = Format::exp2(-150);
        assert(1073741824real * b == 1real);
        assert(a <= b) by (nonlinear_arith)
            requires
                b == 1152921504606846976real * a,
                a > 0real,
        ;
        assert(e <= 1real / 1152921504606846976real) by (nonlinear_arith)
            requires
                1152921504606846976real * e <= 1real,
        ;
    }

    /// It is below `2^-120`, to be exact.
    pub proof fn lemma_least_exactly()
        ensures
            0real < Format::exp2(-150) <= 1real / 1329227995784915872903807060280344576real,
    {
        lemma2_to64();
        lemma2_to64_rest();
        Format::lemma_exp2_pos(-150);
        Format::lemma_exp2_shift(-150, 60);
        Format::lemma_exp2_shift(-90, 60);
        Format::lemma_exp2_shift(-30, 30);
        Format::lemma_exp2_pos(-30);
        let a = Format::exp2(-90);
        let b = Format::exp2(-30);
        let e = Format::exp2(-150);
        assert(1073741824real * b == 1real);
        assert(b == 1329227995784915872903807060280344576real * e) by (nonlinear_arith)
            requires
                b == 1152921504606846976real * a,
                a == 1152921504606846976real * e,
        ;
        assert(e <= 1real / 1329227995784915872903807060280344576real) by (nonlinear_arith)
            requires
                1329227995784915872903807060280344576real * e <= 1real,
        ;
    }

    /// Clearing the sign gives the absolute value.
    pub proof fn lemma_magnitude(a: Self)
        ensures
            a.magnitude().is_nan() == a.is_nan(),
            a.magnitude().is_finite() == a.is_finite(),
            a.magnitude().value() == super::error::size(a.value()),
    {
        let f = Self::format();
        Self::lemma_format();
        let n = super::number::Number { negative: false, code: a.number().code };
        Self::lemma_number_of(n);
        f.lemma_value_zero();
        f.lemma_value_increasing(0, a.number().code as nat);
    }

    /// A sum is near the exact one.
    pub proof fn law_sum_is_near(a: Self, b: Self)
        requires
            a.is_finite(),
            b.is_finite(),
            super::error::size(a.value() + b.value()) <= Format::exp2(100),
        ensures
            a.plus(b).near(a.value() + b.value()),
    {
        reveal(Single::plus);
        Self::lemma_format();
        Self::law_rounding_error(
            a.number().negative && b.number().negative,
            a.value() + b.value(),
        );
    }

    /// A difference is near the exact one.
    pub proof fn law_difference_is_near(a: Self, b: Self)
        requires
            a.is_finite(),
            b.is_finite(),
            super::error::size(a.value() - b.value()) <= Format::exp2(100),
        ensures
            a.minus(b).near(a.value() - b.value()),
    {
        reveal(Single::minus);
        Self::lemma_format();
        Self::law_rounding_error(
            a.number().negative && !b.number().negative,
            a.value() - b.value(),
        );
    }

    /// A product is near the exact one.
    pub proof fn law_product_is_near(a: Self, b: Self)
        requires
            a.is_finite(),
            b.is_finite(),
            super::error::size(a.value() * b.value()) <= Format::exp2(100),
        ensures
            a.times(b).near(a.value() * b.value()),
    {
        reveal(Single::times);
        Self::lemma_format();
        Self::law_rounding_error(
            a.number().negative != b.number().negative,
            a.value() * b.value(),
        );
    }

    /// A quotient is near the exact one.
    pub proof fn law_quotient_is_near(a: Self, b: Self)
        requires
            a.is_finite(),
            b.is_finite(),
            b.value() != 0real,
            super::error::size(a.value() / b.value()) <= Format::exp2(100),
        ensures
            a.over(b).near(a.value() / b.value()),
    {
        reveal(Single::over);
        Self::lemma_format();
        Self::format().lemma_zero_value(b.number());
        Self::law_rounding_error(
            a.number().negative != b.number().negative,
            a.value() / b.value(),
        );
    }

    /// The square of a square root is the number it was taken of, but for one part in
    /// `2^22`.
    pub proof fn law_root_is_near(a: Self)
        requires
            a.is_finite(),
            a.value() >= 0real,
        ensures
            ({
                let r = a.root();
                &&& r.is_finite()
                &&& r.value() >= 0real
                &&& super::error::size(r.value() * r.value() - a.value()) * 4194304real
                    <= a.value()
            }),
    {
        reveal(Single::root);
        let f = Self::format();
        Self::lemma_format();
        a.lemma_of_number();
        f.lemma_value_zero();
        f.lemma_zero_value(a.number());
        let v = a.value();
        if a.number().code == 0 {
            assert(a.root() == a);
            assert(0real * 0real == 0real) by (nonlinear_arith);
        } else {
            let k = f.nearest_root(v);
            f.law_nearest_root_exists(v);
            lemma_root_code(v, k, a.number().code as nat);
            let r = f.value(k);
            let next = f.value(k + 1);
            let last = f.value((k - 1) as nat);
            f.lemma_value_succ(k);
            f.lemma_value_succ((k - 1) as nat);
            let (q, sig) = f.lemma_split(k);
            let (p, low) = f.lemma_split((k - 1) as nat);
            f.lemma_value_split(q, sig);
            let gap = Format::exp2(q - f.unit);
            let less = Format::exp2(p - f.unit);
            Format::lemma_exp2_pos(q - f.unit);
            assert(p <= q) by (nonlinear_arith)
                requires
                    k == q * 0x80_0000 + sig,
                    k - 1 == p * 0x80_0000 + low,
                    sig < 2 * 0x80_0000,
                    p == 0 || low >= 0x80_0000,
                    q == 0 || sig >= 0x80_0000,
                    k > 0x80_0000,
            ;
            super::close::lemma_power_order(p - f.unit, q - f.unit);
            let s = sig as real;
            assert(gap * 8388608real <= r) by (nonlinear_arith)
                requires
                    r == s * gap,
                    s >= 8388608real,
                    gap > 0real,
            ;
            let hi = next + r;
            let lo = last + r;
            assert(hi * hi >= 4real * v);
            assert(lo * lo <= 4real * v);
            lemma_square_between(v, r, gap, hi, lo);
            let n = f.root(a.number());
            assert(n.code == k);
            Self::lemma_number_of(n);
            f.lemma_zero_value(n);
        }
    }
}

impl Single {
    /// The root of a square is exact.
    pub proof fn law_root_of_a_square(a: Self, r: Self)
        requires
            a.is_finite(),
            r.is_finite(),
            r.value() > 0real,
            a.value() == r.value() * r.value(),
        ensures
            a.root().is_finite(),
            a.root().value() == r.value(),
    {
        reveal(Single::root);
        let f = Self::format();
        Self::lemma_format();
        f.lemma_value_zero();
        f.lemma_zero_value(a.number());
        f.lemma_zero_value(r.number());
        let v = a.value();
        let x = r.value();
        let k = r.number().code as nat;
        assert(v > 0real) by (nonlinear_arith)
            requires
                v == x * x,
                x > 0real,
        ;
        assert forall|j: nat| #![trigger f.value(j)] j < k implies ({
            let sum = f.value(j) + f.value(k);
            sum * sum < 4real * v
        }) by {
            f.lemma_value_increasing(0, j);
            f.lemma_value_increasing(j, k);
            let sum = f.value(j) + f.value(k);
            assert(sum * sum < 4real * v) by (nonlinear_arith)
                requires
                    0real <= sum < 2real * x,
                    v == x * x,
            ;
        }
        assert forall|j: nat| #![trigger f.value(j)] k < j <= f.infinity implies ({
            let sum = f.value(j) + f.value(k);
            4real * v < sum * sum
        }) by {
            f.lemma_value_increasing(k, j);
            let sum = f.value(j) + f.value(k);
            assert(4real * v < sum * sum) by (nonlinear_arith)
                requires
                    sum > 2real * x,
                    x > 0real,
                    v == x * x,
            ;
        }
        assert(f.is_nearest_root(v, k));
        f.lemma_nearest_root_unique(v, k);
        Self::lemma_number_of(f.root(a.number()));
    }

    /// A product that is a whole number of at most 24 bits is exact.
    pub proof fn law_whole_product_is_exact(a: Self, b: Self, n: nat)
        requires
            a.is_finite(),
            b.is_finite(),
            n <= 0x100_0000,
            a.value() * b.value() == n as real,
        ensures
            a.times(b).is_finite(),
            a.times(b).value() == n as real,
    {
        reveal(Single::times);
        reveal(Single::nearest);
        let f = Self::format();
        Self::lemma_format();
        Self::law_integer_exact(n);
        let z = a.number().negative != b.number().negative;
        f.lemma_rounded_holds(z, n as real);
        f.lemma_rounded_holds(false, n as real);
        Self::lemma_number_of(f.rounded(z, n as real));
        Self::lemma_number_of(f.rounded(false, n as real));
        f.lemma_value_zero();
    }

    /// A sum that is a whole number of at most 24 bits is exact.
    pub proof fn law_whole_sum_is_exact(a: Self, b: Self, n: nat)
        requires
            a.is_finite(),
            b.is_finite(),
            n <= 0x100_0000,
            a.value() + b.value() == n as real,
        ensures
            a.plus(b).is_finite(),
            a.plus(b).value() == n as real,
    {
        reveal(Single::plus);
        reveal(Single::nearest);
        let f = Self::format();
        Self::lemma_format();
        Self::law_integer_exact(n);
        let z = a.number().negative && b.number().negative;
        f.lemma_rounded_holds(z, n as real);
        f.lemma_rounded_holds(false, n as real);
        Self::lemma_number_of(f.rounded(z, n as real));
        Self::lemma_number_of(f.rounded(false, n as real));
        f.lemma_value_zero();
    }

    /// Flipping the sign gives the opposite number.
    pub proof fn law_opposite(a: Self)
        requires
            !a.is_nan(),
        ensures
            !a.opposite().is_nan(),
            a.is_finite() ==> a.opposite().is_finite(),
            a.opposite().value() == -a.value(),
            a.opposite().opposite() == a,
    {
        let f = Self::format();
        Self::lemma_format();
        Self::lemma_number_of(f.opposite(a.number()));
        a.lemma_of_number();
    }

    /// The larger and the smaller of two numbers are one of them each, in order; of a NaN and
    /// a number either is the number.
    pub proof fn law_larger_and_smaller(a: Self, b: Self)
        ensures
            a.larger(b) == a || a.larger(b) == b,
            a.smaller(b) == a || a.smaller(b) == b,
            !a.is_nan() && !b.is_nan() ==> {
                &&& a.larger(b).value() >= a.value()
                &&& a.larger(b).value() >= b.value()
                &&& a.smaller(b).value() <= a.value()
                &&& a.smaller(b).value() <= b.value()
            },
            a.is_nan() ==> a.larger(b) == b && a.smaller(b) == b,
            b.is_nan() && !a.is_nan() ==> a.larger(b) == a && a.smaller(b) == a,
    {
        reveal(Single::less);
    }

    /// Clamping gives the nearest number of an interval, and leaves one that is in it as it
    /// is; a NaN stays one.
    pub proof fn law_within_is_the_nearest(v: Self, low: Self, high: Self)
        requires
            !low.is_nan(),
            !high.is_nan(),
            low.value() <= high.value(),
        ensures
            v.is_nan() ==> v.within(low, high).is_nan(),
            !v.is_nan() && v.value() < low.value() ==> v.within(low, high) == low,
            !v.is_nan() && v.value() > high.value() ==> v.within(low, high) == high,
            !v.is_nan() && low.value() <= v.value() <= high.value() ==> v.within(low, high) == v,
    {
        reveal(Single::less);
    }
}

/// The root of a positive finite number is a normal number.
proof fn lemma_root_code(v: real, k: nat, code: nat)
    requires
        1 <= code < Single::format().infinity,
        v == Single::format().value(code),
        Single::format().is_nearest_root(v, k),
    ensures
        0x80_0000 < k < Single::format().infinity,
{
    let f = Single::format();
    Single::lemma_format();
    lemma2_to64();
    f.lemma_value_zero();
    f.lemma_value_increasing(1, code);
    f.lemma_value_increasing(code, f.infinity as nat);
    f.lemma_value_split(0, 1);
    f.lemma_value_split(253, 0x100_0000);
    Format::lemma_exp2_shift(104, 24);
    let top = f.value(f.infinity as nat);
    assert(top == Format::exp2(128));
    let least = Format::exp2(-149);
    assert(1real * least == least) by (nonlinear_arith);
    if k >= f.infinity {
        let j = (f.infinity - 1) as nat;
        f.lemma_value_increasing(0, j);
        let sum = f.value(j) + f.value(k);
        assert(sum * sum <= 4real * v);
        Format::lemma_exp2_shift(0, 3);
        Format::lemma_exp2_shift(3, 125);
        lemma_pow2_pos(125);
        let e = Format::exp2(0);
        let p = pow2(125) as real;
        assert(e == 1real);
        assert(top >= 8real) by (nonlinear_arith)
            requires
                top == p * 8real,
                p >= 1real,
        ;
        assert(sum * sum > 4real * v) by (nonlinear_arith)
            requires
                sum >= top,
                top >= 8real,
                v < top,
        ;
    }
    if k <= 0x80_0000 {
        let next = k + 1;
        f.lemma_value_increasing(k, 0x80_0000);
        f.lemma_value_increasing(next, 0x100_0000);
        f.lemma_value_increasing(0, k);
        f.lemma_value_increasing(0, next);
        f.lemma_value_split(0, 0x80_0000);
        f.lemma_value_split(1, 0x80_0000);
        Format::lemma_exp2_shift(-149, 23);
        Format::lemma_exp2_step(-149);
        Format::lemma_exp2_shift(-148, 23);
        Format::lemma_exp2_step(-126);
        Format::lemma_exp2_step(-125);
        let sum = f.value(next) + f.value(k);
        let e = Format::exp2(-124);
        Format::lemma_exp2_pos(-124);
        assert(0real <= sum <= e);
        assert(4real * v <= sum * sum);
        // e * e is 2^-248, far below 2^-147.
        Format::lemma_exp2_adds(-124, -124);
        Format::lemma_exp2_shift(-248, 60);
        Format::lemma_exp2_shift(-188, 39);
        Format::lemma_exp2_pos(-248);
        super::close::lemma_power_order(-248, -149);
        assert(sum * sum <= e * e) by (nonlinear_arith)
            requires
                0real <= sum <= e,
        ;
        Format::lemma_exp2_pos(-149);
    }
}

/// Where the root lies between the midpoints on either side of `r`, its square is near.
proof fn lemma_square_between(v: real, r: real, gap: real, hi: real, lo: real)
    requires
        v > 0real,
        gap > 0real,
        gap * 8388608real <= r,
        hi == 2real * r + gap,
        2real * r - gap <= lo <= 2real * r,
        hi * hi >= 4real * v,
        lo * lo <= 4real * v,
    ensures
        super::error::size(r * r - v) * 4194304real <= v,
{
    let rr = r * r;
    let rg = r * gap;
    let gg = gap * gap;
    assert(rg * 8388608real <= rr) by (nonlinear_arith)
        requires
            gap * 8388608real <= r,
            gap > 0real,
            rr == r * r,
            rg == r * gap,
    ;
    assert(gg * 8388608real <= rg && gg > 0real) by (nonlinear_arith)
        requires
            gap * 8388608real <= r,
            gap > 0real,
            gg == gap * gap,
            rg == r * gap,
    ;
    assert(hi * hi == 4real * rr + 4real * rg + gg) by (nonlinear_arith)
        requires
            hi == 2real * r + gap,
            rr == r * r,
            rg == r * gap,
            gg == gap * gap,
    ;
    let least = 2real * r - gap;
    assert(least * least == 4real * rr - 4real * rg + gg) by (nonlinear_arith)
        requires
            least == 2real * r - gap,
            rr == r * r,
            rg == r * gap,
            gg == gap * gap,
    ;
    assert(least * least <= lo * lo) by (nonlinear_arith)
        requires
            0real <= least <= lo,
    ;
}

} // verus!
