//! How rounding errors add up over several double-precision operations.
//!
//! A result is compared with the exact one by a size that bounds the latter: for a sum of
//! terms of either sign that is the sum of their sizes, so that nothing is lost where
//! they cancel.

use vstd::prelude::*;
use vstd::arithmetic::power2::*;
use super::double::Double;
use super::format::Format;

verus! {

/// Zero, or between two powers of two.
pub open spec fn ranged(m: real, low: int, high: int) -> bool {
    m == 0real || Format::exp2(low) <= m <= Format::exp2(high)
}

/// A larger exponent gives a larger power.
pub proof fn lemma_power_order(i: int, j: int)
    requires
        i <= j,
    ensures
        Format::exp2(i) <= Format::exp2(j),
{
    let n = (j - i) as nat;
    Format::lemma_exp2_shift(i, n);
    Format::lemma_exp2_pos(i);
    lemma_pow2_pos(n);
    let p = pow2(n) as real;
    let e = Format::exp2(i);
    assert(p * e >= e) by (nonlinear_arith)
        requires
            p >= 1real,
            e > 0real,
    ;
}

pub proof fn lemma_ranged_more(m: real, low: int, high: int, l: int, h: int)
    requires
        ranged(m, low, high),
        l <= low,
        high <= h,
    ensures
        ranged(m, l, h),
{
    lemma_power_order(l, low);
    lemma_power_order(high, h);
}

pub proof fn lemma_ranged_product(a: real, b: real, i: int, j: int, k: int, l: int)
    requires
        ranged(a, i, j),
        ranged(b, k, l),
    ensures
        ranged(a * b, i + k, j + l),
{
    if a == 0real || b == 0real {
        assert(a * b == 0real) by (nonlinear_arith)
            requires
                a == 0real || b == 0real,
        ;
    } else {
        Format::lemma_exp2_adds(i, k);
        Format::lemma_exp2_adds(j, l);
        Format::lemma_exp2_pos(i);
        Format::lemma_exp2_pos(k);
        let p = Format::exp2(i);
        let q = Format::exp2(k);
        let r = Format::exp2(j);
        let s = Format::exp2(l);
        assert(p * q <= a * b) by (nonlinear_arith)
            requires
                0real < p <= a,
                0real < q <= b,
        ;
        assert(a * b <= r * s) by (nonlinear_arith)
            requires
                0real < a <= r,
                0real < b <= s,
        ;
    }
}

pub proof fn lemma_ranged_sum(a: real, b: real, low: int, high: int)
    requires
        ranged(a, low, high),
        ranged(b, low, high),
    ensures
        ranged(a + b, low, high + 1),
        a >= 0real,
        b >= 0real,
{
    Format::lemma_exp2_step(high);
    Format::lemma_exp2_pos(high);
    Format::lemma_exp2_pos(low);
}

impl Double {
    /// A finite number that misses `x`, which `m` bounds, by `k` parts of `m` in `2^50`
    /// at most.
    pub open spec fn close(self, x: real, m: real, k: real) -> bool {
        &&& self.is_finite()
        &&& super::error::size(x) <= m
        &&& super::error::size(self.value() - x) * 1125899906842624real <= k * m
    }

    /// A looser bound holds too.
    pub proof fn lemma_close_more(self, x: real, m: real, k: real, more: real)
        requires
            self.close(x, m, k),
            k <= more,
        ensures
            self.close(x, m, more),
    {
        assert(k * m <= more * m) by (nonlinear_arith)
            requires
                k <= more,
                m >= 0real,
        ;
    }

    /// Rounding what is close keeps it close.
    pub proof fn lemma_rounded_close(zero_sign: bool, y: real, x: real, m: real, k: real)
        requires
            ranged(m, -900, 300),
            super::error::size(x) <= m,
            0real <= k <= 1000000real,
            super::error::size(y - x) * 1125899906842624real <= k * m,
        ensures
            Self::of(Self::format().rounded(zero_sign, y)).close(x, m, k + 1real),
            Self::of(Self::format().rounded(zero_sign, y)).number() == Self::format().rounded(
                zero_sign,
                y,
            ),
    {
        let f = Self::format();
        Self::lemma_format();
        lemma2_to64();
        lemma2_to64_rest();
        let r = f.rounded(zero_sign, y);
        f.lemma_value_zero();
        Format::lemma_exp2_pos(300);
        Format::lemma_exp2_pos(-900);
        assert(k * m <= 1000000real * m) by (nonlinear_arith)
            requires
                k <= 1000000real,
                m >= 0real,
        ;
        Format::lemma_exp2_step(300);
        assert(super::error::size(y) <= 2real * m);
        Self::lemma_of_rounded(zero_sign, y, 301);
        assert((k + 1real) * m == k * m + m) by (nonlinear_arith);
        let d = super::error::size(f.real_value(r) - y);
        if m == 0real {
            assert(y == 0real);
            assert(f.real_value(r) == 0real);
        } else {
            // The normal numbers start at 2^-1022, and infinity counts as 2^1024.
            f.lemma_value_split(2045, 0x20_0000_0000_0000);
            Format::lemma_exp2_shift(971, 53);
            assert(2045 * 0x10_0000_0000_0000 + 0x20_0000_0000_0000 == f.infinity);
            lemma_power_order(302, 1024);
            Format::lemma_exp2_step(301);
            Format::lemma_exp2_pos(301);
            f.lemma_rounded_error(zero_sign, y);
            f.lemma_value_split(0, 1);
            let w = Format::exp2(-1074);
            assert(1real * w == w) by (nonlinear_arith);
            Format::lemma_exp2_shift(-1074, 50);
            Format::lemma_exp2_pos(-1074);
            lemma_power_order(-1024, -900);
            if super::error::size(y) >= f.value(f.hidden as nat) {
                assert(2real * f.hidden as real == 9007199254740992real);
                assert(d * 9007199254740992real <= super::error::size(y));
            } else {
                assert(2real * d <= w);
                assert(1125899906842624real * w <= m);
            }
            assert(d * 1125899906842624real <= m);
        }
    }

    /// A product of close numbers is close to that of the exact ones.
    pub proof fn law_product_is_close(
        a: Self,
        b: Self,
        x: real,
        y: real,
        m: real,
        n: real,
        i: real,
        j: real,
    )
        requires
            a.close(x, m, i),
            b.close(y, n, j),
            0real <= i <= 1000real,
            0real <= j <= 1000real,
            ranged(m * n, -900, 300),
        ensures
            a.times(b).close(x * y, m * n, i + j + 2real),
    {
        reveal(Double::times);
        Self::lemma_format();
        lemma_product_error(a.value(), b.value(), x, y, m, n, i, j);
        Self::lemma_rounded_close(
            a.number().negative != b.number().negative,
            a.value() * b.value(),
            x * y,
            m * n,
            i + j + 1real,
        );
    }

    /// A sum of close numbers is close to that of the exact ones.
    pub proof fn law_sum_is_close(
        a: Self,
        b: Self,
        x: real,
        y: real,
        m: real,
        n: real,
        k: real,
    )
        requires
            a.close(x, m, k),
            b.close(y, n, k),
            0real <= k <= 1000real,
            ranged(m + n, -900, 300),
        ensures
            a.plus(b).close(x + y, m + n, k + 1real),
    {
        reveal(Double::plus);
        Self::lemma_format();
        assert(k * (m + n) == k * m + k * n) by (nonlinear_arith);
        Self::lemma_rounded_close(
            a.number().negative && b.number().negative,
            a.value() + b.value(),
            x + y,
            m + n,
            k,
        );
    }

    /// A difference of close numbers is close to that of the exact ones.
    pub proof fn law_difference_is_close(
        a: Self,
        b: Self,
        x: real,
        y: real,
        m: real,
        n: real,
        k: real,
    )
        requires
            a.close(x, m, k),
            b.close(y, n, k),
            0real <= k <= 1000real,
            ranged(m + n, -900, 300),
        ensures
            a.minus(b).close(x - y, m + n, k + 1real),
    {
        reveal(Double::minus);
        Self::lemma_format();
        assert(k * (m + n) == k * m + k * n) by (nonlinear_arith);
        Self::lemma_rounded_close(
            a.number().negative && !b.number().negative,
            a.value() - b.value(),
            x - y,
            m + n,
            k,
        );
    }

    /// A number is close to itself.
    pub proof fn lemma_close_itself(self)
        requires
            self.is_finite(),
        ensures
            self.close(self.value(), super::error::size(self.value()), 0real),
    {
        let m = super::error::size(self.value());
        assert(0real * m == 0real) by (nonlinear_arith);
    }
}

/// The error of a product, over those of its factors.
proof fn lemma_product_error(
    a: real,
    b: real,
    x: real,
    y: real,
    m: real,
    n: real,
    i: real,
    j: real,
)
    requires
        super::error::size(x) <= m,
        super::error::size(y) <= n,
        super::error::size(a - x) * 1125899906842624real <= i * m,
        super::error::size(b - y) * 1125899906842624real <= j * n,
        0real <= i <= 1000real,
        0real <= j <= 1000real,
    ensures
        super::error::size(x * y) <= m * n,
        super::error::size(a * b - x * y) * 1125899906842624real <= (i + j + 1real) * (m * n),
{
    let p = 1125899906842624real;
    let da = a - x;
    let db = b - y;
    let mn = m * n;
    lemma_size_product(x, y, m, n);
    // In parts of 2^-50.
    let u = da * p;
    let v = db * p;
    let im = i * m;
    let jn = j * n;
    assert(super::error::size(u) <= im && super::error::size(v) <= jn);
    lemma_size_product(u, y, im, n);
    lemma_size_product(x, v, m, jn);
    lemma_size_product(u, v, im, jn);
    assert(im * n == i * mn) by (nonlinear_arith)
        requires
            im == i * m,
            mn == m * n,
    ;
    assert(m * jn == j * mn) by (nonlinear_arith)
        requires
            jn == j * n,
            mn == m * n,
    ;
    let ij = i * j;
    assert(0real <= ij <= 1000000real) by (nonlinear_arith)
        requires
            ij == i * j,
            0real <= i <= 1000real,
            0real <= j <= 1000real,
    ;
    assert(im * jn == ij * mn) by (nonlinear_arith)
        requires
            im == i * m,
            jn == j * n,
            mn == m * n,
            ij == i * j,
    ;
    assert(mn >= 0real) by (nonlinear_arith)
        requires
            mn == m * n,
            m >= 0real,
            n >= 0real,
    ;
    assert(ij * mn <= 1000000real * mn) by (nonlinear_arith)
        requires
            ij <= 1000000real,
            mn >= 0real,
    ;
    let uy = u * y;
    let xv = x * v;
    let uv = u * v;
    let e = a * b - x * y;
    assert(e == da * db + da * y + x * db) by (nonlinear_arith)
        requires
            e == a * b - x * y,
            da == a - x,
            db == b - y,
    ;
    assert(da * y * p == uy) by (nonlinear_arith)
        requires
            u == da * p,
            uy == u * y,
    ;
    assert(x * db * p == xv) by (nonlinear_arith)
        requires
            v == db * p,
            xv == x * v,
    ;
    let dd = da * db;
    assert(dd * p * p == uv) by (nonlinear_arith)
        requires
            dd == da * db,
            u == da * p,
            v == db * p,
            uv == u * v,
    ;
    assert((i + j + 1real) * mn == i * mn + j * mn + mn) by (nonlinear_arith);
    assert(dd * p == uv / p);
    assert(e * p == dd * p + uy + xv);
}

proof fn lemma_size_product(x: real, y: real, m: real, n: real)
    requires
        super::error::size(x) <= m,
        super::error::size(y) <= n,
    ensures
        super::error::size(x * y) <= m * n,
{
    let a = super::error::size(x);
    let b = super::error::size(y);
    assert(super::error::size(x * y) == a * b) by {
        assert(x * y == a * b || x * y == -(a * b)) by (nonlinear_arith)
            requires
                x == a || x == -a,
                y == b || y == -b,
        ;
        assert(a * b >= 0real) by (nonlinear_arith)
            requires
                a >= 0real,
                b >= 0real,
        ;
    }
    assert(a * b <= m * n) by (nonlinear_arith)
        requires
            0real <= a <= m,
            0real <= b <= n,
    ;
}

} // verus!
