//! What rounding promises, whatever is rounded.

use vstd::prelude::*;
use vstd::arithmetic::power2::*;
use super::format::Format;
use super::number::Number;
use super::single::Single;

verus! {

impl Format {
    /// The last number that is not above `x`.
    pub proof fn lemma_floor(self, x: real, top: nat) -> (code: nat)
        requires
            self.wf(),
            x >= 0real,
        ensures
            code <= top,
            self.value(code) <= x,
            code < top ==> x < self.value(code + 1),
        decreases top,
    {
        if self.value(top) <= x {
            top
        } else {
            self.lemma_value_zero();
            let code = self.lemma_floor(x, (top - 1) as nat);
            code
        }
    }

    /// Every number from zero up has a nearest one in the format.
    pub proof fn law_nearest_exists(self, x: real)
        requires
            self.wf(),
            x >= 0real,
        ensures
            self.is_nearest(x, self.nearest(x)),
            self.nearest(x) <= self.infinity,
    {
        let top = self.infinity as nat;
        let k = self.lemma_floor(x, top);
        let v = self.value(k);
        let next = self.value(k + 1);
        self.lemma_value_succ(k);
        let up = k < top && (v + next < 2real * x || (v + next == 2real * x && k % 2 == 1));
        let code: nat = if up { k + 1 } else { k };
        assert forall|j: nat| #![trigger self.value(j)] j < code implies self.below_midpoint(
            j,
            code,
            x,
        ) by {
            if j < k {
                self.lemma_value_increasing(j, k);
            }
        }
        assert forall|j: nat| #![trigger self.value(j)]
            code < j <= self.infinity implies self.above_midpoint(j, code, x) by {
            self.lemma_value_increasing(code + 1, j);
            if up {
                self.lemma_value_increasing(k + 1, j);
            }
        }
        assert(self.is_nearest(x, code));
        self.lemma_nearest_unique(x, code);
    }

    /// The last number whose square is not above `v`.
    proof fn lemma_root_floor(self, v: real, top: nat) -> (code: nat)
        requires
            self.wf(),
            v >= 0real,
        ensures
            code <= top,
            self.value(code) * self.value(code) <= v,
            code < top ==> v < self.value(code + 1) * self.value(code + 1),
        decreases top,
    {
        if self.value(top) * self.value(top) <= v {
            top
        } else {
            self.lemma_value_zero();
            assert(0real * 0real == 0real) by (nonlinear_arith);
            let code = self.lemma_root_floor(v, (top - 1) as nat);
            code
        }
    }

    /// Every number from zero up has a square root nearest to a number of the format.
    pub proof fn law_nearest_root_exists(self, v: real)
        requires
            self.wf(),
            v >= 0real,
        ensures
            self.is_nearest_root(v, self.nearest_root(v)),
            self.nearest_root(v) <= self.infinity,
    {
        let top = self.infinity as nat;
        let k = self.lemma_root_floor(v, top);
        let a = self.value(k);
        let b = self.value(k + 1);
        self.lemma_value_zero();
        self.lemma_value_increasing(0, k);
        self.lemma_value_succ(k);
        let mid = (a + b) * (a + b);
        let up = k < top && (mid < 4real * v || (mid == 4real * v && k % 2 == 1));
        let code: nat = if up { k + 1 } else { k };
        assert forall|j: nat| #![trigger self.value(j)] j < code implies ({
            let sum = self.value(j) + self.value(code);
            sum * sum < 4real * v || (sum * sum == 4real * v && code % 2 == 0)
        }) by {
            self.lemma_value_increasing(0, j);
            self.lemma_value_increasing(j, k);
            let sum = self.value(j) + self.value(code);
            if up {
                if j < k {
                    assert(sum * sum < mid) by (nonlinear_arith)
                        requires
                            0real <= sum < a + b,
                            mid == (a + b) * (a + b),
                    ;
                }
            } else {
                assert(sum * sum < 4real * (a * a)) by (nonlinear_arith)
                    requires
                        0real <= sum < 2real * a,
                ;
            }
        }
        assert forall|j: nat| #![trigger self.value(j)] code < j <= self.infinity implies ({
            let sum = self.value(j) + self.value(code);
            4real * v < sum * sum || (sum * sum == 4real * v && code % 2 == 0)
        }) by {
            self.lemma_value_increasing(code + 1, j);
            let sum = self.value(j) + self.value(code);
            if up {
                self.lemma_value_increasing(k + 1, j);
                assert(4real * (b * b) < sum * sum) by (nonlinear_arith)
                    requires
                        0real <= 2real * b < sum,
                ;
            } else {
                assert(mid <= sum * sum) by (nonlinear_arith)
                    requires
                        0real <= a + b <= sum,
                        mid == (a + b) * (a + b),
                ;
                if sum > a + b {
                    assert(mid < sum * sum) by (nonlinear_arith)
                        requires
                            0real <= a + b < sum,
                            mid == (a + b) * (a + b),
                    ;
                }
            }
        }
        assert(self.is_nearest_root(v, code));
        self.lemma_nearest_root_unique(v, code);
    }

    /// A number of the format rounds to itself.
    pub proof fn law_nearest_exact(self, code: nat)
        requires
            self.wf(),
            code <= self.infinity,
        ensures
            self.nearest(self.value(code)) == code,
    {
        let x = self.value(code);
        assert forall|j: nat| #![trigger self.value(j)] j < code implies self.below_midpoint(
            j,
            code,
            x,
        ) by {
            self.lemma_value_increasing(j, code);
        }
        assert forall|j: nat| #![trigger self.value(j)]
            code < j <= self.infinity implies self.above_midpoint(j, code, x) by {
            self.lemma_value_increasing(code, j);
        }
        self.lemma_nearest_unique(x, code);
    }

    /// Rounding keeps order.
    pub proof fn law_nearest_monotone(self, x: real, y: real)
        requires
            self.wf(),
            0real <= x <= y,
        ensures
            self.nearest(x) <= self.nearest(y),
    {
        self.law_nearest_exists(x);
        self.law_nearest_exists(y);
        let a = self.nearest(x);
        let b = self.nearest(y);
        if a > b {
            assert(self.value(a) == self.value(a));
            assert(self.value(b) == self.value(b));
            assert(self.below_midpoint(b, a, x));
            assert(self.above_midpoint(a, b, y));
            assert(x == y);
        }
    }

    /// A number at or above one of the format rounds to no less than it, one at or
    /// below to no more.
    pub proof fn law_nearest_bounded(self, x: real, code: nat)
        requires
            self.wf(),
            x >= 0real,
            code <= self.infinity,
        ensures
            x >= self.value(code) ==> self.nearest(x) >= code,
            x <= self.value(code) ==> self.nearest(x) <= code,
    {
        self.law_nearest_exact(code);
        self.lemma_value_zero();
        self.lemma_value_increasing(0, code);
        if x >= self.value(code) {
            self.law_nearest_monotone(self.value(code), x);
        }
        if x <= self.value(code) {
            self.law_nearest_monotone(x, self.value(code));
        }
    }
}

impl Format {
    /// An integer of no more bits than the format has, times a power of two in its
    /// range, is a number of the format.
    pub proof fn lemma_dyadic(self, n: nat, e: int) -> (code: nat)
        requires
            self.wf(),
            0 < n <= 2 * self.hidden,
            e + self.unit >= 0,
            (e + self.unit + 2) * self.hidden <= self.infinity,
        ensures
            0 < code <= (e + self.unit + 2) * self.hidden,
            code <= self.infinity,
            self.value(code) == n as real * Self::exp2(e),
        decreases 2 * self.hidden - n,
    {
        let h = self.hidden as nat;
        let q = (e + self.unit) as nat;
        if n >= h || q == 0 {
            self.lemma_value_split(q, n);
            assert(q - self.unit == e);
            assert(q * h + n <= (q + 2) * h) by (nonlinear_arith)
                requires
                    n <= 2 * h,
            ;
            assert(q * h >= 0) by (nonlinear_arith);
            q * h + n
        } else {
            assert((e - 1 + self.unit + 2) * h <= (e + self.unit + 2) * h) by (nonlinear_arith)
                requires
                    h > 0,
            ;
            let code = self.lemma_dyadic(2 * n, e - 1);
            Self::lemma_exp2_step(e - 1);
            let x = Self::exp2(e - 1);
            assert((2 * n) as real * x == n as real * (2real * x)) by (nonlinear_arith)
                requires
                    (2 * n) as real == 2real * n as real,
            ;
            code
        }
    }

    /// A number of the format other than zero rounds to itself, sign included.
    pub proof fn lemma_rounded_exact(self, zero_sign: bool, c: Number)
        requires
            self.wf(),
            0 < c.code <= self.infinity,
        ensures
            self.rounded(zero_sign, self.real_value(c)) == c,
    {
        self.law_nearest_exact(c.code as nat);
        self.lemma_value_zero();
        self.lemma_value_increasing(0, c.code as nat);
    }

    /// A rounded result is a number, not a NaN.
    pub proof fn lemma_rounded_holds(self, zero_sign: bool, x: real)
        requires
            self.wf(),
        ensures
            self.rounded(zero_sign, x).code <= self.infinity,
            self.holds(self.rounded(zero_sign, x)),
    {
        if x < 0real {
            self.law_nearest_exists(-x);
        } else {
            self.law_nearest_exists(x);
        }
    }

    /// A zero stands for zero and nothing else does.
    pub proof fn lemma_zero_value(self, a: Number)
        requires
            self.wf(),
        ensures
            self.real_value(a) == 0real <==> a.code == 0,
            self.value(a.code as nat) >= 0real,
    {
        self.lemma_value_zero();
        self.lemma_value_increasing(0, a.code as nat);
    }
}

/// The rounded difference of two different numbers has the sign of the exact one.
proof fn lemma_difference_sign(f: Format, a: Number, b: Number)
    requires
        f.wf(),
        !a.negative || a.code == 0,
        !b.negative,
        a.code <= f.infinity,
        b.code < f.infinity,
        f.real_value(a) != f.real_value(b),
    ensures
        ({
            let r = f.plus(a, f.opposite(b));
            &&& r.code <= f.infinity
            &&& f.real_value(a) > f.real_value(b) ==> f.real_value(r) > 0real
            &&& f.real_value(a) < f.real_value(b) ==> f.real_value(r) < 0real
        }),
{
    f.lemma_zero_value(a);
    f.lemma_zero_value(b);
    if f.is_infinite(a) {
        f.lemma_value_increasing(b.code as nat, a.code as nat);
    } else {
        let x = f.real_value(a) - f.real_value(b);
        let y = if x < 0real { -x } else { x };
        f.lemma_rounded_holds(false, x);
        f.lemma_difference_step(a.code as nat, b.code as nat);
        f.law_nearest_bounded(y, 1);
        f.law_nearest_exists(y);
        f.lemma_zero_value(f.rounded(false, x));
    }
}

impl Format {
    /// Different numbers are at least the smallest positive number apart.
    proof fn lemma_difference_step(self, i: nat, j: nat)
        requires
            self.wf(),
            i != j,
        ensures
            i < j ==> self.value(j) - self.value(i) >= self.value(1),
            i > j ==> self.value(i) - self.value(j) >= self.value(1),
    {
        let (lo, hi) = if i < j { (i, j) } else { (j, i) };
        self.lemma_value_succ(lo);
        self.lemma_value_increasing(lo + 1, hi);
        self.lemma_value_split(0, 1);
        let e = self.exponent(lo);
        let w = Self::exp2(0 - self.unit);
        Self::lemma_exp2_shift(0 - self.unit, e);
        Self::lemma_exp2_pos(0 - self.unit);
        assert(0 - self.unit + e == e - self.unit);
        lemma_pow2_pos(e);
        let p = pow2(e) as real;
        assert(p * w >= 1real * w) by (nonlinear_arith)
            requires
                p >= 1real,
                w > 0real,
        ;
        assert(self.value(1) == 1real * w);
    }
}

impl Single {
    /// What the nearest datum to a dyadic number is: that number.
    pub proof fn law_dyadic_exact(n: nat, e: int)
        requires
            n <= 0x100_0000,
            -149 <= e <= 100,
        ensures
            ({
                let x = n as real * Format::exp2(e);
                &&& Self::nearest(x).value() == x
                &&& Self::nearest(x).is_finite()
                &&& Self::nearest(x).number().negative == false
            }),
    {
        reveal(Single::nearest);
        let f = Self::format();
        let x = n as real * Format::exp2(e);
        Self::lemma_format();
        f.lemma_rounded_holds(false, x);
        if n == 0 {
            let y = Format::exp2(e);
            assert(0real * y == 0real) by (nonlinear_arith);
            f.lemma_value_zero();
        } else {
            let h = f.hidden as int;
            assert((e + 149 + 2) * h <= 251 * h) by (nonlinear_arith)
                requires
                    e <= 100,
                    h > 0,
            ;
            let code = f.lemma_dyadic(n, e);
            f.law_nearest_exact(code);
            f.lemma_value_zero();
            f.lemma_value_increasing(0, code);
        }
    }

    /// Whole numbers of at most 24 bits are exact.
    pub proof fn law_integer_exact(n: nat)
        requires
            n <= 0x100_0000,
        ensures
            Self::nearest(n as real).value() == n as real,
            Self::nearest(n as real).is_finite(),
            Self::nearest(n as real).number().negative == false,
    {
        lemma2_to64();
        assert(n as real * 1real == n as real) by (nonlinear_arith);
        Self::law_dyadic_exact(n, 0);
    }

    /// Negative powers of two are exact fractions.
    pub proof fn law_power_fraction(k: nat)
        requires
            k <= 24,
        ensures
            ({
                let r = Self::fraction(1, pow2(k));
                &&& r.value() == Format::exp2(-(k as int))
                &&& r.is_finite()
                &&& !r.number().negative
                &&& r.number().code >= 0x80_0000
            }),
    {
        reveal(Single::nearest);
        reveal(Single::over);
        let f = Self::format();
        Self::lemma_format();
        lemma2_to64();
        if k < 24 {
            lemma_pow2_strictly_increases(k, 24);
        }
        lemma_pow2_pos(k);
        Self::law_integer_exact(1);
        Self::law_integer_exact(pow2(k));
        let one = Self::nearest(1real);
        let den = Self::nearest(pow2(k) as real);
        f.lemma_zero_value(one.number());
        f.lemma_zero_value(den.number());
        let x = Format::exp2(-(k as int));
        let d = pow2(k) as real;
        Format::lemma_exp2_pos(-(k as int));
        if k == 0 {
            assert(1real / d == 1real) by (nonlinear_arith)
                requires
                    d == 1real,
            ;
        }
        assert(one.value() / den.value() == x);
        assert(1real * x == x) by (nonlinear_arith);
        Self::law_dyadic_exact(1, -(k as int));
        assert(Self::fraction(1, pow2(k)) == Self::nearest(x));
        // 2^-24 is far above the smallest normal number.
        let c = Self::nearest(x).number().code as nat;
        if c < 0x80_0000 {
            f.lemma_value_increasing(c, 0x80_0000);
            f.lemma_value_split(0, 0x80_0000);
            Format::lemma_exp2_shift(-149, 23);
            Format::lemma_exp2_shift(-126, (126 - k) as nat);
            Format::lemma_exp2_pos(-126);
            lemma_pow2_pos((126 - k) as nat);
            let p = pow2((126 - k) as nat) as real;
            let y = Format::exp2(-126);
            assert(p * y >= 1real * y) by (nonlinear_arith)
                requires
                    p >= 1real,
                    y > 0real,
            ;
            assert(-126 + (126 - k) == -(k as int));
        }
    }

    /// A sum that the format can hold is not rounded.
    pub proof fn law_sum_exact(a: Self, b: Self, c: Self)
        requires
            a.is_finite(),
            b.is_finite(),
            c.is_finite(),
            a.value() + b.value() == c.value(),
            c.value() != 0real,
        ensures
            a.plus(b) == c,
    {
        reveal(Single::plus);
        let f = Self::format();
        Self::lemma_format();
        f.lemma_zero_value(c.number());
        f.lemma_rounded_exact(a.number().negative && b.number().negative, c.number());
        c.lemma_of_number();
    }

    /// A difference that the format can hold is not rounded.
    pub proof fn law_difference_exact(a: Self, b: Self, c: Self)
        requires
            a.is_finite(),
            b.is_finite(),
            c.is_finite(),
            a.value() - b.value() == c.value(),
            c.value() != 0real,
        ensures
            a.minus(b) == c,
    {
        reveal(Single::minus);
        let f = Self::format();
        Self::lemma_format();
        f.lemma_zero_value(c.number());
        f.lemma_rounded_exact(a.number().negative && !b.number().negative, c.number());
        c.lemma_of_number();
    }

    /// A datum minus itself is the positive zero.
    pub proof fn law_difference_zero(a: Self)
        requires
            a.is_finite(),
        ensures
            a.minus(a) == Self::zero(),
    {
        reveal(Single::minus);
    }

    /// Sums do not depend on the order of their terms.
    pub proof fn law_sum_commutes(a: Self, b: Self)
        ensures
            a.plus(b) == b.plus(a),
    {
        reveal(Single::plus);
    }

    /// Comparing data compares the numbers they stand for.
    pub proof fn law_less_is_order(a: Self, b: Self)
        requires
            !a.is_nan(),
            !b.is_nan(),
        ensures
            a.less(b) <==> a.value() < b.value(),
            a.at_least(b) <==> a.value() >= b.value(),
    {
        reveal(Single::less);
    }

    /// Data are equal where they stand for the same number, whatever the sign of a zero;
    /// a NaN equals nothing, itself included.
    pub proof fn law_equal_data(a: Self, b: Self)
        ensures
            a.equals(b) <==> !a.is_nan() && !b.is_nan() && a.value() == b.value(),
            a.equals(b) == b.equals(a),
            a.equals(a) <==> !a.is_nan(),
            Self::zero().equals(Self::zero().opposite()),
    {
        reveal(Single::equals);
        Self::lemma_format();
        Self::format().lemma_value_zero();
    }

    /// A factor between zero and one makes nothing larger.
    pub proof fn law_product_shrinks(a: Self, k: Self)
        requires
            a.is_finite(),
            k.is_finite(),
            0real <= k.value() <= 1real,
        ensures
            a.times(k).is_finite(),
            a.times(k).number().code <= a.number().code,
            a.times(k).magnitude().value() <= a.magnitude().value(),
    {
        reveal(Single::times);
        let f = Self::format();
        Self::lemma_format();
        let va = f.value(a.number().code as nat);
        let kv = k.value();
        let x = a.value() * kv;
        let z = a.number().negative != k.number().negative;
        f.lemma_zero_value(a.number());
        assert(va * kv <= va) by (nonlinear_arith)
            requires
                va >= 0real,
                0real <= kv <= 1real,
        ;
        assert(va * kv >= 0real) by (nonlinear_arith)
            requires
                va >= 0real,
                0real <= kv,
        ;
        assert((-va) * kv == -(va * kv)) by (nonlinear_arith);
        let y = if x < 0real { -x } else { x };
        assert(y == va * kv);
        f.law_nearest_bounded(y, a.number().code as nat);
        f.lemma_rounded_holds(z, x);
        let r = f.rounded(z, x);
        Self::lemma_number_of(r);
        f.lemma_value_increasing(r.code as nat, a.number().code as nat);
        Self::lemma_number_of(Number { negative: false, code: r.code });
        a.lemma_of_number();
        Self::lemma_number_of(Number { negative: false, code: a.number().code });
    }

    /// Of two numbers, the one of the smaller magnitude gives the product of the smaller
    /// magnitude.
    pub proof fn law_product_monotone(a: Self, b: Self, k: Self)
        requires
            a.is_finite(),
            b.is_finite(),
            k.is_finite(),
            a.number().code <= b.number().code,
        ensures
            a.times(k).number().code <= b.times(k).number().code,
            !a.times(k).is_nan(),
            !b.times(k).is_nan(),
            a.times(k).magnitude().value() <= b.times(k).magnitude().value(),
    {
        reveal(Single::times);
        let f = Self::format();
        Self::lemma_format();
        let va = f.value(a.number().code as nat);
        let vb = f.value(b.number().code as nat);
        let vk = f.value(k.number().code as nat);
        f.lemma_value_increasing(a.number().code as nat, b.number().code as nat);
        f.lemma_zero_value(a.number());
        f.lemma_zero_value(k.number());
        assert(0real <= va * vk <= vb * vk) by (nonlinear_arith)
            requires
                0real <= va <= vb,
                vk >= 0real,
        ;
        f.law_nearest_monotone(va * vk, vb * vk);
        f.law_nearest_exact(0);
        f.lemma_value_zero();
        Self::lemma_product_code(a, k);
        Self::lemma_product_code(b, k);
        let i = a.times(k).number().code;
        let j = b.times(k).number().code;
        f.lemma_value_increasing(i as nat, j as nat);
        Self::lemma_number_of(Number { negative: false, code: i });
        Self::lemma_number_of(Number { negative: false, code: j });
    }

    /// The code of a product is nearest to the product of the magnitudes.
    proof fn lemma_product_code(a: Self, k: Self)
        requires
            a.is_finite(),
            k.is_finite(),
        ensures
            a.times(k).number().code == Self::format().nearest(
                Self::format().value(a.number().code as nat) * Self::format().value(
                    k.number().code as nat,
                ),
            ),
            a.times(k).number().code <= Self::format().infinity,
    {
        reveal(Single::times);
        let f = Self::format();
        Self::lemma_format();
        let va = f.value(a.number().code as nat);
        let vk = f.value(k.number().code as nat);
        let x = a.value() * k.value();
        f.lemma_zero_value(a.number());
        f.lemma_zero_value(k.number());
        assert(va * vk >= 0real) by (nonlinear_arith)
            requires
                va >= 0real,
                vk >= 0real,
        ;
        let av = a.value();
        let kv = k.value();
        assert(x == va * vk || x == -(va * vk)) by (nonlinear_arith)
            requires
                x == av * kv,
                av == va || av == -va,
                kv == vk || kv == -vk,
        ;
        f.law_nearest_exists(va * vk);
        let z = a.number().negative != k.number().negative;
        f.lemma_rounded_holds(z, x);
        Self::lemma_number_of(f.rounded(z, x));
        f.law_nearest_exact(0);
        f.lemma_value_zero();
    }

    /// A factor noticeably below one makes every normal number smaller.
    pub proof fn law_product_shrinks_strictly(a: Self, k: Self)
        requires
            a.is_finite(),
            a.number().code >= 0x80_0000,
            k.is_finite(),
            0real <= k.value(),
            k.value() + Format::exp2(-23) <= 1real,
        ensures
            a.times(k).number().code < a.number().code,
    {
        reveal(Single::times);
        let f = Self::format();
        Self::lemma_format();
        lemma2_to64();
        let code = a.number().code as nat;
        let below = (code - 1) as nat;
        let va = f.value(code);
        let kv = k.value();
        let x = a.value() * kv;
        let z = a.number().negative != k.number().negative;
        // The next smaller number is at most one unit in the last place away.
        let (q, sig) = f.lemma_split(code);
        f.lemma_value_split(q, sig);
        f.lemma_value_succ(below);
        let ulp = Format::exp2(q - 149);
        let step = Format::exp2(f.exponent(below) - 149);
        let (q1, sig1) = f.lemma_split(below);
        assert(q1 <= q) by {
            if q1 > q {
                let h = f.hidden as nat;
                assert(q1 * h >= (q + 1) * h) by (nonlinear_arith)
                    requires
                        q1 >= q + 1,
                ;
                assert((q + 1) * h == q * h + h) by (nonlinear_arith);
            }
        }
        Format::lemma_exp2_shift(q1 - 149, (q - q1) as nat);
        Format::lemma_exp2_pos(q1 - 149);
        Format::lemma_exp2_pos(q - 149);
        lemma_pow2_pos((q - q1) as nat);
        let p = pow2((q - q1) as nat) as real;
        assert(step <= ulp) by (nonlinear_arith)
            requires
                ulp == p * step,
                p >= 1real,
                step > 0real,
        ;
        Format::lemma_exp2_adds(-23, 23);
        let tiny = Format::exp2(-23);
        assert(tiny * 8388608real == 1real);
        assert(va * tiny >= ulp) by (nonlinear_arith)
            requires
                va == sig as real * ulp,
                sig as real >= 8388608real,
                tiny * 8388608real == 1real,
                tiny > 0real,
                ulp > 0real,
        ;
        f.lemma_zero_value(a.number());
        assert(va * kv <= va - ulp) by (nonlinear_arith)
            requires
                va * tiny >= ulp,
                kv + tiny <= 1real,
                va >= 0real,
        ;
        assert(va * kv >= 0real) by (nonlinear_arith)
            requires
                va >= 0real,
                kv >= 0real,
        ;
        assert((-va) * kv == -(va * kv)) by (nonlinear_arith);
        let y = if x < 0real { -x } else { x };
        assert(y == va * kv);
        f.law_nearest_bounded(y, below);
        f.lemma_rounded_holds(z, x);
        Self::lemma_number_of(f.rounded(z, x));
    }

    /// The square of a subnormal number is lost.
    pub proof fn law_subnormal_square_vanishes(a: Self)
        requires
            a.number().code < 0x80_0000,
        ensures
            a.times(a) == Self::zero(),
    {
        reveal(Single::times);
        let f = Self::format();
        Self::lemma_format();
        lemma2_to64();
        let code = a.number().code as nat;
        let va = f.value(code);
        let w = Format::exp2(-149);
        assert(va == code as real * w);
        Format::lemma_exp2_pos(-149);
        // code * 2^-149 is below 2^-126, and its square below half of 2^-149.
        Format::lemma_exp2_shift(-149, 23);
        let b = Format::exp2(-126);
        assert(va <= b) by (nonlinear_arith)
            requires
                va == code as real * w,
                b == 8388608real * w,
                code as real <= 8388608real,
                w > 0real,
        ;
        f.lemma_zero_value(a.number());
        Format::lemma_exp2_pos(-126);
        Format::lemma_exp2_adds(-126, -126);
        assert(va * va <= b * b) by (nonlinear_arith)
            requires
                0real <= va <= b,
        ;
        Format::lemma_exp2_shift(-252, 102);
        Format::lemma_exp2_step(-150);
        Format::lemma_exp2_pos(-252);
        lemma_pow2_pos(102);
        lemma_pow2_strictly_increases(1, 102);
        let big = pow2(102) as real;
        let least = Format::exp2(-252);
        let half = Format::exp2(-150);
        assert(least < half) by (nonlinear_arith)
            requires
                half == big * least,
                big > 1real,
                least > 0real,
        ;
        let x = a.value() * a.value();
        assert(x == va * va) by (nonlinear_arith)
            requires
                x == va * va || x == (-va) * (-va),
        ;
        assert(va * va >= 0real) by (nonlinear_arith);
        f.lemma_value_zero();
        f.lemma_value_split(0, 1);
        assert(f.value(1) == w) by {
            assert(1real * w == w) by (nonlinear_arith);
        }
        assert forall|j: nat| #![trigger f.value(j)]
            0 < j <= f.infinity implies f.above_midpoint(j, 0, x) by {
            f.lemma_value_increasing(1, j);
        }
        assert(f.is_nearest(x, 0));
        f.lemma_nearest_unique(x, 0);
    }

    /// A quotient is on the same side of one as its terms are of each other, and the
    /// subtraction of one shows it.
    pub proof fn law_ratio_against_one(d: Self, p: Self)
        requires
            !d.is_nan(),
            d.value() >= 0real,
            p.is_finite(),
            p.value() > 0real,
            p.number().code >= 0x80_0000,
        ensures
            ({
                let r = d.over(p).minus(Self::nearest(1real));
                &&& !r.is_nan()
                &&& d.value() > p.value() ==> r.value() > 0real
                &&& d.value() < p.value() ==> r.value() < 0real
                &&& d.value() == p.value() ==> r.value() == 0real
            }),
    {
        reveal(Single::over);
        reveal(Single::minus);
        let f = Self::format();
        Self::lemma_format();
        lemma2_to64();
        lemma2_to64_rest();
        let one = Self::nearest(1real);
        Self::law_integer_exact(1);
        let u = one.number().code as nat;
        let pc = p.number().code as nat;
        let dc = d.number().code as nat;
        let pv = p.value();
        let dv = d.value();
        f.lemma_zero_value(p.number());
        f.lemma_zero_value(d.number());
        f.lemma_zero_value(one.number());
        assert(!p.number().negative);
        let (q, sig) = f.lemma_split(pc);
        f.lemma_value_split(q, sig);
        let ulp = Format::exp2(q - 149);
        Format::lemma_exp2_pos(q - 149);
        // One itself is 2^23 units of 2^-23.
        let (uq, usig) = f.lemma_split(u);
        f.lemma_value_split(uq, usig);
        Self::lemma_one_code(u);
        f.lemma_value_succ(u);
        f.lemma_value_succ((u - 1) as nat);
        let n = d.over(p).number();
        if d.is_infinite() {
            f.lemma_value_increasing(pc, dc);
            f.lemma_value_increasing(u, dc);
            Self::lemma_number_of(f.signed_infinity(false));
            assert(n == f.signed_infinity(false));
            lemma_difference_sign(f, n, one.number());
        } else {
            let x = dv / pv;
            let z = d.number().negative != p.number().negative;
            assert(x >= 0real) by (nonlinear_arith)
                requires
                    x == dv / pv,
                    dv >= 0real,
                    pv > 0real,
            ;
            f.lemma_rounded_holds(z, x);
            Self::lemma_number_of(f.rounded(z, x));
            assert(n == f.rounded(z, x));
            f.law_nearest_exists(x);
            let k = f.nearest(x);
            let t = Format::exp2(-24);
            Format::lemma_exp2_pos(-24);
            Format::lemma_exp2_step(-24);
            Format::lemma_exp2_adds(-24, 24);
            assert(t * 16777216real == 1real);
            assert(x * pv == dv) by (nonlinear_arith)
                requires
                    x == dv / pv,
                    pv > 0real,
            ;
            assert(pv * t < ulp) by (nonlinear_arith)
                requires
                    pv == sig as real * ulp,
                    (sig as real) < 16777216real,
                    t * 16777216real == 1real,
                    ulp > 0real,
                    t > 0real,
            ;
            if dv > pv {
                if dc <= pc {
                    f.lemma_value_increasing(dc, pc);
                }
                f.lemma_value_succ(pc);
                f.lemma_value_increasing(pc + 1, dc);
                assert(x > 1real + t) by (nonlinear_arith)
                    requires
                        x * pv >= pv + ulp,
                        pv * t < ulp,
                        pv > 0real,
                ;
                if k <= u {
                    f.lemma_value_increasing(k, u);
                    assert(f.above_midpoint((u + 1) as nat, k, x));
                }
                f.lemma_value_increasing(u + 1, k);
                lemma_difference_sign(f, n, one.number());
            } else if dv < pv {
                if dc >= pc {
                    f.lemma_value_increasing(pc, dc);
                }
                let below = (pc - 1) as nat;
                f.lemma_value_succ(below);
                f.lemma_value_increasing(dc, below);
                let (q1, sig1) = f.lemma_split(below);
                assert(q1 + 1 >= q) by {
                    if q1 + 1 < q {
                        let h = f.hidden as nat;
                        assert(q * h >= (q1 + 2) * h) by (nonlinear_arith)
                            requires
                                q >= q1 + 2,
                        ;
                        assert((q1 + 2) * h == q1 * h + 2 * h) by (nonlinear_arith);
                    }
                }
                let step = Format::exp2(q1 - 149);
                Format::lemma_exp2_step(q1 - 149);
                Format::lemma_exp2_pos(q1 - 149);
                if q1 >= q {
                    Format::lemma_exp2_shift(q - 149, (q1 - q) as nat);
                    lemma_pow2_pos((q1 - q) as nat);
                    let m = pow2((q1 - q) as nat) as real;
                    assert(step >= ulp) by (nonlinear_arith)
                        requires
                            step == m * ulp,
                            m >= 1real,
                            ulp > 0real,
                    ;
                }
                assert(2real * step >= ulp);
                let t2 = Format::exp2(-25);
                Format::lemma_exp2_step(-25);
                assert(x < 1real - t2) by (nonlinear_arith)
                    requires
                        x * pv <= pv - step,
                        2real * step >= ulp,
                        pv * t < ulp,
                        t == 2real * t2,
                        pv > 0real,
                ;
                if k >= u {
                    f.lemma_value_increasing(u, k);
                    assert(f.below_midpoint((u - 1) as nat, k, x));
                }
                f.lemma_value_increasing(k, (u - 1) as nat);
                lemma_difference_sign(f, n, one.number());
            } else {
                assert(x == 1real) by (nonlinear_arith)
                    requires
                        x * pv == pv,
                        pv > 0real,
                ;
                f.law_nearest_exact(u);
                assert(n.code == u);
                assert(f.plus(n, f.opposite(one.number())).code == 0);
                f.lemma_value_zero();
            }
        }
        Self::lemma_number_of(f.plus(n, f.opposite(one.number())));
    }

    /// One is the code just below which the numbers are `2^-24` apart, and just above
    /// which they are `2^-23` apart.
    pub proof fn lemma_one_code(u: nat)
        requires
            u == Self::nearest(1real).number().code,
        ensures
            u > 0,
            u < Self::format().infinity,
            Self::format().value(u) == 1real,
            Self::format().value(u + 1) == 1real + Format::exp2(-23),
            Self::format().value((u - 1) as nat) == 1real - Format::exp2(-24),
    {
        reveal(Single::nearest);
        let f = Self::format();
        Self::lemma_format();
        Self::law_integer_exact(1);
        lemma2_to64();
        // 127 * 2^23: 2^23 units of 2^(126 - 149).
        f.lemma_value_split(126, 0x80_0000);
        Format::lemma_exp2_adds(-23, 23);
        let t = Format::exp2(-23);
        let e = Format::exp2(23);
        assert(8388608real * t == 1real) by (nonlinear_arith)
            requires
                t * e == 1real,
                e == 8388608real,
        ;
        let c: nat = 126 * 0x80_0000 + 0x80_0000;
        assert(f.value(c) == 1real);
        f.law_nearest_exact(c);
        assert(u == c);
        f.lemma_value_succ(c);
        f.lemma_value_succ((c - 1) as nat);
    }

    /// A product of two numbers that are not below zero is not below zero, and one of
    /// which one is not above zero is not above zero.
    pub proof fn law_product_sign(a: Self, b: Self)
        requires
            !a.times(b).is_nan(),
            b.value() >= 0real,
        ensures
            a.value() >= 0real ==> a.times(b).value() >= 0real,
            a.value() <= 0real ==> a.times(b).value() <= 0real,
    {
        reveal(Single::times);
        let f = Self::format();
        Self::lemma_format();
        let r = f.times(a.number(), b.number());
        f.lemma_zero_value(a.number());
        f.lemma_zero_value(b.number());
        f.lemma_zero_value(r);
        if f.is_nan(a.number()) || f.is_nan(b.number()) {
            Self::lemma_number_of(f.quiet_nan());
        } else if f.is_infinite(a.number()) || f.is_infinite(b.number()) {
            Self::lemma_number_of(f.quiet_nan());
            Self::lemma_number_of(f.signed_infinity(a.number().negative != b.number().negative));
        } else {
            let va = a.value();
            let vb = b.value();
            let x = va * vb;
            assert(va >= 0real ==> x >= 0real) by (nonlinear_arith)
                requires
                    x == va * vb,
                    vb >= 0real,
            ;
            assert(va <= 0real ==> x <= 0real) by (nonlinear_arith)
                requires
                    x == va * vb,
                    vb >= 0real,
            ;
            f.lemma_rounded_holds(a.number().negative != b.number().negative, x);
            Self::lemma_number_of(r);
        }
    }

    /// A quotient by a negative number has the opposite sign of what is divided.
    pub proof fn law_quotient_sign(a: Self, b: Self)
        requires
            !a.over(b).is_nan(),
            a.value() <= 0real,
            a.value() < 0real ==> a.number().negative,
            b.number().negative,
        ensures
            a.over(b).value() >= 0real,
    {
        reveal(Single::over);
        let f = Self::format();
        Self::lemma_format();
        let z = a.number().negative != b.number().negative;
        let r = f.over(a.number(), b.number());
        f.lemma_zero_value(a.number());
        f.lemma_zero_value(b.number());
        f.lemma_zero_value(r);
        if f.is_nan(a.number()) || f.is_nan(b.number()) {
            Self::lemma_number_of(f.quiet_nan());
        } else if f.is_infinite(a.number()) || f.is_infinite(b.number()) || b.number().code == 0 {
            Self::lemma_number_of(f.quiet_nan());
            Self::lemma_number_of(f.signed_infinity(z));
            Self::lemma_number_of(Number { negative: z, code: 0 });
        } else {
            let va = a.value();
            let vb = b.value();
            let x = va / vb;
            assert(x >= 0real) by (nonlinear_arith)
                requires
                    x == va / vb,
                    va <= 0real,
                    vb < 0real,
            ;
            f.lemma_rounded_holds(z, x);
            Self::lemma_number_of(r);
        }
    }

    /// Clamping between two numbers in order lands between them.
    pub proof fn law_within_bounds(v: Self, low: Self, high: Self)
        requires
            !v.is_nan(),
            !low.is_nan(),
            !high.is_nan(),
            low.value() <= high.value(),
        ensures
            !v.within(low, high).is_nan(),
            low.value() <= v.within(low, high).value() <= high.value(),
            low.value() <= v.value() <= high.value() ==> v.within(low, high) == v,
    {
        reveal(Single::less);
    }
}

} // verus!
