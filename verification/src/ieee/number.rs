//! Arithmetic on the data of a format: signs, infinities and NaNs included.

use vstd::prelude::*;
use vstd::arithmetic::power2::*;
use super::format::Format;
use super::round::{bit_length, power_of_two};

verus! {

/// A datum of some format: a sign and a code.
#[derive(Clone, Copy, Debug, PartialEq, Eq, Structural)]
pub struct Number {
    pub negative: bool,
    pub code: u64,
}

impl Format {
    /// A code this format has room for.
    pub open spec fn holds(self, a: Number) -> bool {
        a.code < self.infinity + self.hidden
    }

    pub open spec fn is_nan(self, a: Number) -> bool {
        a.code > self.infinity
    }

    pub open spec fn is_infinite(self, a: Number) -> bool {
        a.code == self.infinity
    }

    pub open spec fn is_finite(self, a: Number) -> bool {
        a.code < self.infinity
    }

    /// The number that `a` stands for.
    pub open spec fn real_value(self, a: Number) -> real {
        if a.negative {
            -self.value(a.code as nat)
        } else {
            self.value(a.code as nat)
        }
    }

    /// The one datum that stands for "not a number" in results.
    pub open spec fn quiet_nan(self) -> Number {
        Number { negative: false, code: (self.infinity + self.hidden / 2) as u64 }
    }

    pub open spec fn signed_infinity(self, negative: bool) -> Number {
        Number { negative, code: self.infinity }
    }

    /// `x` rounded to the format; `zero_sign` is the sign of an exact zero.
    pub open spec fn rounded(self, zero_sign: bool, x: real) -> Number {
        if x < 0real {
            Number { negative: true, code: self.nearest(-x) as u64 }
        } else if x > 0real {
            Number { negative: false, code: self.nearest(x) as u64 }
        } else {
            Number { negative: zero_sign, code: 0 }
        }
    }

    pub open spec fn opposite(self, a: Number) -> Number {
        Number { negative: !a.negative, code: a.code }
    }

    /// The sum, correctly rounded.
    pub open spec fn plus(self, a: Number, b: Number) -> Number {
        if self.is_nan(a) || self.is_nan(b) {
            self.quiet_nan()
        } else if self.is_infinite(a) {
            if self.is_infinite(b) && a.negative != b.negative {
                self.quiet_nan()
            } else {
                a
            }
        } else if self.is_infinite(b) {
            b
        } else {
            self.rounded(a.negative && b.negative, self.real_value(a) + self.real_value(b))
        }
    }

    /// The product, correctly rounded.
    pub open spec fn times(self, a: Number, b: Number) -> Number {
        let negative = a.negative != b.negative;
        if self.is_nan(a) || self.is_nan(b) {
            self.quiet_nan()
        } else if self.is_infinite(a) || self.is_infinite(b) {
            if a.code == 0 || b.code == 0 {
                self.quiet_nan()
            } else {
                self.signed_infinity(negative)
            }
        } else {
            self.rounded(negative, self.real_value(a) * self.real_value(b))
        }
    }

    /// The quotient, correctly rounded.
    pub open spec fn over(self, a: Number, b: Number) -> Number {
        let negative = a.negative != b.negative;
        if self.is_nan(a) || self.is_nan(b) {
            self.quiet_nan()
        } else if self.is_infinite(a) {
            if self.is_infinite(b) {
                self.quiet_nan()
            } else {
                self.signed_infinity(negative)
            }
        } else if self.is_infinite(b) {
            Number { negative, code: 0 }
        } else if b.code == 0 {
            if a.code == 0 {
                self.quiet_nan()
            } else {
                self.signed_infinity(negative)
            }
        } else {
            self.rounded(negative, self.real_value(a) / self.real_value(b))
        }
    }

    /// The square root, correctly rounded.
    pub open spec fn root(self, a: Number) -> Number {
        if self.is_nan(a) {
            self.quiet_nan()
        } else if a.code == 0 {
            a
        } else if a.negative {
            self.quiet_nan()
        } else if self.is_infinite(a) {
            a
        } else {
            Number { negative: false, code: self.nearest_root(self.real_value(a)) as u64 }
        }
    }

    /// Whether `a` is less than `b`; nothing is less than, or more than, a NaN.
    pub open spec fn less(self, a: Number, b: Number) -> bool {
        !self.is_nan(a) && !self.is_nan(b) && self.real_value(a) < self.real_value(b)
    }

    /// Whether `a` and `b` are the same number: the two zeros are, and a NaN is the same
    /// as nothing.
    pub open spec fn same(self, a: Number, b: Number) -> bool {
        !self.is_nan(a) && !self.is_nan(b) && self.real_value(a) == self.real_value(b)
    }

    /// `a`, a number of the format `from`, rounded to this one.
    pub open spec fn converted(self, from: Format, a: Number) -> Number {
        if from.is_nan(a) {
            self.quiet_nan()
        } else if from.is_infinite(a) {
            self.signed_infinity(a.negative)
        } else {
            self.rounded(a.negative, from.real_value(a))
        }
    }
}

impl Format {
    /// The order of codes is the order of numbers.
    pub proof fn lemma_code_order(self, a: Number, b: Number)
        requires
            self.wf(),
        ensures
            self.real_value(a) < self.real_value(b) <==> (if a.negative {
                -(a.code as int)
            } else {
                a.code as int
            }) < (if b.negative {
                -(b.code as int)
            } else {
                b.code as int
            }),
    {
        self.lemma_value_zero();
        self.lemma_value_increasing(0, a.code as nat);
        self.lemma_value_increasing(0, b.code as nat);
        if a.code <= b.code {
            self.lemma_value_increasing(a.code as nat, b.code as nat);
        } else {
            self.lemma_value_increasing(b.code as nat, a.code as nat);
        }
    }

    /// A finite number's significand and exponent.
    fn unpack(&self, code: u64) -> (r: (u64, i64))
        requires
            self.wf(),
            code < self.infinity,
        ensures
            r.0 == self.significand(code as nat),
            r.1 == self.exponent(code as nat),
            self.value(code as nat) == r.0 as real * Self::exp2(r.1 - self.unit),
            r.0 < 2 * self.hidden <= 0x20_0000_0000_0000,
            0 <= r.1 <= 4000,
            r.1 > 0 ==> r.0 >= self.hidden,
            r.0 == 0 <==> code == 0,
    {
        proof {
            lemma_pow2_pos((self.precision - 1) as nat);
            lemma_pow2_unfold(self.precision as nat);
            super::round::lemma_pow2_at_most_53(self.precision as nat);
            let (q, sig) = self.lemma_split(code as nat);
            self.lemma_value_split(q, sig);
        }
        if code < self.hidden {
            (code, 0)
        } else {
            proof {
                let h = self.hidden as int;
                let d = code as int / h;
                let top = self.infinity as int / h;
                vstd::arithmetic::div_mod::lemma_div_is_ordered(
                    code as int,
                    self.infinity as int,
                    h,
                );
                vstd::arithmetic::div_mod::lemma_div_non_zero(code as int, h);
            }
            (self.hidden + code % self.hidden, (code / self.hidden - 1) as i64)
        }
    }

    /// Rounds a cell and attaches a sign.
    fn finish(&self, negative: bool, m: u128, e: i64, inexact: bool, Ghost(x): Ghost<real>) -> (r:
        Number)
        requires
            self.wf(),
            0 < m < pow2(126),
            -10000 <= e <= 10000,
            inexact ==> m >= pow2((self.precision + 1) as nat),
            ({
                let w = Self::exp2(e - self.unit);
                let low = m as real * w;
                let y = if negative { -x } else { x };
                if inexact { low < y < low + w } else { y == low }
            }),
        ensures
            forall|z: bool| r == #[trigger] self.rounded(z, x),
            self.holds(r),
    {
        let code = self.round(m, e, inexact);
        proof {
            let w = Self::exp2(e - self.unit);
            let low = m as real * w;
            let y = if negative { -x } else { x };
            Self::lemma_exp2_pos(e - self.unit);
            assert(low > 0real) by (nonlinear_arith)
                requires
                    low == m as real * w,
                    m as real > 0real,
                    w > 0real,
            ;
            self.lemma_cell_nearest(low, w, inexact, code as nat, y);
        }
        Number { negative, code }
    }

    pub fn less_than(&self, a: Number, b: Number) -> (r: bool)
        requires
            self.wf(),
            self.holds(a),
            self.holds(b),
        ensures
            r == self.less(a, b),
    {
        if a.code > self.infinity || b.code > self.infinity {
            return false;
        }
        proof {
            self.lemma_code_order(a, b);
        }
        let x: i64 = if a.negative { -(a.code as i64) } else { a.code as i64 };
        let y: i64 = if b.negative { -(b.code as i64) } else { b.code as i64 };
        x < y
    }

    pub fn equal(&self, a: Number, b: Number) -> (r: bool)
        requires
            self.wf(),
            self.holds(a),
            self.holds(b),
        ensures
            r == self.same(a, b),
    {
        if a.code > self.infinity || b.code > self.infinity {
            return false;
        }
        proof {
            self.lemma_code_order(a, b);
            self.lemma_code_order(b, a);
        }
        let x: i64 = if a.negative { -(a.code as i64) } else { a.code as i64 };
        let y: i64 = if b.negative { -(b.code as i64) } else { b.code as i64 };
        x == y
    }

    pub fn nan(&self) -> (r: Number)
        requires
            self.wf(),
        ensures
            r == self.quiet_nan(),
            self.holds(r),
    {
        Number { negative: false, code: self.infinity + self.hidden / 2 }
    }

    pub fn add(&self, a: Number, b: Number) -> (r: Number)
        requires
            self.wf(),
            self.holds(a),
            self.holds(b),
        ensures
            r == self.plus(a, b),
            self.holds(r),
    {
        if a.code > self.infinity || b.code > self.infinity {
            return self.nan();
        }
        if a.code == self.infinity {
            if b.code == self.infinity && a.negative != b.negative {
                return self.nan();
            }
            return a;
        }
        if b.code == self.infinity {
            return b;
        }
        let (ma, ea) = self.unpack(a.code);
        let (mb, eb) = self.unpack(b.code);
        proof {
            self.lemma_value_zero();
        }
        if ma == 0 && mb == 0 {
            return Number { negative: a.negative && b.negative, code: 0 };
        }
        if ea >= eb {
            self.add_aligned(a.negative, ma, ea, b.negative, mb, eb)
        } else {
            self.add_aligned(b.negative, mb, eb, a.negative, ma, ea)
        }
    }

    /// The sum of two finite numbers, not both zero, the first of which has the
    /// larger exponent.
    fn add_aligned(&self, na: bool, ma: u64, ea: i64, nb: bool, mb: u64, eb: i64) -> (r: Number)
        requires
            self.wf(),
            ma < 2 * self.hidden <= 0x20_0000_0000_0000,
            mb < 2 * self.hidden,
            0 <= eb <= ea <= 4000,
            ea > 0 ==> ma >= self.hidden,
            ma > 0 || mb > 0,
        ensures
            ({
                let x = ma as real * Self::exp2(ea - self.unit);
                let y = mb as real * Self::exp2(eb - self.unit);
                let sum = (if na { -x } else { x }) + (if nb { -y } else { y });
                r == self.rounded(na && nb, sum)
            }),
            self.holds(r),
    {
        let d: i64 = ea - eb;
        let ghost x = ma as real * Self::exp2(ea - self.unit);
        let ghost y = mb as real * Self::exp2(eb - self.unit);
        let ghost sum = (if na { -x } else { x }) + (if nb { -y } else { y });
        proof {
            lemma2_to64();
            lemma2_to64_rest();
            lemma_pow2_adds(53, 64);
            lemma_pow2_strictly_increases(117, 118);
            lemma_pow2_unfold(118);
            lemma_pow2_strictly_increases(118, 126);
        }
        if d <= 64 {
            let scale = power_of_two(d as u32);
            proof {
                if d < 64 {
                    lemma_pow2_strictly_increases(d as nat, 64);
                }
                let p64 = pow2(64);
                assert(ma as nat * scale as nat <= 0x20_0000_0000_0000 * p64) by (nonlinear_arith)
                    requires
                        ma <= 0x20_0000_0000_0000,
                        scale <= p64,
                ;
                assert(ma as nat * scale as nat > 0 <==> ma > 0) by (nonlinear_arith)
                    requires
                        scale > 0,
                ;
            }
            let ta: u128 = ma as u128 * scale;
            let tb: u128 = mb as u128;
            proof {
                let w = Self::exp2(eb - self.unit);
                Self::lemma_exp2_shift(eb - self.unit, d as nat);
                assert(eb - self.unit + d == ea - self.unit);
                Self::lemma_real_product(ma as nat, scale as nat);
                assert(x == ta as real * w) by (nonlinear_arith)
                    requires
                        x == ma as real * (scale as real * w),
                        ta as real == ma as real * scale as real,
                ;
                assert((ta + tb) as real * w == ta as real * w + tb as real * w)
                    by (nonlinear_arith);
                assert((ta as real - tb as real) * w == ta as real * w - tb as real * w)
                    by (nonlinear_arith);
                assert((tb as real - ta as real) * w == tb as real * w - ta as real * w)
                    by (nonlinear_arith);
            }
            if na == nb {
                self.finish(na, ta + tb, eb, false, Ghost(sum))
            } else if ta > tb {
                self.finish(na, ta - tb, eb, false, Ghost(sum))
            } else if ta < tb {
                self.finish(nb, tb - ta, eb, false, Ghost(sum))
            } else {
                Number { negative: false, code: 0 }
            }
        } else {
            // The first number in cells of 2^-12 of its last place, each of which is
            // wider than the second number.
            let ta: u128 = ma as u128 * 4096;
            let ghost w = Self::exp2(ea - 12 - self.unit);
            proof {
                Self::lemma_exp2_shift(ea - 12 - self.unit, 12);
                assert(x == ta as real * w) by (nonlinear_arith)
                    requires
                        x == ma as real * (4096real * w),
                        ta as real == ma as real * 4096real,
                ;
                let n = (d - 12) as nat;
                let we = Self::exp2(eb - self.unit);
                Self::lemma_exp2_shift(eb - self.unit, n);
                Self::lemma_exp2_pos(eb - self.unit);
                assert(eb - self.unit + n == ea - 12 - self.unit);
                if n > 53 {
                    lemma_pow2_strictly_increases(53, n);
                }
                let pn = pow2(n) as real;
                assert(y < w) by (nonlinear_arith)
                    requires
                        y == mb as real * we,
                        w == pn * we,
                        (mb as real) < pn,
                        we > 0real,
                ;
                if mb > 0 {
                    assert(y > 0real) by (nonlinear_arith)
                        requires
                            y == mb as real * we,
                            mb as real > 0real,
                            we > 0real,
                    ;
                } else {
                    assert(0real * we == 0real) by (nonlinear_arith);
                }
                assert((ta - 1) as real * w == ta as real * w - w) by (nonlinear_arith)
                    requires
                        (ta - 1) as real == ta as real - 1real,
                ;
                lemma_pow2_unfold(self.precision as nat);
                lemma_pow2_unfold((self.precision + 1) as nat);
            }
            if mb == 0 {
                self.finish(na, ta, ea - 12, false, Ghost(sum))
            } else if na == nb {
                self.finish(na, ta, ea - 12, true, Ghost(sum))
            } else {
                self.finish(na, ta - 1, ea - 12, true, Ghost(sum))
            }
        }
    }
}

impl Format {
    pub fn mul(&self, a: Number, b: Number) -> (r: Number)
        requires
            self.wf(),
            self.holds(a),
            self.holds(b),
        ensures
            r == self.times(a, b),
            self.holds(r),
    {
        let negative = a.negative != b.negative;
        if a.code > self.infinity || b.code > self.infinity {
            return self.nan();
        }
        if a.code == self.infinity || b.code == self.infinity {
            if a.code == 0 || b.code == 0 {
                return self.nan();
            }
            return Number { negative, code: self.infinity };
        }
        let (ma, ea) = self.unpack(a.code);
        let (mb, eb) = self.unpack(b.code);
        let ghost va = self.value(a.code as nat);
        let ghost vb = self.value(b.code as nat);
        let ghost x = self.real_value(a) * self.real_value(b);
        proof {
            self.lemma_value_zero();
            assert(x == if negative { -(va * vb) } else { va * vb }) by (nonlinear_arith)
                requires
                    x == (if a.negative { -va } else { va }) * (if b.negative { -vb } else { vb }),
                    negative == (a.negative != b.negative),
            ;
        }
        if ma == 0 || mb == 0 {
            proof {
                assert(va * vb == 0real) by (nonlinear_arith)
                    requires
                        va == 0real || vb == 0real,
                ;
            }
            return Number { negative, code: 0 };
        }
        proof {
            lemma2_to64();
            lemma2_to64_rest();
            lemma_pow2_adds(53, 53);
            lemma_pow2_strictly_increases(106, 126);
            assert(0 < ma as nat * mb as nat <= 0x20_0000_0000_0000 * 0x20_0000_0000_0000)
                by (nonlinear_arith)
                requires
                    0 < ma <= 0x20_0000_0000_0000,
                    0 < mb <= 0x20_0000_0000_0000,
            ;
        }
        let m: u128 = ma as u128 * mb as u128;
        let e: i64 = ea + eb - self.unit as i64;
        proof {
            let wa = Self::exp2(ea - self.unit);
            let wb = Self::exp2(eb - self.unit);
            Self::lemma_exp2_adds(ea - self.unit, eb - self.unit);
            assert(ea - self.unit + (eb - self.unit) == e - self.unit);
            Self::lemma_real_product(ma as nat, mb as nat);
            assert(va * vb == m as real * (wa * wb)) by (nonlinear_arith)
                requires
                    va == ma as real * wa,
                    vb == mb as real * wb,
                    m as real == ma as real * mb as real,
            ;
        }
        self.finish(negative, m, e, false, Ghost(x))
    }

    /// `m * 2^t` with as many binary digits as asked for.
    fn normalize(m: u64, digits: u32) -> (r: (u128, u32))
        requires
            0 < m < 0x20_0000_0000_0000,
            53 <= digits <= 112,
        ensures
            r.0 == m * pow2(r.1 as nat),
            pow2((digits - 1) as nat) <= r.0 < pow2(digits as nat),
            r.1 < digits,
    {
        let bits = bit_length(m as u128);
        proof {
            lemma2_to64();
            lemma2_to64_rest();
            if bits > 53 {
                if bits > 54 {
                    lemma_pow2_strictly_increases(53, (bits - 1) as nat);
                }
            }
        }
        let t: u32 = digits - bits;
        let scale = power_of_two(t);
        proof {
            lemma_pow2_adds(bits as nat, t as nat);
            lemma_pow2_adds((bits - 1) as nat, t as nat);
            lemma_pow2_adds(64, 48);
            if digits < 112 {
                lemma_pow2_strictly_increases(digits as nat, 112);
            }
            let hi = pow2(bits as nat);
            let lo = pow2((bits - 1) as nat);
            assert((m as nat * scale as nat) < hi * scale) by (nonlinear_arith)
                requires
                    m < hi,
                    scale > 0,
            ;
            assert(m as nat * scale as nat >= lo * scale) by (nonlinear_arith)
                requires
                    m >= lo,
            ;
        }
        (m as u128 * scale, t)
    }

    pub fn div(&self, a: Number, b: Number) -> (r: Number)
        requires
            self.wf(),
            self.holds(a),
            self.holds(b),
        ensures
            r == self.over(a, b),
            self.holds(r),
    {
        let negative = a.negative != b.negative;
        if a.code > self.infinity || b.code > self.infinity {
            return self.nan();
        }
        if a.code == self.infinity {
            if b.code == self.infinity {
                return self.nan();
            }
            return Number { negative, code: self.infinity };
        }
        if b.code == self.infinity {
            return Number { negative, code: 0 };
        }
        if b.code == 0 {
            if a.code == 0 {
                return self.nan();
            }
            return Number { negative, code: self.infinity };
        }
        let (ma, ea) = self.unpack(a.code);
        let (mb, eb) = self.unpack(b.code);
        let ghost va = self.value(a.code as nat);
        let ghost vb = self.value(b.code as nat);
        let ghost x = self.real_value(a) / self.real_value(b);
        proof {
            self.lemma_value_zero();
            self.lemma_value_increasing(0, b.code as nat);
            assert(x == if negative { -(va / vb) } else { va / vb }) by (nonlinear_arith)
                requires
                    vb > 0real,
                    x == (if a.negative { -va } else { va }) / (if b.negative { -vb } else { vb }),
                    negative == (a.negative != b.negative),
            ;
        }
        if ma == 0 {
            proof {
                assert(va / vb == 0real) by (nonlinear_arith)
                    requires
                        va == 0real,
                        vb > 0real,
                ;
            }
            return Number { negative, code: 0 };
        }
        let (top, t) = Self::normalize(ma, 112);
        let m: u128 = top / mb as u128;
        let rem: u128 = top % mb as u128;
        let e: i64 = ea - eb + self.unit as i64 - t as i64;
        proof {
            let w = Self::exp2(e - self.unit);
            let wa = Self::exp2(ea - self.unit);
            let wb = Self::exp2(eb - self.unit);
            vstd::arithmetic::div_mod::lemma_fundamental_div_mod(top as int, mb as int);
            Self::lemma_exp2_shift(ea - self.unit - t, t as nat);
            Self::lemma_exp2_adds(e - self.unit, eb - self.unit);
            assert(e - self.unit + (eb - self.unit) == ea - self.unit - t);
            Self::lemma_exp2_pos(e - self.unit);
            Self::lemma_exp2_pos(eb - self.unit);
            Self::lemma_real_product(mb as nat, m as nat);
            Self::lemma_real_product(ma as nat, pow2(t as nat));
            let wt = Self::exp2(ea - self.unit - t);
            let pt = pow2(t as nat) as real;
            assert(va == top as real * (w * wb)) by (nonlinear_arith)
                requires
                    va == ma as real * (pt * wt),
                    top as real == ma as real * pt,
                    wt == w * wb,
            ;
            let y = va / vb;
            let mr = m as real;
            let br = mb as real;
            let rr = rem as real;
            assert(y * br == top as real * w) by (nonlinear_arith)
                requires
                    y == va / vb,
                    vb == br * wb,
                    vb > 0real,
                    br > 0real,
                    wb > 0real,
                    va == top as real * (w * wb),
            ;
            assert(top as real == br * mr + rr);
            let low = mr * w;
            assert(y * br == low * br + rr * w) by (nonlinear_arith)
                requires
                    y * br == (br * mr + rr) * w,
                    low == mr * w,
            ;
            if rem == 0 {
                assert(y == low) by (nonlinear_arith)
                    requires
                        y * br == low * br + rr * w,
                        rr == 0real,
                        br > 0real,
                ;
            } else {
                assert(low < y) by (nonlinear_arith)
                    requires
                        y * br == low * br + rr * w,
                        rr > 0real,
                        w > 0real,
                        br > 0real,
                ;
                assert(y < low + w) by (nonlinear_arith)
                    requires
                        y * br == low * br + rr * w,
                        rr < br,
                        w > 0real,
                        br > 0real,
                ;
            }
            // The quotient has at least 58 binary digits, the format at most 53.
            lemma2_to64();
            lemma2_to64_rest();
            lemma_pow2_adds(53, 58);
            lemma_pow2_strictly_increases(112, 126);
            if self.precision < 53 {
                lemma_pow2_strictly_increases((self.precision + 1) as nat, 58);
            } else {
                lemma_pow2_strictly_increases(54, 58);
            }
            let p58 = pow2(58);
            assert(m >= p58) by (nonlinear_arith)
                requires
                    top == mb * m + rem,
                    rem < mb,
                    mb <= 0x20_0000_0000_0000,
                    top >= 0x20_0000_0000_0000 * p58,
            ;
            assert(m <= top) by (nonlinear_arith)
                requires
                    top == mb * m + rem,
                    rem >= 0,
                    mb >= 1,
            ;
        }
        self.finish(negative, m, e, rem != 0, Ghost(x))
    }

    /// The integer square root.
    fn integer_root(n: u128) -> (r: u128)
        requires
            n < pow2(112),
        ensures
            r * r <= n < (r + 1) * (r + 1),
            r < 0x100_0000_0000_0000,
    {
        let mut lo: u128 = 0;
        let mut hi: u128 = 0x100_0000_0000_0000;
        proof {
            lemma2_to64();
            lemma2_to64_rest();
            lemma_pow2_adds(56, 56);
        }
        while lo + 1 < hi
            invariant
                lo < hi <= 0x100_0000_0000_0000,
                lo * lo <= n < hi * hi,
            decreases hi - lo,
        {
            let mid: u128 = lo + (hi - lo) / 2;
            assert(mid * mid <= 0x100_0000_0000_0000 * 0x100_0000_0000_0000) by (nonlinear_arith)
                requires
                    mid <= 0x100_0000_0000_0000,
            ;
            if mid * mid <= n {
                lo = mid;
            } else {
                hi = mid;
            }
        }
        lo
    }

    pub fn sqrt(&self, a: Number) -> (r: Number)
        requires
            self.wf(),
            self.holds(a),
        ensures
            r == self.root(a),
            self.holds(r),
    {
        if a.code > self.infinity {
            return self.nan();
        }
        if a.code == 0 {
            return a;
        }
        if a.negative {
            return self.nan();
        }
        if a.code == self.infinity {
            return a;
        }
        let (ma, ea) = self.unpack(a.code);
        let (n0, t0) = Self::normalize(ma, 111);
        proof {
            lemma2_to64();
            lemma2_to64_rest();
            lemma_pow2_unfold(112);
            lemma_pow2_unfold(111);
            lemma_pow2_adds(55, 55);
            lemma_pow2_strictly_increases(56, 126);
            lemma_pow2_adds(64, 48);
        }
        // The exponent left over must be even to be halved.
        let odd = (ea - self.unit as i64 - t0 as i64 + 10000) % 2 != 0;
        let n: u128 = if odd { n0 * 2 } else { n0 };
        let t: i64 = if odd { t0 as i64 + 1 } else { t0 as i64 };
        let half: i64 = (ea - self.unit as i64 - t + 10000) / 2 - 5000;
        let m = Self::integer_root(n);
        let e: i64 = half + self.unit as i64;
        let exact = m * m == n;
        proof {
            assert(2 * half == ea - self.unit - t);
            // At least 56 binary digits, against 53 of the format.
            let p55 = pow2(55);
            assert(m >= p55) by (nonlinear_arith)
                requires
                    n >= p55 * p55,
                    n < (m + 1) * (m + 1),
            ;
            if self.precision < 53 {
                lemma_pow2_strictly_increases((self.precision + 1) as nat, 55);
            } else {
                lemma_pow2_strictly_increases(54, 55);
            }
        }
        let code = self.round(m, e, !exact);
        proof {
            let w = Self::exp2(half as int);
            let low = m as real * w;
            let v = self.value(a.code as nat);
            Self::lemma_exp2_pos(half as int);
            Self::lemma_exp2_adds(half as int, half as int);
            Self::lemma_exp2_shift(half + half, t as nat);
            assert(half + half + t == ea - self.unit);
            if odd {
                lemma_pow2_unfold(t as nat);
                assert(ma as nat * (2 * pow2(t0 as nat)) == 2 * (ma as nat * pow2(t0 as nat)))
                    by (nonlinear_arith);
            }
            assert(n as nat == ma as nat * pow2(t as nat));
            Self::lemma_real_product(ma as nat, pow2(t as nat));
            Self::lemma_real_product(m as nat, m as nat);
            Self::lemma_real_product((m + 1) as nat, (m + 1) as nat);
            let pt = pow2(t as nat) as real;
            let nr = n as real;
            assert(v == nr * (w * w)) by (nonlinear_arith)
                requires
                    v == ma as real * (pt * (w * w)),
                    nr == ma as real * pt,
            ;
            let mr = m as real;
            assert(low * low == (mr * mr) * (w * w)) by (nonlinear_arith)
                requires
                    low == mr * w,
            ;
            let mr1 = (m + 1) as real;
            assert((low + w) * (low + w) == (mr1 * mr1) * (w * w)) by (nonlinear_arith)
                requires
                    low == mr * w,
                    mr1 == mr + 1real,
            ;
            assert(w * w > 0real) by (nonlinear_arith)
                requires
                    w > 0real,
            ;
            let ww = w * w;
            assert(low >= 0real) by (nonlinear_arith)
                requires
                    low == mr * w,
                    mr >= 0real,
                    w > 0real,
            ;
            assert(nr * ww < (mr1 * mr1) * ww) by (nonlinear_arith)
                requires
                    nr < mr1 * mr1,
                    ww > 0real,
            ;
            if !exact {
                assert((mr * mr) * ww < nr * ww) by (nonlinear_arith)
                    requires
                        mr * mr < nr,
                        ww > 0real,
                ;
            }
            self.lemma_cell_nearest_root(low, w, !exact, code as nat, v);
        }
        Number { negative: false, code }
    }

    /// `a` carried over from another format.
    pub fn convert(&self, from: &Format, a: Number) -> (r: Number)
        requires
            self.wf(),
            from.wf(),
            from.holds(a),
        ensures
            r == self.converted(*from, a),
            self.holds(r),
    {
        if a.code > from.infinity {
            return self.nan();
        }
        if a.code == from.infinity {
            return Number { negative: a.negative, code: self.infinity };
        }
        let (m, e) = from.unpack(a.code);
        proof {
            from.lemma_value_zero();
            lemma2_to64();
            lemma2_to64_rest();
            lemma_pow2_strictly_increases(53, 126);
        }
        if m == 0 {
            return Number { negative: a.negative, code: 0 };
        }
        let ghost x = from.real_value(a);
        self.finish(
            a.negative,
            m as u128,
            e - from.unit as i64 + self.unit as i64,
            false,
            Ghost(x),
        )
    }

    /// An integer, rounded.
    pub fn from_integer(&self, n: u64) -> (r: Number)
        requires
            self.wf(),
        ensures
            r == self.rounded(false, n as real),
            self.holds(r),
    {
        if n == 0 {
            return Number { negative: false, code: 0 };
        }
        proof {
            lemma2_to64();
            lemma2_to64_rest();
            lemma_pow2_strictly_increases(64, 126);
            assert(n as real * 1real == n as real) by (nonlinear_arith);
        }
        self.finish(false, n as u128, self.unit as i64, false, Ghost(n as real))
    }
}

} // verus!
