//! The numbers of a format, and which of them is nearest to a real.

use vstd::prelude::*;
use vstd::arithmetic::power2::*;

verus! {

/// A binary interchange format: how many significant bits it carries, the code
/// of its positive infinity, and the exponent of its smallest positive number.
///
/// Sign aside, the numbers of a format are the codes `0 ..= infinity`, in
/// increasing order of value; the codes above `infinity` are not numbers.
#[derive(Clone, Copy)]
pub struct Format {
    /// Significant bits of a normal number, the hidden bit among them.
    pub precision: u32,
    /// `2^(precision - 1)`, the hidden bit.
    pub hidden: u64,
    /// The code of positive infinity.
    pub infinity: u64,
    /// The smallest positive number is `2^(-unit)`.
    pub unit: u32,
}

impl Format {
    /// The power `2^i`, for exponents of either sign.
    pub open spec fn exp2(i: int) -> real {
        if i >= 0 {
            pow2(i as nat) as real
        } else {
            1real / pow2((-i) as nat) as real
        }
    }

    /// What every format meets.
    pub open spec fn wf(self) -> bool {
        &&& 2 <= self.precision <= 53
        &&& self.hidden == pow2((self.precision - 1) as nat)
        &&& 0 < 2 * self.hidden <= self.infinity
        &&& self.infinity + self.hidden <= 0x8000_0000_0000_0000
        &&& self.unit <= 2000
        &&& self.infinity / self.hidden <= 4000
    }

    /// The integer significand of a code: subnormal codes carry no hidden bit.
    pub open spec fn significand(self, code: nat) -> nat {
        if code < self.hidden {
            code
        } else {
            (self.hidden + code % (self.hidden as nat)) as nat
        }
    }

    /// The exponent of a code, counted from the smallest positive number.
    pub open spec fn exponent(self, code: nat) -> nat {
        if code < self.hidden {
            0
        } else {
            (code / (self.hidden as nat) - 1) as nat
        }
    }

    /// The number a code stands for. Infinity counts as the first power of two
    /// past the largest finite number, which is where rounding reaches it.
    pub open spec fn value(self, code: nat) -> real {
        self.significand(code) as real * Self::exp2(self.exponent(code) - self.unit)
    }

    /// `code` is the number nearest to `x`: no other number lies on `x`'s side of
    /// the midpoint between the two, and a tie goes to the even code.
    pub open spec fn is_nearest(self, x: real, code: nat) -> bool {
        &&& code <= self.infinity
        &&& forall|j: nat| #![trigger self.value(j)]
            j < code ==> self.below_midpoint(j, code, x)
        &&& forall|j: nat| #![trigger self.value(j)]
            code < j <= self.infinity ==> self.above_midpoint(j, code, x)
    }

    /// `x` is not nearer to the smaller number `j` than to `code`.
    pub open spec fn below_midpoint(self, j: nat, code: nat, x: real) -> bool {
        let sum = self.value(j) + self.value(code);
        sum < 2real * x || (sum == 2real * x && code % 2 == 0)
    }

    /// `x` is not nearer to the larger number `j` than to `code`.
    pub open spec fn above_midpoint(self, j: nat, code: nat, x: real) -> bool {
        let sum = self.value(j) + self.value(code);
        2real * x < sum || (sum == 2real * x && code % 2 == 0)
    }

    /// The code that `x` rounds to.
    pub open spec fn nearest(self, x: real) -> nat {
        choose|code: nat| self.is_nearest(x, code)
    }

    /// `code` is the number nearest to the square root of `v`: `is_nearest` with
    /// both sides squared.
    pub open spec fn is_nearest_root(self, v: real, code: nat) -> bool {
        &&& code <= self.infinity
        &&& forall|j: nat| #![trigger self.value(j)]
            j < code ==> {
                let sum = self.value(j) + self.value(code);
                sum * sum < 4real * v || (sum * sum == 4real * v && code % 2 == 0)
            }
        &&& forall|j: nat| #![trigger self.value(j)]
            code < j <= self.infinity ==> {
                let sum = self.value(j) + self.value(code);
                4real * v < sum * sum || (sum * sum == 4real * v && code % 2 == 0)
            }
    }

    /// The code that the square root of `v` rounds to.
    pub open spec fn nearest_root(self, v: real) -> nat {
        choose|code: nat| self.is_nearest_root(v, code)
    }
}

impl Format {
    /// A product of integers is their product as reals.
    pub proof fn lemma_real_product(a: nat, b: nat)
        ensures
            (a * b) as real == a as real * b as real,
        decreases b,
    {
        if b > 0 {
            let c = (b - 1) as nat;
            Self::lemma_real_product(a, c);
            assert(a * b == a * c + a) by (nonlinear_arith)
                requires
                    c == b - 1,
            ;
            assert(a as real * b as real == a as real * c as real + a as real) by (nonlinear_arith)
                requires
                    c as real == b as real - 1real,
            ;
        } else {
            assert(a * b == 0) by (nonlinear_arith)
                requires
                    b == 0,
            ;
            assert(a as real * 0real == 0real) by (nonlinear_arith);
        }
    }

    pub proof fn lemma_exp2_pos(i: int)
        ensures
            Self::exp2(i) > 0real,
    {
        if i >= 0 {
            lemma_pow2_pos(i as nat);
        } else {
            lemma_pow2_pos((-i) as nat);
            let d = pow2((-i) as nat) as real;
            assert(1real / d > 0real) by (nonlinear_arith)
                requires
                    d > 0real,
            ;
        }
    }

    pub proof fn lemma_exp2_step(i: int)
        ensures
            Self::exp2(i + 1) == 2real * Self::exp2(i),
    {
        if i >= 0 {
            lemma_pow2_unfold((i + 1) as nat);
        } else {
            lemma_pow2_unfold((-i) as nat);
            lemma_pow2_pos((-i) as nat);
            lemma_pow2_pos((-i - 1) as nat);
            lemma2_to64();
            let d = pow2((-i) as nat) as real;
            let h = pow2((-i - 1) as nat) as real;
            assert(d == 2real * h);
            assert(1real / h == 2real * (1real / d)) by (nonlinear_arith)
                requires
                    d == 2real * h,
                    h > 0real,
            ;
            if i == -1 {
                assert(h == 1real);
                assert(1real / h == 1real) by (nonlinear_arith)
                    requires
                        h == 1real,
                ;
            }
        }
    }

    /// Shifting an exponent up by `n` multiplies by `2^n`.
    pub proof fn lemma_exp2_shift(i: int, n: nat)
        ensures
            Self::exp2(i + n) == pow2(n) as real * Self::exp2(i),
        decreases n,
    {
        lemma2_to64();
        if n > 0 {
            Self::lemma_exp2_shift(i, (n - 1) as nat);
            Self::lemma_exp2_step(i + n - 1);
            lemma_pow2_unfold(n);
            let a = pow2((n - 1) as nat) as real;
            let b = pow2(n) as real;
            let e = Self::exp2(i);
            assert(b == 2real * a);
            assert(2real * (a * e) == b * e) by (nonlinear_arith)
                requires
                    b == 2real * a,
            ;
        } else {
            let e = Self::exp2(i);
            assert(1real * e == e) by (nonlinear_arith);
        }
    }

    /// Exponents add.
    pub proof fn lemma_exp2_adds(i: int, j: int)
        ensures
            Self::exp2(i + j) == Self::exp2(i) * Self::exp2(j),
    {
        if j >= 0 {
            Self::lemma_exp2_shift(i, j as nat);
            let a = Self::exp2(i);
            let b = Self::exp2(j);
            assert(a * b == b * a) by (nonlinear_arith);
        } else {
            let n = (-j) as nat;
            Self::lemma_exp2_shift(i + j, n);
            assert(i + j + n == i);
            lemma_pow2_pos(n);
            let d = pow2(n) as real;
            let a = Self::exp2(i + j);
            assert((d * a) * (1real / d) == a) by (nonlinear_arith)
                requires
                    d > 0real,
            ;
        }
    }

    /// A code written as `q` hidden bits and a rest of at most twice the hidden
    /// bit stands for that rest times `2^(q - unit)`.
    pub proof fn lemma_value_split(self, q: nat, sig: nat)
        requires
            self.wf(),
            sig <= 2 * self.hidden,
            q == 0 || sig >= self.hidden,
        ensures
            self.value(q * (self.hidden as nat) + sig) == sig as real * Self::exp2(q - self.unit),
    {
        let h = self.hidden as nat;
        let code = q * h + sig;
        lemma_pow2_pos((self.precision - 1) as nat);
        if sig < h {
            assert(q == 0);
            assert(code == sig) by (nonlinear_arith)
                requires
                    q == 0,
                    code == q * h + sig,
            ;
        } else if sig < 2 * h {
            let r = (sig - h) as nat;
            assert(code == (q + 1) * h + r) by (nonlinear_arith)
                requires
                    code == q * h + sig,
                    r == sig - h,
            ;
            vstd::arithmetic::div_mod::lemma_fundamental_div_mod_converse(
                code as int,
                h as int,
                (q + 1) as int,
                r as int,
            );
            assert(code >= h) by (nonlinear_arith)
                requires
                    code == (q + 1) * h + r,
            ;
        } else {
            assert(code == (q + 2) * h) by (nonlinear_arith)
                requires
                    code == q * h + sig,
                    sig == 2 * h,
            ;
            vstd::arithmetic::div_mod::lemma_fundamental_div_mod_converse(
                code as int,
                h as int,
                (q + 2) as int,
                0,
            );
            assert(code >= h) by (nonlinear_arith)
                requires
                    code == (q + 2) * h,
            ;
            Self::lemma_exp2_step(q - self.unit);
            let e = Self::exp2(q - self.unit);
            assert(h as real * (2real * e) == sig as real * e) by (nonlinear_arith)
                requires
                    sig as real == 2real * h as real,
            ;
        }
    }

    /// Every code splits that way, with room for the next one.
    pub proof fn lemma_split(self, code: nat) -> (r: (nat, nat))
        requires
            self.wf(),
        ensures
            code == r.0 * (self.hidden as nat) + r.1,
            r.1 < 2 * self.hidden,
            r.0 == 0 || r.1 >= self.hidden,
            r.1 == self.significand(code),
            r.0 == self.exponent(code),
    {
        let h = self.hidden as nat;
        lemma_pow2_pos((self.precision - 1) as nat);
        if code < h {
            assert(code == 0 * h + code) by (nonlinear_arith);
            (0, code)
        } else {
            vstd::arithmetic::div_mod::lemma_fundamental_div_mod(code as int, h as int);
            let d = code / h;
            let m = code % h;
            assert(d >= 1) by (nonlinear_arith)
                requires
                    code == h * d + m,
                    m < h,
                    code >= h,
            ;
            let q = (d - 1) as nat;
            let sig = (h + m) as nat;
            assert(code == q * h + sig) by (nonlinear_arith)
                requires
                    code == h * d + m,
                    q == d - 1,
                    sig == h + m,
            ;
            (q, sig)
        }
    }

    /// Consecutive codes differ by one unit of the smaller one's last place.
    pub proof fn lemma_value_succ(self, code: nat)
        requires
            self.wf(),
        ensures
            self.value(code + 1) == self.value(code) + Self::exp2(self.exponent(code) - self.unit),
            self.value(code) < self.value(code + 1),
    {
        let (q, sig) = self.lemma_split(code);
        self.lemma_value_split(q, sig);
        self.lemma_value_split(q, sig + 1);
        assert(q * (self.hidden as nat) + (sig + 1) == code + 1);
        let e = Self::exp2(q - self.unit);
        Self::lemma_exp2_pos(q - self.unit);
        assert((sig + 1) as real * e == sig as real * e + e) by (nonlinear_arith);
    }

    /// Larger codes stand for larger numbers.
    pub proof fn lemma_value_increasing(self, i: nat, j: nat)
        requires
            self.wf(),
            i <= j,
        ensures
            self.value(i) <= self.value(j),
            i < j ==> self.value(i) < self.value(j),
        decreases j - i,
    {
        if i < j {
            self.lemma_value_increasing(i, (j - 1) as nat);
            self.lemma_value_succ((j - 1) as nat);
        }
    }

    pub proof fn lemma_value_zero(self)
        requires
            self.wf(),
        ensures
            self.value(0) == 0real,
    {
        lemma_pow2_pos((self.precision - 1) as nat);
        let e = Self::exp2(0 - self.unit);
        assert(0real * e == 0real) by (nonlinear_arith);
    }

    /// No two codes are nearest to the same number.
    pub proof fn lemma_nearest_unique(self, x: real, code: nat)
        requires
            self.wf(),
            self.is_nearest(x, code),
        ensures
            self.nearest(x) == code,
    {
        let other = self.nearest(x);
        assert(self.is_nearest(x, other));
        if other != code {
            let (lo, hi) = if other < code { (other, code) } else { (code, other) };
            assert(self.value(lo) == self.value(lo));
            assert(self.above_midpoint(hi, lo, x));
            assert(self.below_midpoint(lo, hi, x));
            if hi > lo + 1 {
                self.lemma_value_increasing(lo + 1, hi);
                assert(self.above_midpoint((lo + 1) as nat, lo, x));
            }
        }
    }

    /// No two codes are nearest to the same root.
    pub proof fn lemma_nearest_root_unique(self, v: real, code: nat)
        requires
            self.wf(),
            self.is_nearest_root(v, code),
        ensures
            self.nearest_root(v) == code,
    {
        let other = self.nearest_root(v);
        assert(self.is_nearest_root(v, other));
        if other != code {
            let (lo, hi) = if other < code { (other, code) } else { (code, other) };
            assert(self.value(lo) == self.value(lo));
            if hi > lo + 1 {
                self.lemma_value_increasing(lo + 1, hi);
                self.lemma_value_increasing(lo, lo + 1);
                self.lemma_value_increasing(0, lo);
                self.lemma_value_zero();
                let a = self.value(lo) + self.value((lo + 1) as nat);
                let b = self.value(lo) + self.value(hi);
                assert(a * a < b * b) by (nonlinear_arith)
                    requires
                        0real <= a < b,
                ;
            }
        }
    }
}

} // verus!
