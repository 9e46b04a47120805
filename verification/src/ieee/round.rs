//! Rounding: from a product of an integer and a power of two to the nearest code.

use vstd::prelude::*;
use vstd::arithmetic::power2::*;
use super::format::Format;

verus! {

impl Format {
    /// `code` is nearest to every `x` of the cell `[low, low + width)`: of `low`
    /// itself when the result is exact, of every point above it when not.
    pub open spec fn cell_rounds(
        self,
        low: real,
        width: real,
        inexact: bool,
        code: nat,
    ) -> bool {
        &&& code <= self.infinity
        &&& forall|j: nat| #![trigger self.value(j)]
            j < code ==> {
                let sum = self.value(j) + self.value(code);
                sum < 2real * low || (sum == 2real * low && (inexact || code % 2 == 0))
            }
        &&& forall|j: nat| #![trigger self.value(j)]
            code < j <= self.infinity ==> {
                let sum = self.value(j) + self.value(code);
                if inexact {
                    2real * (low + width) <= sum
                } else {
                    2real * low < sum || (sum == 2real * low && code % 2 == 0)
                }
            }
    }

    /// What rounds the cell rounds the number in it.
    pub proof fn lemma_cell_nearest(
        self,
        low: real,
        width: real,
        inexact: bool,
        code: nat,
        x: real,
    )
        requires
            self.wf(),
            self.cell_rounds(low, width, inexact, code),
            if inexact { low < x < low + width } else { x == low },
        ensures
            self.is_nearest(x, code),
            self.nearest(x) == code,
    {
        self.lemma_nearest_unique(x, code);
    }

    /// What rounds the cell rounds the square root that lies in it.
    pub proof fn lemma_cell_nearest_root(
        self,
        low: real,
        width: real,
        inexact: bool,
        code: nat,
        v: real,
    )
        requires
            self.wf(),
            self.cell_rounds(low, width, inexact, code),
            0real <= low,
            0real < width,
            if inexact {
                low * low < v < (low + width) * (low + width)
            } else {
                v == low * low
            },
        ensures
            self.is_nearest_root(v, code),
            self.nearest_root(v) == code,
    {
        let top = low + width;
        self.lemma_value_zero();
        self.lemma_value_increasing(0, code);
        assert forall|j: nat| #![trigger self.value(j)] j < code implies {
            let sum = self.value(j) + self.value(code);
            sum * sum < 4real * v || (sum * sum == 4real * v && code % 2 == 0)
        } by {
            self.lemma_value_increasing(0, j);
            let sum = self.value(j) + self.value(code);
            if sum < 2real * low {
                assert(sum * sum < 4real * (low * low)) by (nonlinear_arith)
                    requires
                        0real <= sum < 2real * low,
                ;
            } else {
                assert(sum * sum == 4real * (low * low)) by (nonlinear_arith)
                    requires
                        sum == 2real * low,
                ;
            }
        }
        assert forall|j: nat| #![trigger self.value(j)] code < j <= self.infinity implies {
            let sum = self.value(j) + self.value(code);
            4real * v < sum * sum || (sum * sum == 4real * v && code % 2 == 0)
        } by {
            let sum = self.value(j) + self.value(code);
            if inexact {
                assert(4real * (top * top) <= sum * sum) by (nonlinear_arith)
                    requires
                        0real <= 2real * top <= sum,
                ;
            } else if 2real * low < sum {
                assert(4real * (low * low) < sum * sum) by (nonlinear_arith)
                    requires
                        0real <= 2real * low < sum,
                ;
            } else {
                assert(sum * sum == 4real * (low * low)) by (nonlinear_arith)
                    requires
                        sum == 2real * low,
                ;
            }
        }
        self.lemma_nearest_root_unique(v, code);
    }

    /// A number of the format rounds to itself, one past infinity to infinity.
    proof fn lemma_exact_cell(self, code: nat, width: real)
        requires
            self.wf(),
        ensures
            self.cell_rounds(
                self.value(code),
                width,
                false,
                if code <= self.infinity { code } else { self.infinity as nat },
            ),
    {
        let k: nat = if code <= self.infinity { code } else { self.infinity as nat };
        let low = self.value(code);
        self.lemma_value_increasing(k, code);
        assert forall|j: nat| #![trigger self.value(j)] j < k implies self.value(j)
            + self.value(k) < 2real * low by {
            self.lemma_value_increasing(j, k);
        }
        assert forall|j: nat| #![trigger self.value(j)] k < j <= self.infinity implies 2real
            * low < self.value(j) + self.value(k) by {
            self.lemma_value_increasing(k, j);
        }
    }

    /// Past infinity everything rounds to infinity.
    proof fn lemma_overflow_cell(self, code: nat, low: real, width: real, inexact: bool)
        requires
            self.wf(),
            code >= self.infinity,
            self.value(code) <= low,
        ensures
            self.cell_rounds(low, width, inexact, self.infinity as nat),
    {
        let k = self.infinity as nat;
        self.lemma_value_increasing(k, code);
        assert forall|j: nat| #![trigger self.value(j)] j < k implies self.value(j)
            + self.value(k) < 2real * low by {
            self.lemma_value_increasing(j, k);
        }
    }

    /// The rounding decision between two neighbours, on a grid of `n` cells per
    /// step of the format.
    proof fn lemma_step_cell(
        self,
        code: nat,
        n: nat,
        rem: nat,
        width: real,
        low: real,
        inexact: bool,
        up: bool,
    )
        requires
            self.wf(),
            width > 0real,
            n % 2 == 0,
            rem < n,
            self.value(code + 1) == self.value(code) + n as real * width,
            low == self.value(code) + rem as real * width,
            up == (2 * rem > n || (2 * rem == n && (inexact || code % 2 == 1))),
        ensures
            ({
                let k = if up { code + 1 } else { code };
                self.cell_rounds(
                    low,
                    width,
                    inexact,
                    if k <= self.infinity { k } else { self.infinity as nat },
                )
            }),
    {
        let k: nat = if up { code + 1 } else { code };
        let v0 = self.value(code);
        let v1 = self.value(code + 1);
        let rw = rem as real * width;
        let nw = n as real * width;
        assert(0real <= rw) by (nonlinear_arith)
            requires
                rw == rem as real * width,
                width > 0real,
                rem as real >= 0real,
        ;
        assert(rw + width <= nw) by (nonlinear_arith)
            requires
                rw == rem as real * width,
                nw == n as real * width,
                rem as real + 1real <= n as real,
                width > 0real,
        ;
        if k > self.infinity {
            self.lemma_overflow_cell(code, low, width, inexact);
        } else if up {
            assert(2real * rw >= nw) by (nonlinear_arith)
                requires
                    rw == rem as real * width,
                    nw == n as real * width,
                    2real * rem as real >= n as real,
                    width > 0real,
            ;
            if 2 * rem > n {
                assert(2real * rw > nw) by (nonlinear_arith)
                    requires
                        rw == rem as real * width,
                        nw == n as real * width,
                        2real * rem as real > n as real,
                        width > 0real,
                ;
            }
            assert forall|j: nat| #![trigger self.value(j)] j < k implies ({
                let sum = self.value(j) + self.value(k);
                sum < 2real * low || (sum == 2real * low && (inexact || k % 2 == 0))
            }) by {
                self.lemma_value_increasing(j, code);
            }
            assert forall|j: nat| #![trigger self.value(j)] k < j <= self.infinity implies ({
                let sum = self.value(j) + self.value(k);
                2real * (low + width) < sum
            }) by {
                self.lemma_value_increasing(k, j);
            }
        } else {
            assert(2real * rw <= nw) by (nonlinear_arith)
                requires
                    rw == rem as real * width,
                    nw == n as real * width,
                    2real * rem as real <= n as real,
                    width > 0real,
            ;
            if 2 * rem < n {
                assert(2 * rem + 2 <= n);
                assert(2real * rw + 2real * width <= nw) by (nonlinear_arith)
                    requires
                        rw == rem as real * width,
                        nw == n as real * width,
                        2real * rem as real + 2real <= n as real,
                        width > 0real,
                ;
            }
            assert forall|j: nat| #![trigger self.value(j)] j < k implies ({
                let sum = self.value(j) + self.value(k);
                sum < 2real * low
            }) by {
                self.lemma_value_increasing(j, code);
            }
            assert forall|j: nat| #![trigger self.value(j)] k < j <= self.infinity implies ({
                let sum = self.value(j) + self.value(k);
                if inexact {
                    2real * (low + width) <= sum
                } else {
                    2real * low < sum || (sum == 2real * low && k % 2 == 0)
                }
            }) by {
                self.lemma_value_increasing(code + 1, j);
            }
        }
    }
}

/// `2^s`.
pub fn power_of_two(s: u32) -> (r: u128)
    requires
        s < 128,
    ensures
        r == pow2(s as nat),
        r > 0,
{
    let mut r: u128 = 1;
    let mut i: u32 = 0;
    proof {
        lemma2_to64();
    }
    while i < s
        invariant
            i <= s < 128,
            r == pow2(i as nat),
            r > 0,
        decreases s - i,
    {
        proof {
            lemma_pow2_unfold((i + 1) as nat);
            lemma_pow2_below(i as nat, 127);
        }
        r = r * 2;
        i = i + 1;
    }
    r
}

/// Powers of two below `2^127` leave room to double in 128 bits.
proof fn lemma_pow2_below(i: nat, n: nat)
    requires
        i < n <= 127,
    ensures
        pow2(i) < pow2(n) <= 0x8000_0000_0000_0000_0000_0000_0000_0000,
{
    lemma_pow2_strictly_increases(i, n);
    if n < 127 {
        lemma_pow2_strictly_increases(n, 127);
    }
    lemma2_to64();
    lemma_pow2_adds(64, 63);
    lemma2_to64_rest();
}

/// How many binary digits `m` has.
pub fn bit_length(m: u128) -> (n: u32)
    ensures
        n <= 128,
        m < pow2(n as nat),
        n > 0 ==> pow2((n - 1) as nat) <= m,
        n == 0 <==> m == 0,
{
    let mut n: u32 = 0;
    let mut rest: u128 = m;
    let ghost mut base: nat = 0;
    proof {
        lemma2_to64();
        lemma2_to64_rest();
        lemma_pow2_adds(64, 64);
    }
    while rest > 0
        invariant
            n <= 128,
            m as nat == rest as nat * pow2(n as nat) + base,
            base < pow2(n as nat),
            rest == 0 && n > 0 ==> pow2((n - 1) as nat) <= m,
            rest == 0 && n == 0 ==> m == 0,
            m == 0 ==> n == 0 && rest == 0,
            pow2(128) == 0x1_0000_0000_0000_0000_0000_0000_0000_0000,
        decreases rest,
    {
        let ghost p = pow2(n as nat);
        let ghost before = rest as nat;
        proof {
            lemma_pow2_unfold((n + 1) as nat);
            assert(p <= m) by (nonlinear_arith)
                requires
                    m as nat == before * p + base,
                    before >= 1,
            ;
            if n >= 128 {
                if n > 128 {
                    lemma_pow2_strictly_increases(128, n as nat);
                }
            }
        }
        let bit: u128 = rest % 2;
        rest = rest / 2;
        proof {
            base = base + bit as nat * p;
            assert(m as nat == rest as nat * (2 * p) + base) by (nonlinear_arith)
                requires
                    m as nat == before * p + (base - bit as nat * p),
                    before == 2 * rest as nat + bit as nat,
            ;
            assert(base < 2 * p) by (nonlinear_arith)
                requires
                    base - bit as nat * p < p,
                    bit <= 1,
            ;
        }
        n = n + 1;
    }
    proof {
        assert(0 * pow2(n as nat) == 0) by (nonlinear_arith);
    }
    n
}

impl Format {
    /// Rounds the cell `[m, m + 1) * 2^(e - unit)`.
    ///
    /// An inexact cell has to be at least two binary digits finer than the
    /// format, so that the midpoints between its numbers are edges of cells.
    #[verifier::spinoff_prover]
    pub fn round(&self, m: u128, e: i64, inexact: bool) -> (code: u64)
        requires
            self.wf(),
            0 < m < pow2(126),
            -10000 <= e <= 10000,
            inexact ==> m >= pow2((self.precision + 1) as nat),
        ensures
            self.cell_rounds(
                m as real * Self::exp2(e - self.unit),
                Self::exp2(e - self.unit),
                inexact,
                code as nat,
            ),
    {
        let bits: i64 = bit_length(m) as i64;
        let p: i64 = self.precision as i64;
        let q: i64 = if bits + e - p > 0 { bits + e - p } else { 0 };
        let s: i64 = q - e;
        let ghost width = Self::exp2(e - self.unit);
        let ghost low = m as real * width;
        proof {
            Self::lemma_exp2_pos(e - self.unit);
            lemma_pow2_pos((self.precision - 1) as nat);
            lemma_pow2_unfold(self.precision as nat);
            if bits > 126 {
                if bits > 127 {
                    lemma_pow2_strictly_increases(126, (bits - 1) as nat);
                }
            }
            assert(bits <= 126);
        }
        if s <= 0 {
            let t: u32 = (-s) as u32;
            proof {
                assert(bits + t <= p);
                lemma_pow2_adds(bits as nat, t as nat);
                lemma_pow2_adds((bits - 1) as nat, t as nat);
                if bits + t < p {
                    lemma_pow2_strictly_increases((bits + t) as nat, p as nat);
                }
                assert(!inexact) by {
                    if inexact {
                        lemma_pow2_strictly_increases(bits as nat, (self.precision + 1) as nat);
                    }
                }
            }
            let scale = power_of_two(t);
            let ghost wide = m as nat * scale as nat;
            proof {
                let pb = pow2(bits as nat);
                let pb1 = pow2((bits - 1) as nat);
                assert(wide < pb * scale) by (nonlinear_arith)
                    requires
                        wide == m as nat * scale as nat,
                        m < pb,
                        scale > 0,
                ;
                assert(wide >= pb1 * scale) by (nonlinear_arith)
                    requires
                        wide == m as nat * scale as nat,
                        m >= pb1,
                ;
                assert(wide < 2 * self.hidden);
                lemma_pow2_at_most_53(self.precision as nat);
            }
            let sig: u64 = (m * scale) as u64;
            proof {
                Self::lemma_exp2_shift(q - self.unit, t as nat);
                assert(q - self.unit + t == e - self.unit);
                Self::lemma_real_product(m as nat, scale as nat);
                let x = Self::exp2(q - self.unit);
                assert(low == sig as real * x) by (nonlinear_arith)
                    requires
                        low == m as real * (scale as real * x),
                        sig as real == m as real * scale as real,
                ;
                self.lemma_value_split(q as nat, sig as nat);
                self.lemma_exact_cell(q as nat * (self.hidden as nat) + sig as nat, width);
            }
            self.clamped(q as u64, sig)
        } else if s >= 127 {
            proof {
                assert(q == 0);
                lemma_pow2_below_half(m as nat, s as nat);
                Self::lemma_exp2_shift(e - self.unit, s as nat);
                assert(e - self.unit + s == 0 - self.unit);
                self.lemma_value_zero();
                self.lemma_value_succ(0);
                let rem = m as nat;
                assert(rem as real == m as real);
                assert(rem as real * width == low);
                assert(self.value(0) + rem as real * width == low);
                self.lemma_step_cell(0, pow2(s as nat), m as nat, width, low, inexact, false);
            }
            0
        } else {
            let n = power_of_two(s as u32);
            let sig128 = m / n;
            let rem = m % n;
            proof {
                lemma_pow2_unfold(s as nat);
                lemma_pow2_adds(p as nat, s as nat);
                lemma_pow2_adds((p - 1) as nat, s as nat);
                vstd::arithmetic::div_mod::lemma_fundamental_div_mod(m as int, n as int);
                if bits < p + s {
                    lemma_pow2_strictly_increases(bits as nat, (p + s) as nat);
                }
                let pp = pow2(p as nat);
                assert(sig128 < pp) by (nonlinear_arith)
                    requires
                        m < pp * n,
                        m == n * sig128 + rem,
                        rem >= 0,
                ;
                if q > 0 {
                    assert(bits - 1 == p - 1 + s);
                    let h = self.hidden;
                    assert(sig128 >= h) by (nonlinear_arith)
                        requires
                            m >= h * n,
                            m == n * sig128 + rem,
                            rem < n,
                    ;
                }
                lemma_pow2_at_most_53(self.precision as nat);
            }
            let sig: u64 = sig128 as u64;
            let half = n / 2;
            let up = rem > half || (rem == half && (inexact || sig % 2 == 1));
            proof {
                let k0 = q as nat * (self.hidden as nat) + sig as nat;
                self.lemma_value_split(q as nat, sig as nat);
                self.lemma_value_split(q as nat, (sig + 1) as nat);
                assert(k0 + 1 == q as nat * (self.hidden as nat) + (sig + 1) as nat);
                Self::lemma_exp2_shift(e - self.unit, s as nat);
                assert(e - self.unit + s == q - self.unit);
                Self::lemma_real_product(n as nat, sig as nat);
                let step = Self::exp2(q - self.unit);
                assert((sig + 1) as real * step == sig as real * step + step)
                    by (nonlinear_arith);
                assert(low == sig as real * step + rem as real * width) by (nonlinear_arith)
                    requires
                        low == m as real * width,
                        step == n as real * width,
                        m as real == n as real * sig as real + rem as real,
                ;
                lemma_pow2_unfold((self.precision - 1) as nat);
                let hh = pow2((self.precision - 2) as nat);
                vstd::arithmetic::div_mod::lemma_mod_multiples_vanish(
                    (q as nat * hh) as int,
                    sig as int,
                    2,
                );
                assert(k0 == 2 * (q as nat * hh) + sig) by (nonlinear_arith)
                    requires
                        k0 == q as nat * (self.hidden as nat) + sig as nat,
                        self.hidden == 2 * hh,
                ;
                self.lemma_step_cell(k0, n as nat, rem as nat, width, low, inexact, up);
            }
            self.clamped(q as u64, if up { sig + 1 } else { sig })
        }
    }

    /// The code `q * hidden + sig`, or infinity where that lies past it.
    fn clamped(&self, q: u64, sig: u64) -> (code: u64)
        requires
            self.wf(),
            sig <= 2 * self.hidden,
        ensures
            ({
                let k = q as nat * (self.hidden as nat) + sig as nat;
                code == if k <= self.infinity { k } else { self.infinity as nat }
            }),
    {
        proof {
            lemma_pow2_pos((self.precision - 1) as nat);
            lemma_pow2_at_most_53(self.precision as nat);
            lemma_pow2_unfold(self.precision as nat);
        }
        let limit = self.infinity / self.hidden;
        let ghost h = self.hidden as nat;
        proof {
            vstd::arithmetic::div_mod::lemma_fundamental_div_mod(
                self.infinity as int,
                self.hidden as int,
            );
        }
        if q > limit {
            proof {
                let inf = self.infinity as nat;
                let rest = inf % h;
                let more = (limit + 1) as nat;
                assert(q as nat * h >= more * h) by (nonlinear_arith)
                    requires
                        q >= more,
                ;
                assert(more * h == h * (limit as nat) + h) by (nonlinear_arith)
                    requires
                        more == limit + 1,
                ;
            }
            self.infinity
        } else {
            proof {
                let inf = self.infinity as nat;
                assert(q as nat * h <= inf) by (nonlinear_arith)
                    requires
                        inf == h * (limit as nat) + inf % h,
                        q <= limit,
                        inf % h >= 0,
                ;
            }
            let k = q * self.hidden + sig;
            if k <= self.infinity {
                k
            } else {
                self.infinity
            }
        }
    }
}

pub proof fn lemma_pow2_at_most_53(p: nat)
    requires
        p <= 53,
    ensures
        pow2(p) <= 0x20_0000_0000_0000,
{
    lemma2_to64();
    lemma2_to64_rest();
    if p < 53 {
        lemma_pow2_strictly_increases(p, 53);
    }
}

proof fn lemma_pow2_below_half(m: nat, s: nat)
    requires
        m < pow2(126),
        s >= 127,
    ensures
        2 * m < pow2(s),
        pow2(s) % 2 == 0,
{
    lemma_pow2_unfold(127);
    if s > 127 {
        lemma_pow2_strictly_increases(127, s);
    }
    lemma_pow2_unfold(s);
}

} // verus!
