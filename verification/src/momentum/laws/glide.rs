//! How far a glide goes, and for how long.

use vstd::prelude::*;
use vstd::arithmetic::power2::*;
use crate::ieee::format::Format;
use crate::ieee::number::Number;
use crate::ieee::single::Single;
use crate::momentum::{Decay, MomentumScroller, MAX_STEP_MILLIS};

verus! {

// A stall.

/// The longest frame in seconds: 8858370 units of `2^-28`.
proof fn lemma_longest_frame()
    ensures
        ({
            let cap = Single::fraction(MAX_STEP_MILLIS as nat, 1000);
            &&& cap.number() == (Number { negative: false, code: 0x3d07_2b02 })
            &&& cap.value() == 8858370real * Format::exp2(-28)
        }),
{
    reveal(Single::over);
    let f = Single::format();
    Single::lemma_format();
    lemma2_to64();
    Single::law_integer_exact(33);
    Single::law_integer_exact(1000);
    let d = Single::nearest(1000real);
    f.lemma_zero_value(d.number());
    let x = 33real / 1000real;
    let c: nat = 121 * 0x80_0000 + 8858370;
    let u = Format::exp2(-28);
    Format::lemma_exp2_shift(-28, 28);
    assert(268435456real * u == 1real);
    f.lemma_value_split(121, 8858370);
    assert(f.value(c) == 8858370real * u);
    f.lemma_split(c);
    f.lemma_value_split(121, 8858371);
    f.law_nearest_bounded(x, c);
    f.law_nearest_exists(x);
    let k = f.nearest(x);
    if k > c {
        f.lemma_value_increasing(c + 1, k);
        assert(f.below_midpoint(c, k, x));
    }
    f.lemma_rounded_holds(false, x);
    Single::lemma_number_of(f.rounded(false, x));
}

/// A frame covers no more than [`MAX_STEP_MILLIS`], however long ago the last one was.
pub proof fn law_frames_are_capped(s: MomentumScroller, frame: u64)
    ensures
        !s.interval(frame).is_nan(),
        s.interval(frame).value() <= Single::fraction(MAX_STEP_MILLIS as nat, 1000).value(),
{
    reveal(Single::less);
    Single::lemma_format();
    lemma_longest_frame();
}

/// A stall cannot teleport the content: after [`MAX_STEP_MILLIS`] or more a frame is one
/// of [`MAX_STEP_MILLIS`], whatever the time that passed. It moves as far, and the glide
/// goes on alike.
pub proof fn law_stall_cannot_teleport(s: MomentumScroller, now: u64, at: u64, decay: Decay)
    requires
        crate::momentum::elapsed(now, s.last_time) >= 33_000_000,
        crate::momentum::elapsed(at, s.last_time) == 33_000_000,
    ensures
        s.interval(now) == Single::fraction(MAX_STEP_MILLIS as nat, 1000),
        s.displacement(now, decay) == s.displacement(at, decay),
        s.moved(now, decay) == s.moved(at, decay),
        s.stepped(now, decay).vx == s.stepped(at, decay).vx,
        s.stepped(now, decay).vy == s.stepped(at, decay).vy,
        s.stepped(now, decay).active == s.stepped(at, decay).active,
{
    lemma_stalled_interval(s, now);
    lemma_stalled_interval(s, at);
}

proof fn lemma_stalled_interval(s: MomentumScroller, now: u64)
    requires
        crate::momentum::elapsed(now, s.last_time) >= 33_000_000,
    ensures
        s.interval(now) == Single::fraction(MAX_STEP_MILLIS as nat, 1000),
{
    reveal(Single::less);
    let f = Single::format();
    Single::lemma_format();
    let cap = Single::fraction(MAX_STEP_MILLIS as nat, 1000);
    lemma_longest_frame();
    let nanos = crate::momentum::elapsed(now, s.last_time);
    super::velocity::lemma_seconds(nanos);
    let secs = crate::momentum::seconds_of(nanos);
    let x = secs.value();
    let c = cap.number().code as nat;
    f.lemma_zero_value(cap.number());
    f.lemma_rounded_at_least(secs.number().negative, x, c);
    f.lemma_rounded_holds(secs.number().negative, x);
    let r = f.rounded(secs.number().negative, x);
    Single::lemma_number_of(r);
    let a = secs.narrowed();
    assert(a.number() == r);
    if r.code > c {
        f.lemma_value_increasing(c, r.code as nat);
    } else {
        a.lemma_of_number();
        cap.lemma_of_number();
    }
}

// The displacement of a frame.

/// A decay as a glide has it: a factor from zero to one and a negative logarithm, which
/// is not too close to zero.
pub open spec fn is_decay(decay: Decay) -> bool {
    &&& decay.factor.is_finite()
    &&& 0real <= decay.factor.value() <= 1real
    &&& decay.log_rate.is_finite()
    &&& decay.log_rate.value() < 0real
    &&& Single::fraction(1, 1_000_000_000).less(decay.log_rate.magnitude())
}

/// The displacement per unit of velocity under such a decay.
pub open spec fn reach(decay: Decay) -> Single {
    decay.factor.minus(Single::nearest(1real)).over(
        decay.log_rate.times(Single::nearest(1000real)),
    )
}

/// The logarithm is more than `2^-30` below zero.
proof fn lemma_log_rate(decay: Decay)
    requires
        is_decay(decay),
    ensures
        decay.log_rate.value() < -Format::exp2(-30),
        decay.log_rate.number().negative,
{
    reveal(Single::over);
    reveal(Single::nearest);
    reveal(Single::less);
    let f = Single::format();
    Single::lemma_format();
    lemma2_to64();
    Single::law_integer_exact(1);
    assert(1953125real * 512real == 1_000_000_000real);
    Single::law_dyadic_exact(1953125, 9);
    let d = Single::nearest(1_000_000_000real);
    f.lemma_zero_value(d.number());
    let x = 1real / 1_000_000_000real;
    let t = Format::exp2(-30);
    Format::lemma_exp2_shift(-30, 30);
    assert(1073741824real * t == 1real);
    assert(1real * t == t) by (nonlinear_arith);
    let code = f.lemma_dyadic(1, -30);
    f.lemma_rounded_at_least(false, x, code);
    f.lemma_rounded_holds(false, x);
    Single::lemma_number_of(f.rounded(false, x));
    let l = decay.log_rate;
    f.lemma_zero_value(l.number());
    Single::lemma_number_of(Number { negative: false, code: l.number().code });
}

/// The factor less one: zero, or a negative number from `2^-24` to one.
proof fn lemma_factor_less_one(decay: Decay)
    requires
        is_decay(decay),
    ensures
        ({
            let n = decay.factor.minus(Single::nearest(1real));
            let x = 1real - decay.factor.value();
            &&& n.is_finite()
            &&& -1real <= n.value() <= 0real
            &&& x == 0real ==> n.value() == 0real
            &&& x > 0real ==> {
                &&& n.number().negative
                &&& n.value() <= -Format::exp2(-24)
                &&& crate::ieee::error::size(n.value() + x) * 16777216real <= x
            }
        }),
{
    reveal(Single::minus);
    let f = Single::format();
    Single::lemma_format();
    lemma2_to64();
    let one = Single::nearest(1real);
    Single::law_integer_exact(1);
    let v = decay.factor;
    let x = v.value() - 1real;
    let z = v.number().negative && !one.number().negative;
    f.lemma_zero_value(v.number());
    f.lemma_value_zero();
    f.lemma_rounded_at_most(z, x, 0);
    Format::lemma_exp2_shift(0, 100);
    lemma_pow2_pos(100);
    Single::law_rounding_error(z, x);
    if x < 0real {
        let u = one.number().code as nat;
        let c = v.number().code as nat;
        Single::lemma_one_code(u);
        if c >= u {
            f.lemma_value_increasing(u, c);
        }
        f.lemma_value_increasing(c, (u - 1) as nat);
        let t = Format::exp2(-24);
        Format::lemma_exp2_pos(-24);
        let code = f.lemma_dyadic(1, -24);
        assert(1real * t == t) by (nonlinear_arith);
        f.lemma_rounded_at_least(z, -x, code);
        f.law_nearest_exists(-x);
        Format::lemma_exp2_shift(-126, 102);
        Format::lemma_exp2_pos(-126);
        lemma_pow2_pos(102);
        let p = pow2(102) as real;
        let m = Format::exp2(-126);
        assert(p * m >= m) by (nonlinear_arith)
            requires
                p >= 1real,
                m > 0real,
        ;
    }
}

/// The logarithm times a thousand: a number below `-2^-21`, infinite if need be.
proof fn lemma_log_rate_scaled(decay: Decay)
    requires
        is_decay(decay),
    ensures
        ({
            let d = decay.log_rate.times(Single::nearest(1000real));
            let x = -decay.log_rate.value() * 1000real;
            &&& !d.is_nan()
            &&& d.number().negative
            &&& d.value() <= -Format::exp2(-21)
            &&& x <= 1000real ==> d.is_finite() && crate::ieee::error::size(d.value() + x)
                * 16777216real <= x
        }),
{
    reveal(Single::times);
    let f = Single::format();
    Single::lemma_format();
    lemma2_to64();
    Single::law_integer_exact(1000);
    lemma_log_rate(decay);
    let l = decay.log_rate;
    let k = Single::nearest(1000real);
    let x = l.value() * 1000real;
    f.lemma_zero_value(l.number());
    f.lemma_zero_value(k.number());
    Format::lemma_exp2_shift(-30, 9);
    let code = f.lemma_dyadic(1, -21);
    let t = Format::exp2(-21);
    assert(1real * t == t) by (nonlinear_arith);
    let z = l.number().negative != k.number().negative;
    Format::lemma_exp2_pos(-30);
    let e = Format::exp2(-30);
    assert(t == 512real * e);
    assert(l.value() * 1000real < -(1000real * e));
    assert(1000real * e >= 512real * e) by (nonlinear_arith)
        requires
            e > 0real,
    ;
    assert(-x >= t);
    f.lemma_rounded_at_least(z, -x, code);
    f.law_nearest_exists(-x);
    f.lemma_rounded_holds(z, x);
    Single::lemma_number_of(f.rounded(z, x));
    if -x <= 1000real {
        Format::lemma_exp2_shift(10, 90);
        lemma_pow2_pos(90);
        let q = pow2(90) as real;
        assert(q * 1024real >= 1024real) by (nonlinear_arith)
            requires
                q >= 1real,
        ;
        Single::law_rounding_error(z, x);
        Format::lemma_exp2_shift(-126, 105);
        Format::lemma_exp2_pos(-126);
        lemma_pow2_pos(105);
        let p = pow2(105) as real;
        let m = Format::exp2(-126);
        assert(p * m >= m) by (nonlinear_arith)
            requires
                p >= 1real,
                m > 0real,
        ;
    }
}

/// The reach of a frame is a finite number from zero to `2^21`.
proof fn lemma_reach_is_finite(decay: Decay)
    requires
        is_decay(decay),
    ensures
        reach(decay).is_finite(),
        0real <= reach(decay).value() <= Format::exp2(21),
{
    reveal(Single::over);
    let f = Single::format();
    Single::lemma_format();
    lemma2_to64();
    lemma_factor_less_one(decay);
    lemma_log_rate_scaled(decay);
    let n = decay.factor.minus(Single::nearest(1real));
    let d = decay.log_rate.times(Single::nearest(1000real));
    f.lemma_zero_value(d.number());
    f.lemma_value_zero();
    let z = n.number().negative != d.number().negative;
    Format::lemma_exp2_pos(21);
    Format::lemma_exp2_pos(-21);
    if d.is_infinite() {
        Single::lemma_number_of(Number { negative: z, code: 0 });
    } else {
        let a = -n.value();
        let b = -d.value();
        let x = n.value() / d.value();
        let t = Format::exp2(-21);
        let big = Format::exp2(21);
        Format::lemma_exp2_adds(-21, 21);
        assert(x == a / b) by (nonlinear_arith)
            requires
                x == n.value() / d.value(),
                a == -n.value(),
                b == -d.value(),
                b > 0real,
        ;
        assert(0real <= x <= big) by (nonlinear_arith)
            requires
                x == a / b,
                0real <= a <= 1real,
                b >= t,
                t > 0real,
                t * big == 1real,
        ;
        f.lemma_rounded_at_most(z, x, 21);
        f.lemma_rounded_holds(z, x);
        f.lemma_rounded_at_least(z, x, 0);
        Single::lemma_number_of(f.rounded(z, x));
    }
}

/// Displacements never grow: under one decay, no component of a displacement is larger
/// than that of the frame before.
pub proof fn law_displacements_never_grow(
    s: MomentumScroller,
    frame: u64,
    next: u64,
    decay: Decay,
)
    requires
        s.vx.is_finite(),
        s.vy.is_finite(),
        is_decay(decay),
    ensures
        ({
            let a = s.displacement(frame, decay);
            let b = s.stepped(frame, decay).displacement(next, decay);
            &&& !b.dx.is_nan() && b.dx.magnitude().value() <= a.dx.magnitude().value()
            &&& !b.dy.is_nan() && b.dy.magnitude().value() <= a.dy.magnitude().value()
        }),
        ({
            let a = s.moved(frame, decay);
            let b = s.stepped(frame, decay).moved(next, decay);
            !s.is_too_soon(frame) && a is Some && b is Some ==> {
                &&& b->0.dx.magnitude().value() <= a->0.dx.magnitude().value()
                &&& b->0.dy.magnitude().value() <= a->0.dy.magnitude().value()
            }
        }),
{
    let f = Single::format();
    Single::lemma_format();
    f.lemma_value_zero();
    lemma_reach_is_finite(decay);
    let t = s.stepped(frame, decay);
    super::law_glide_decelerates(s, frame, decay);
    Single::law_product_shrinks(s.vx, decay.factor);
    Single::law_product_shrinks(s.vy, decay.factor);
    Single::law_product_monotone(t.vx, s.vx, reach(decay));
    Single::law_product_monotone(t.vy, s.vy, reach(decay));
    let a = s.displacement(frame, decay);
    a.dx.lemma_of_number();
    a.dy.lemma_of_number();
    f.lemma_zero_value(Number { negative: false, code: a.dx.number().code });
    f.lemma_zero_value(Number { negative: false, code: a.dy.number().code });
    Single::lemma_number_of(Number { negative: false, code: a.dx.number().code });
    Single::lemma_number_of(Number { negative: false, code: a.dy.number().code });
}

// The path of a glide, before and after rounding.

/// How far a velocity carries over a frame: the integral of the decaying velocity.
pub open spec fn travel(v: real, factor: real, log_rate: real) -> real {
    v * ((factor - 1real) / (log_rate * 1000real))
}

/// The frame rate does not change the path: two frames carry a velocity as far as one
/// frame of their joint length, whose decay factor is the product of theirs.
pub proof fn law_frame_rate_does_not_matter(v: real, first: real, second: real, log_rate: real)
    requires
        log_rate != 0real,
    ensures
        travel(v, first, log_rate) + travel(v * first, second, log_rate) == travel(
            v,
            first * second,
            log_rate,
        ),
{
    let d = log_rate * 1000real;
    let a = (first - 1real) / d;
    let b = (second - 1real) / d;
    let c = (first * second - 1real) / d;
    assert(d != 0real) by (nonlinear_arith)
        requires
            d == log_rate * 1000real,
            log_rate != 0real,
    ;
    assert(a * d == first - 1real && b * d == second - 1real && c * d == first * second - 1real)
        by (nonlinear_arith)
        requires
            a == (first - 1real) / d,
            b == (second - 1real) / d,
            c == (first * second - 1real) / d,
            d != 0real,
    ;
    assert((a + first * b) * d == c * d) by (nonlinear_arith)
        requires
            a * d == first - 1real,
            b * d == second - 1real,
            c * d == first * second - 1real,
    ;
    let e = a + first * b;
    assert(e == c) by (nonlinear_arith)
        requires
            e * d == c * d,
            d != 0real,
    ;
    assert(v * a + (v * first) * b == v * e) by (nonlinear_arith)
        requires
            e == a + first * b,
    ;
}

/// Two rounded terms of a quotient and its own rounding.
proof fn lemma_quotient_error(n0: real, n: real, e0: real, e: real, q: real)
    requires
        n0 > 0real,
        e0 > 0real,
        e > 0real,
        crate::ieee::error::size(n - n0) * 16777216real <= n0,
        crate::ieee::error::size(e - e0) * 16777216real <= e0,
        crate::ieee::error::size(q - n / e) * 16777216real <= crate::ieee::error::size(n / e),
    ensures
        n0 / e0 > 0real,
        crate::ieee::error::size(q - n0 / e0) * 4194304real <= n0 / e0,
{
    let r = n / e;
    let t = n0 / e0;
    assert(r * e == n && t * e0 == n0) by (nonlinear_arith)
        requires
            r == n / e,
            t == n0 / e0,
            e > 0real,
            e0 > 0real,
    ;
    assert(n > 0real);
    assert(r > 0real && t > 0real) by (nonlinear_arith)
        requires
            r * e == n,
            t * e0 == n0,
            n > 0real,
            n0 > 0real,
            e > 0real,
            e0 > 0real,
    ;
    assert(r * 16777215real <= t * 16777217real) by (nonlinear_arith)
        requires
            r * e == n,
            t * e0 == n0,
            n * 16777216real <= n0 * 16777217real,
            e * 16777216real >= e0 * 16777215real,
            r > 0real,
            e0 > 0real,
    {
        assert(r * e0 * 16777215real <= r * e * 16777216real);
        assert(r * e0 * 16777215real <= t * e0 * 16777217real);
    }
    assert(r * 16777217real >= t * 16777215real) by (nonlinear_arith)
        requires
            r * e == n,
            t * e0 == n0,
            n * 16777216real >= n0 * 16777215real,
            e * 16777216real <= e0 * 16777217real,
            r > 0real,
            e0 > 0real,
    {
        assert(r * e0 * 16777217real >= r * e * 16777216real);
        assert(r * e0 * 16777217real >= t * e0 * 16777215real);
    }
}

/// The reach of a frame is the exact one but for one part in `2^22`.
proof fn lemma_reach_error(decay: Decay)
    requires
        is_decay(decay),
        decay.log_rate.value() >= -1real,
    ensures
        ({
            let t = (decay.factor.value() - 1real) / (decay.log_rate.value() * 1000real);
            &&& t >= 0real
            &&& crate::ieee::error::size(reach(decay).value() - t) * 4194304real <= t
        }),
{
    reveal(Single::over);
    let f = Single::format();
    Single::lemma_format();
    lemma2_to64();
    lemma_factor_less_one(decay);
    lemma_log_rate_scaled(decay);
    lemma_log_rate(decay);
    Format::lemma_exp2_pos(-30);
    Format::lemma_exp2_pos(-21);
    let a = decay.factor.minus(Single::nearest(1real));
    let b = decay.log_rate.times(Single::nearest(1000real));
    let n0 = 1real - decay.factor.value();
    let e0 = -decay.log_rate.value() * 1000real;
    let n = -a.value();
    let e = -b.value();
    let z = a.number().negative != b.number().negative;
    f.lemma_zero_value(b.number());
    f.lemma_value_zero();
    let x = a.value() / b.value();
    let t = (decay.factor.value() - 1real) / (decay.log_rate.value() * 1000real);
    let av = a.value();
    let bv = b.value();
    assert(x == n / e) by (nonlinear_arith)
        requires
            x == av / bv,
            n == -av,
            e == -bv,
            bv < 0real,
    ;
    let fv = decay.factor.value() - 1real;
    let lv = decay.log_rate.value() * 1000real;
    assert(-decay.log_rate.value() * 1000real == -lv) by (nonlinear_arith)
        requires
            lv == decay.log_rate.value() * 1000real,
    ;
    assert(lv < 0real) by (nonlinear_arith)
        requires
            lv == decay.log_rate.value() * 1000real,
            decay.log_rate.value() < 0real,
    ;
    assert(t == n0 / e0) by (nonlinear_arith)
        requires
            t == fv / lv,
            n0 == -fv,
            e0 == -lv,
            lv < 0real,
    ;
    if n0 == 0real {
        assert(x == 0real && t == 0real) by (nonlinear_arith)
            requires
                x == n / e,
                n == 0real,
                e > 0real,
                t == n0 / e0,
                n0 == 0real,
                e0 > 0real,
        ;
        f.lemma_rounded_holds(z, x);
        Single::lemma_number_of(f.rounded(z, x));
    } else {
        // The exact quotient is from 2^-35 to 2^21.
        let tiny = Format::exp2(-24);
        let small = Format::exp2(-35);
        let low = Format::exp2(-21);
        let big = Format::exp2(21);
        Format::lemma_exp2_shift(-35, 11);
        Format::lemma_exp2_adds(-21, 21);
        Format::lemma_exp2_pos(-35);
        assert(small <= x <= big) by (nonlinear_arith)
            requires
                x == n / e,
                tiny <= n <= 1real,
                low <= e <= 2048real,
                tiny == 2048real * small,
                low * big == 1real,
                low > 0real,
                small > 0real,
        ;
        Format::lemma_exp2_shift(-126, 91);
        Format::lemma_exp2_pos(-126);
        lemma_pow2_pos(91);
        let p = pow2(91) as real;
        let m = Format::exp2(-126);
        assert(p * m >= m) by (nonlinear_arith)
            requires
                p >= 1real,
                m > 0real,
        ;
        Format::lemma_exp2_shift(21, 79);
        lemma_pow2_pos(79);
        let w = pow2(79) as real;
        assert(w * big >= big) by (nonlinear_arith)
            requires
                w >= 1real,
                big > 0real,
        ;
        Single::law_rounding_error(z, x);
        lemma_quotient_error(n0, n, e0, e, reach(decay).value());
    }
}

/// Close to an exact result: within one part in `2^21`, and half the smallest positive
/// number.
pub open spec fn is_about(moved: Single, exact: real) -> bool {
    &&& moved.is_finite()
    &&& crate::ieee::error::size(moved.value() - exact) <= crate::ieee::error::size(exact)
        / 2097152real + Format::exp2(-150)
}

/// A velocity component that a fling may have, and far more.
pub open spec fn is_speed(v: Single) -> bool {
    v.is_finite() && crate::ieee::error::size(v.value()) <= Format::exp2(64)
}

/// A frame moves the content by what its velocity travels, but for rounding.
pub proof fn law_displacement_is_the_travel(s: MomentumScroller, frame: u64, decay: Decay)
    requires
        is_speed(s.vx),
        is_speed(s.vy),
        is_decay(decay),
        decay.log_rate.value() >= -1real,
    ensures
        ({
            let f = decay.factor.value();
            let l = decay.log_rate.value();
            let step = s.displacement(frame, decay);
            &&& is_about(step.dx, travel(s.vx.value(), f, l))
            &&& is_about(step.dy, travel(s.vy.value(), f, l))
        }),
{
    lemma_product_is_the_travel(s.vx, decay);
    lemma_product_is_the_travel(s.vy, decay);
}

proof fn lemma_product_is_the_travel(v: Single, decay: Decay)
    requires
        is_speed(v),
        is_decay(decay),
        decay.log_rate.value() >= -1real,
    ensures
        is_about(
            v.times(reach(decay)),
            travel(v.value(), decay.factor.value(), decay.log_rate.value()),
        ),
{
    reveal(Single::times);
    Single::lemma_format();
    lemma_reach_is_finite(decay);
    lemma_reach_error(decay);
    let q = reach(decay).value();
    let t = (decay.factor.value() - 1real) / (decay.log_rate.value() * 1000real);
    let vv = v.value();
    let x = vv * q;
    let z = v.number().negative != reach(decay).number().negative;
    let big = Format::exp2(64);
    let more = Format::exp2(21);
    Format::lemma_exp2_adds(64, 21);
    Format::lemma_exp2_shift(85, 15);
    lemma2_to64();
    Format::lemma_exp2_pos(85);
    let a = crate::ieee::error::size(vv);
    let y = Format::exp2(85);
    assert(32768real * y >= y) by (nonlinear_arith)
        requires
            y > 0real,
    ;
    assert(-(big * more) <= x <= big * more) by (nonlinear_arith)
        requires
            x == vv * q,
            -big <= vv <= big,
            0real <= q <= more,
    ;
    Single::law_rounding_error(z, x);
    let w = a * t;
    let p = a * q;
    assert(crate::ieee::error::size(x) == p) by (nonlinear_arith)
        requires
            x == vv * q,
            p == a * q,
            a == crate::ieee::error::size(vv),
            q >= 0real,
    ;
    let exact = vv * t;
    assert(crate::ieee::error::size(exact) == w) by (nonlinear_arith)
        requires
            exact == vv * t,
            w == a * t,
            a == crate::ieee::error::size(vv),
            t >= 0real,
    ;
    assert(crate::ieee::error::size(x - exact) * 4194304real <= w) by (nonlinear_arith)
        requires
            x == vv * q,
            exact == vv * t,
            w == a * t,
            a == crate::ieee::error::size(vv),
            crate::ieee::error::size(q - t) * 4194304real <= t,
    ;
    assert(p * 4194304real <= w * 4194305real);
}

/// A frame moves the content no further than its velocity would carry it over the
/// frame's interval, but for rounding, as long as its decay is no steeper than the
/// logarithm says.
pub proof fn law_displacement_within_the_interval(s: MomentumScroller, frame: u64, decay: Decay)
    requires
        is_speed(s.vx),
        is_speed(s.vy),
        is_decay(decay),
        decay.log_rate.value() >= -1real,
        1real - decay.factor.value() <= -(decay.log_rate.value() * 1000real) * s.interval(
            frame,
        ).value(),
    ensures
        ({
            let step = s.displacement(frame, decay);
            let i = s.interval(frame).value();
            &&& is_within(step.dx, crate::ieee::error::size(s.vx.value()) * i)
            &&& is_within(step.dy, crate::ieee::error::size(s.vy.value()) * i)
        }),
{
    lemma_product_within(s.vx, decay, s.interval(frame).value());
    lemma_product_within(s.vy, decay, s.interval(frame).value());
}

/// No larger than a bound, but for one part in `2^21` and half the smallest positive
/// number.
pub open spec fn is_within(moved: Single, bound: real) -> bool {
    &&& moved.is_finite()
    &&& crate::ieee::error::size(moved.value()) <= bound + bound / 2097152real + Format::exp2(
        -150,
    )
}

proof fn lemma_product_within(v: Single, decay: Decay, i: real)
    requires
        is_speed(v),
        is_decay(decay),
        decay.log_rate.value() >= -1real,
        1real - decay.factor.value() <= -(decay.log_rate.value() * 1000real) * i,
    ensures
        is_within(v.times(reach(decay)), crate::ieee::error::size(v.value()) * i),
{
    lemma_product_is_the_travel(v, decay);
    let a = crate::ieee::error::size(v.value());
    let lv = decay.log_rate.value() * 1000real;
    let fv = decay.factor.value() - 1real;
    let t = fv / lv;
    let vv = v.value();
    assert(0real <= t <= i) by (nonlinear_arith)
        requires
            t == fv / lv,
            -fv <= -lv * i,
            fv <= 0real,
            lv < 0real,
    ;
    let exact = vv * t;
    assert(crate::ieee::error::size(exact) <= a * i) by (nonlinear_arith)
        requires
            exact == vv * t,
            a == crate::ieee::error::size(vv),
            0real <= t <= i,
    ;
}

/// Two paths that end as close together as rounding lets them: within one part in
/// `2^19` of the whole way that a glide with this velocity would ever go.
pub open spec fn paths_agree(v: Single, log_rate: real, one: real, other: real) -> bool {
    crate::ieee::error::size(one - other) <= crate::ieee::error::size(v.value()) * (1real / -(
    log_rate * 1000real)) / 524288real + Format::exp2(-128)
}

/// The frame rate does not change the path, rounding included: two frames move the
/// content as far as one frame of their joint length, whose decay factor is the product
/// of theirs but for one part in `2^22`.
pub proof fn law_two_frames_go_as_far_as_one(
    s: MomentumScroller,
    frames: (u64, u64, u64),
    first: Decay,
    second: Decay,
    joint: Decay,
)
    requires
        s.active,
        !s.is_too_soon(frames.0),
        is_speed(s.vx),
        is_speed(s.vy),
        is_decay(first),
        is_decay(second),
        is_decay(joint),
        first.log_rate == joint.log_rate,
        second.log_rate == joint.log_rate,
        joint.log_rate.value() >= -1real,
        crate::ieee::error::size(
            joint.factor.value() - first.factor.value() * second.factor.value(),
        ) * 4194304real <= 1real,
    ensures
        ({
            let a = s.displacement(frames.0, first);
            let b = s.stepped(frames.0, first).displacement(frames.1, second);
            let c = s.displacement(frames.2, joint);
            let l = joint.log_rate.value();
            &&& paths_agree(s.vx, l, a.dx.value() + b.dx.value(), c.dx.value())
            &&& paths_agree(s.vy, l, a.dy.value() + b.dy.value(), c.dy.value())
        }),
{
    lemma_two_frames(s.vx, first, second, joint);
    lemma_two_frames(s.vy, first, second, joint);
}

proof fn lemma_two_frames(v: Single, first: Decay, second: Decay, joint: Decay)
    requires
        is_speed(v),
        is_decay(first),
        is_decay(second),
        is_decay(joint),
        first.log_rate == joint.log_rate,
        second.log_rate == joint.log_rate,
        joint.log_rate.value() >= -1real,
        crate::ieee::error::size(
            joint.factor.value() - first.factor.value() * second.factor.value(),
        ) * 4194304real <= 1real,
    ensures
        paths_agree(
            v,
            joint.log_rate.value(),
            v.times(reach(first)).value() + v.times(first.factor).times(reach(second)).value(),
            v.times(reach(joint)).value(),
        ),
{
    Single::lemma_format();
    let f = Single::format();
    let l = joint.log_rate.value();
    let lv = l * 1000real;
    let w = v.times(first.factor);
    let vv = v.value();
    let wv = w.value();
    let a = crate::ieee::error::size(vv);
    let f1 = first.factor.value();
    let f2 = second.factor.value();
    let f3 = joint.factor.value();
    let c = 1real / -lv;
    let tau = Format::exp2(-150);
    Format::lemma_exp2_pos(-150);
    lemma_log_rate(joint);
    Format::lemma_exp2_pos(-30);
    // The velocity that is left after the first frame.
    Single::law_product_shrinks(v, first.factor);
    v.lemma_of_number();
    w.lemma_of_number();
    Single::lemma_number_of(Number { negative: false, code: v.number().code });
    Single::lemma_number_of(Number { negative: false, code: w.number().code });
    f.lemma_zero_value(v.number());
    f.lemma_zero_value(w.number());
    assert(crate::ieee::error::size(wv) <= a);
    lemma_left_over(v, first.factor);
    lemma_product_is_the_travel(v, first);
    lemma_product_is_the_travel(w, second);
    lemma_product_is_the_travel(v, joint);
    assert(lv < 0real) by (nonlinear_arith)
        requires
            lv == l * 1000real,
            l < 0real,
    ;
    lemma_real_paths(
        (vv, wv),
        (f1, f2, f3),
        l,
        tau,
        (
            v.times(reach(first)).value(),
            w.times(reach(second)).value(),
            v.times(reach(joint)).value(),
        ),
    );
    // 2^-150 over the smallest logarithm is below 2^-129.
    lemma_tiny_share(l, lv, c);
    Format::lemma_exp2_step(-129);
    Format::lemma_exp2_shift(-150, 21);
    lemma2_to64();
    assert(2097152real * tau >= 3real * tau) by (nonlinear_arith)
        requires
            tau > 0real,
    ;
}

/// Three displacements close to what their velocities travel: the first two together are
/// close to the third.
proof fn lemma_real_paths(
    v: (real, real),
    f: (real, real, real),
    l: real,
    tau: real,
    x: (real, real, real),
)
    requires
        l < 0real,
        tau >= 0real,
        0real <= f.0 <= 1real,
        0real <= f.1 <= 1real,
        0real <= f.2 <= 1real,
        crate::ieee::error::size(f.2 - f.0 * f.1) * 4194304real <= 1real,
        crate::ieee::error::size(v.1) <= crate::ieee::error::size(v.0),
        crate::ieee::error::size(v.1 - v.0 * f.0) <= crate::ieee::error::size(v.0) / 16777216real
            + tau,
        crate::ieee::error::size(x.0 - travel(v.0, f.0, l)) <= crate::ieee::error::size(
            travel(v.0, f.0, l),
        ) / 2097152real + tau,
        crate::ieee::error::size(x.1 - travel(v.1, f.1, l)) <= crate::ieee::error::size(
            travel(v.1, f.1, l),
        ) / 2097152real + tau,
        crate::ieee::error::size(x.2 - travel(v.0, f.2, l)) <= crate::ieee::error::size(
            travel(v.0, f.2, l),
        ) / 2097152real + tau,
    ensures
        ({
            let c = 1real / -(l * 1000real);
            crate::ieee::error::size(x.0 + x.1 - x.2) <= crate::ieee::error::size(v.0) * c
                / 524288real + 3real * tau + tau * c
        }),
{
    let lv = l * 1000real;
    let c = 1real / -lv;
    let a = crate::ieee::error::size(v.0);
    let b = crate::ieee::error::size(v.1);
    let y = v.0 * f.0;
    let m = a * c;
    let ff = f.0 * f.1;
    let k1 = (f.0 - 1real) / lv;
    let k2 = (f.1 - 1real) / lv;
    let k3 = (f.2 - 1real) / lv;
    let k12 = (ff - 1real) / lv;
    assert(lv < 0real) by (nonlinear_arith)
        requires
            lv == l * 1000real,
            l < 0real,
    ;
    law_frame_rate_does_not_matter(v.0, f.0, f.1, l);
    lemma_share(f.0, lv, c, k1);
    lemma_share(f.1, lv, c, k2);
    lemma_share(f.2, lv, c, k3);
    lemma_part(v.0, k1, c);
    lemma_part(v.1, k2, c);
    lemma_part(v.0, k3, c);
    assert(b * c <= m) by (nonlinear_arith)
        requires
            m == a * c,
            b <= a,
            c > 0real,
    ;
    // What the rounding of the velocity that is left costs.
    let w = v.1 - y;
    let off = crate::ieee::error::size(w);
    lemma_part(w, k2, c);
    assert(w * k2 == v.1 * k2 - y * k2) by (nonlinear_arith)
        requires
            w == v.1 - y,
    ;
    let tc = tau * c;
    assert(off * c <= m / 16777216real + tc) by (nonlinear_arith)
        requires
            off <= a / 16777216real + tau,
            m == a * c,
            tc == tau * c,
            c > 0real,
    ;
    // What the joint factor misses.
    let g = f.2 - ff;
    let kg = k3 - k12;
    lemma_missed(g, lv, c, kg, f.2, ff);
    lemma_lost(v.0, kg, c);
    assert(v.0 * kg == v.0 * k3 - v.0 * k12) by (nonlinear_arith)
        requires
            kg == k3 - k12,
    ;
}

proof fn lemma_missed(g: real, lv: real, c: real, kg: real, joint: real, product: real)
    requires
        lv < 0real,
        c == 1real / -lv,
        g == joint - product,
        kg == (joint - 1real) / lv - (product - 1real) / lv,
        crate::ieee::error::size(g) * 4194304real <= 1real,
    ensures
        c > 0real,
        crate::ieee::error::size(kg) * 4194304real <= c,
{
    let d = -lv;
    assert(c > 0real && c * d == 1real) by (nonlinear_arith)
        requires
            c == 1real / d,
            d > 0real,
    ;
    assert(kg * d == -g) by (nonlinear_arith)
        requires
            kg == (joint - 1real) / lv - (product - 1real) / lv,
            g == joint - product,
            d == -lv,
            d > 0real,
    ;
    let gc = g * c;
    assert(kg == -gc) by (nonlinear_arith)
        requires
            kg * d == -g,
            gc == g * c,
            c * d == 1real,
            d > 0real,
    ;
    let sg = crate::ieee::error::size(g);
    assert(crate::ieee::error::size(gc) == sg * c) by (nonlinear_arith)
        requires
            gc == g * c,
            sg == crate::ieee::error::size(g),
            c > 0real,
    ;
    assert((sg * c) * 4194304real <= c) by (nonlinear_arith)
        requires
            sg * 4194304real <= 1real,
            c > 0real,
    ;
}

proof fn lemma_lost(v: real, kg: real, c: real)
    requires
        crate::ieee::error::size(kg) * 4194304real <= c,
    ensures
        crate::ieee::error::size(v * kg) * 4194304real <= crate::ieee::error::size(v) * c,
{
    let a = crate::ieee::error::size(v);
    let k = crate::ieee::error::size(kg);
    let lost = v * kg;
    assert(crate::ieee::error::size(lost) == a * k) by (nonlinear_arith)
        requires
            lost == v * kg,
            a == crate::ieee::error::size(v),
            k == crate::ieee::error::size(kg),
    ;
    assert((a * k) * 4194304real <= a * c) by (nonlinear_arith)
        requires
            k * 4194304real <= c,
            a >= 0real,
    ;
}

/// And the glide goes on alike: two frames leave the velocity that one frame of their
/// joint length does, but for one part in `2^21`.
pub proof fn law_two_frames_leave_what_one_does(
    s: MomentumScroller,
    frames: (u64, u64, u64),
    first: Decay,
    second: Decay,
    joint: Decay,
)
    requires
        s.active,
        !s.is_too_soon(frames.0),
        !s.is_too_soon(frames.2),
        s.stepped(frames.0, first).active,
        !s.stepped(frames.0, first).is_too_soon(frames.1),
        is_speed(s.vx),
        is_speed(s.vy),
        is_decay(first),
        is_decay(second),
        is_decay(joint),
        crate::ieee::error::size(
            joint.factor.value() - first.factor.value() * second.factor.value(),
        ) * 4194304real <= 1real,
    ensures
        ({
            let a = s.stepped(frames.0, first).stepped(frames.1, second);
            let b = s.stepped(frames.2, joint);
            &&& crate::ieee::error::size(a.vx.value() - b.vx.value()) <= crate::ieee::error::size(
                s.vx.value(),
            ) / 2097152real + Format::exp2(-148)
            &&& crate::ieee::error::size(a.vy.value() - b.vy.value()) <= crate::ieee::error::size(
                s.vy.value(),
            ) / 2097152real + Format::exp2(-148)
        }),
{
    lemma_velocity_left(s.vx, first.factor, second.factor, joint.factor);
    lemma_velocity_left(s.vy, first.factor, second.factor, joint.factor);
}

proof fn lemma_velocity_left(v: Single, first: Single, second: Single, joint: Single)
    requires
        is_speed(v),
        first.is_finite(),
        second.is_finite(),
        joint.is_finite(),
        0real <= first.value() <= 1real,
        0real <= second.value() <= 1real,
        0real <= joint.value() <= 1real,
        crate::ieee::error::size(joint.value() - first.value() * second.value()) * 4194304real
            <= 1real,
    ensures
        crate::ieee::error::size(
            v.times(first).times(second).value() - v.times(joint).value(),
        ) <= crate::ieee::error::size(v.value()) / 2097152real + Format::exp2(-148),
{
    Single::lemma_format();
    let f = Single::format();
    let w = v.times(first);
    let vv = v.value();
    let wv = w.value();
    let a = crate::ieee::error::size(vv);
    let f1 = first.value();
    let f2 = second.value();
    let f3 = joint.value();
    let y = vv * f1;
    Single::law_product_shrinks(v, first);
    v.lemma_of_number();
    w.lemma_of_number();
    Single::lemma_number_of(Number { negative: false, code: v.number().code });
    Single::lemma_number_of(Number { negative: false, code: w.number().code });
    f.lemma_zero_value(v.number());
    f.lemma_zero_value(w.number());
    assert(crate::ieee::error::size(wv) <= a);
    lemma_left_over(v, first);
    lemma_left_over(w, second);
    lemma_left_over(v, joint);
    lemma_part(wv - y, f2, 1real);
    let off = crate::ieee::error::size(wv - y);
    assert(off * 1real == off) by (nonlinear_arith);
    assert((wv - y) * f2 == wv * f2 - y * f2) by (nonlinear_arith);
    let ff = f1 * f2;
    assert(y * f2 == vv * ff) by (nonlinear_arith)
        requires
            y == vv * f1,
            ff == f1 * f2,
    ;
    let g = f3 - ff;
    let lost = vv * g;
    assert(crate::ieee::error::size(lost) * 4194304real <= a) by (nonlinear_arith)
        requires
            lost == vv * g,
            a == crate::ieee::error::size(vv),
            crate::ieee::error::size(g) * 4194304real <= 1real,
    {
        assert(crate::ieee::error::size(lost) == a * crate::ieee::error::size(g));
        assert(a * (crate::ieee::error::size(g) * 4194304real) <= a * 1real);
    }
    assert(lost == vv * f3 - vv * ff) by (nonlinear_arith)
        requires
            lost == vv * g,
            g == f3 - ff,
    ;
    Format::lemma_exp2_pos(-150);
    Format::lemma_exp2_step(-150);
    Format::lemma_exp2_step(-149);
}

/// The rounding of a product by a factor from zero to one.
proof fn lemma_left_over(v: Single, k: Single)
    requires
        is_speed(v),
        k.is_finite(),
        0real <= k.value() <= 1real,
    ensures
        crate::ieee::error::size(v.times(k).value() - v.value() * k.value())
            <= crate::ieee::error::size(v.value()) / 16777216real + Format::exp2(-150),
        is_speed(v.times(k)),
{
    reveal(Single::times);
    Single::lemma_format();
    let vv = v.value();
    let kv = k.value();
    let y = vv * kv;
    let a = crate::ieee::error::size(vv);
    assert(crate::ieee::error::size(y) <= a) by (nonlinear_arith)
        requires
            y == vv * kv,
            a == crate::ieee::error::size(vv),
            0real <= kv <= 1real,
    ;
    Format::lemma_exp2_shift(64, 36);
    Format::lemma_exp2_pos(64);
    lemma_pow2_pos(36);
    let p = pow2(36) as real;
    let e = Format::exp2(64);
    assert(p * e >= e) by (nonlinear_arith)
        requires
            p >= 1real,
            e > 0real,
    ;
    let z = v.number().negative != k.number().negative;
    Single::law_rounding_error(z, y);
    let f = Single::format();
    let h = f.hidden as int;
    assert((64 + 149 + 3) * h <= 255 * h) by (nonlinear_arith)
        requires
            h > 0,
    ;
    f.lemma_rounded_at_most(z, y, 64);
}

proof fn lemma_share(factor: real, lv: real, c: real, k: real)
    requires
        0real <= factor <= 1real,
        lv < 0real,
        c == 1real / -lv,
        k == (factor - 1real) / lv,
    ensures
        c > 0real,
        0real <= k <= c,
{
    assert(c > 0real) by (nonlinear_arith)
        requires
            c == 1real / -lv,
            lv < 0real,
    ;
    assert(0real <= k <= c) by (nonlinear_arith)
        requires
            0real <= factor <= 1real,
            lv < 0real,
            c == 1real / -lv,
            k == (factor - 1real) / lv,
    ;
}

proof fn lemma_part(v: real, k: real, c: real)
    requires
        0real <= k <= c,
    ensures
        crate::ieee::error::size(v * k) <= crate::ieee::error::size(v) * c,
{
    assert(crate::ieee::error::size(v * k) <= crate::ieee::error::size(v) * c) by (nonlinear_arith)
        requires
            0real <= k <= c,
    ;
}

proof fn lemma_tiny_share(l: real, lv: real, c: real)
    requires
        l < -Format::exp2(-30),
        lv == l * 1000real,
        c == 1real / -lv,
    ensures
        Format::exp2(-150) * c <= Format::exp2(-129),
{
    lemma2_to64();
    let tau = Format::exp2(-150);
    let e = Format::exp2(-30);
    let t = Format::exp2(-21);
    let r = Format::exp2(-129);
    Format::lemma_exp2_pos(-150);
    Format::lemma_exp2_pos(-30);
    Format::lemma_exp2_pos(-129);
    Format::lemma_exp2_shift(-30, 9);
    Format::lemma_exp2_adds(-129, -21);
    assert(-lv >= t) by (nonlinear_arith)
        requires
            lv == l * 1000real,
            l < -e,
            t == 512real * e,
            e > 0real,
    ;
    let d = -lv;
    let tc = tau * c;
    assert(tc * d == tau) by (nonlinear_arith)
        requires
            tc == tau * c,
            c == 1real / d,
            d > 0real,
    ;
    assert(tc <= r) by (nonlinear_arith)
        requires
            tc * d == tau,
            tau == r * t,
            d >= t,
            t > 0real,
            r > 0real,
    ;
}

} // verus!
