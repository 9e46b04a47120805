//! A release and the frames after it, measured: when it glides, how fast, for how long.

use vstd::prelude::*;
use vstd::arithmetic::power2::*;
use crate::ieee::double::Double;
use crate::ieee::format::Format;
use crate::ieee::single::Single;
use crate::momentum::{Decay, MomentumScroller, RecencyWeights, Ring, Sample};

verus! {

/// A velocity component that is finite and below a million.
pub open spec fn is_moderate(v: Single) -> bool {
    v.is_finite() && crate::ieee::error::size(v.value()) <= 1000000real
}

/// The square of the speed of a velocity.
pub open spec fn speed_squared(vx: Single, vy: Single) -> real {
    vx.value() * vx.value() + vy.value() * vy.value()
}

/// A velocity is too slow to glide below thirty pixels a second, but for rounding.
proof fn lemma_settled(vx: Single, vy: Single)
    requires
        is_moderate(vx),
        is_moderate(vy),
    ensures
        speed_squared(vx, vy) >= 901real ==> !crate::momentum::is_settled(vx, vy),
        speed_squared(vx, vy) <= 899real ==> crate::momentum::is_settled(vx, vy),
{
    reveal(Single::less);
    Single::lemma_format();
    Single::lemma_least();
    let x = vx.value();
    let y = vy.value();
    let xx = x * x;
    let yy = y * y;
    assert(0real <= xx <= 1000000000000real) by (nonlinear_arith)
        requires
            xx == x * x,
            -1000000real <= x <= 1000000real,
    ;
    assert(0real <= yy <= 1000000000000real) by (nonlinear_arith)
        requires
            yy == y * y,
            -1000000real <= y <= 1000000real,
    ;
    Single::lemma_in_range(xx);
    Single::lemma_in_range(yy);
    Single::law_product_is_near(vx, vx);
    Single::law_product_is_near(vy, vy);
    let a = vx.times(vx);
    let b = vy.times(vy);
    Single::lemma_in_range(a.value() + b.value());
    Single::law_sum_is_near(a, b);
    let c = a.plus(b);
    lemma_square_sign(vx);
    lemma_square_sign(vy);
    lemma_sum_sign(a, b);
    Single::law_root_is_near(c);
    let r = c.root().value();
    let rr = r * r;
    Single::law_integer_exact(30);
    if r >= 30real {
        assert(rr >= 900real) by (nonlinear_arith)
            requires
                rr == r * r,
                r >= 30real,
        ;
    } else {
        assert(rr < 900real) by (nonlinear_arith)
            requires
                rr == r * r,
                0real <= r < 30real,
        ;
    }
}

pub proof fn lemma_square_sign(v: Single)
    requires
        v.is_finite(),
    ensures
        !v.times(v).is_nan(),
        v.times(v).value() >= 0real,
{
    reveal(Single::times);
    let f = Single::format();
    Single::lemma_format();
    let x = v.value() * v.value();
    assert(x >= 0real) by (nonlinear_arith)
        requires
            x == v.value() * v.value(),
    ;
    f.lemma_value_zero();
    f.lemma_rounded_at_least(false, x, 0);
    f.lemma_rounded_holds(false, x);
    Single::lemma_number_of(f.rounded(false, x));
}

pub proof fn lemma_sum_sign(a: Single, b: Single)
    requires
        a.is_finite(),
        b.is_finite(),
        a.value() >= 0real,
        b.value() >= 0real,
    ensures
        a.plus(b).value() >= 0real,
{
    reveal(Single::plus);
    let f = Single::format();
    Single::lemma_format();
    let x = a.value() + b.value();
    let z = a.number().negative && b.number().negative;
    f.lemma_value_zero();
    f.lemma_rounded_at_least(z, x, 0);
    f.lemma_rounded_holds(z, x);
    Single::lemma_number_of(f.rounded(z, x));
}

/// A release glides exactly when it is no slower than thirty pixels a second, but for
/// rounding; it then glides with its own velocity, on each axis, from its own instant on.
/// One that does not changes nothing but that nothing glides.
pub proof fn law_fling_keeps_the_velocity(s: MomentumScroller, vx: Single, vy: Single, now: u64)
    requires
        is_moderate(vx),
        is_moderate(vy),
    ensures
        ({
            let t = s.flung(vx, vy, now);
            &&& speed_squared(vx, vy) >= 901real ==> t.active
            &&& speed_squared(vx, vy) <= 899real ==> !t.active
            &&& t.active ==> t.vx == vx && t.vy == vy && t.last_time == now
            &&& !t.active ==> t == (MomentumScroller { active: false, ..s })
        }),
{
    lemma_settled(vx, vy);
}

/// A frame that moves anything leaves of each velocity component what the decay factor
/// does, but for rounding, and the glide is over exactly when what is left is slower than
/// thirty pixels a second; the next frame is measured from this one.
pub proof fn law_frame_decays_the_velocity(s: MomentumScroller, now: u64, decay: Decay)
    requires
        s.active,
        crate::momentum::elapsed(now, s.last_time) >= 1001,
        is_moderate(s.vx),
        is_moderate(s.vy),
        decay.factor.is_finite(),
        0real <= decay.factor.value() <= 1real,
    ensures
        ({
            let t = s.stepped(now, decay);
            let f = decay.factor.value();
            &&& t.vx.near(s.vx.value() * f)
            &&& t.vy.near(s.vy.value() * f)
            &&& speed_squared(t.vx, t.vy) >= 901real ==> t.active
            &&& speed_squared(t.vx, t.vy) <= 899real ==> !t.active
            &&& t.last_time == now
        }),
{
    law_frame_is_the_time_that_passed(s, now);
    let f = decay.factor.value();
    lemma_shrinks(s.vx.value(), f);
    lemma_shrinks(s.vy.value(), f);
    Single::lemma_in_range(s.vx.value() * f);
    Single::lemma_in_range(s.vy.value() * f);
    Single::law_product_is_near(s.vx, decay.factor);
    Single::law_product_is_near(s.vy, decay.factor);
    Single::law_product_shrinks(s.vx, decay.factor);
    Single::law_product_shrinks(s.vy, decay.factor);
    let t = s.stepped(now, decay);
    Single::lemma_magnitude(s.vx);
    Single::lemma_magnitude(s.vy);
    Single::lemma_magnitude(t.vx);
    Single::lemma_magnitude(t.vy);
    lemma_settled(t.vx, t.vy);
}

proof fn lemma_shrinks(v: real, f: real)
    requires
        0real <= f <= 1real,
    ensures
        crate::ieee::error::size(v * f) <= crate::ieee::error::size(v),
{
    let m = crate::ieee::error::size(v);
    assert(-m <= v * f <= m) by (nonlinear_arith)
        requires
            -m <= v <= m,
            m >= 0real,
            0real <= f <= 1real,
    ;
}

/// A frame covers the time since the last one, but for rounding, up to the longest frame;
/// it comes too soon exactly when that is less than a microsecond, and then moves nothing
/// and changes nothing but the instant it is measured from.
pub proof fn law_frame_is_the_time_that_passed(s: MomentumScroller, now: u64)
    ensures
        ({
            let nanos = crate::momentum::elapsed(now, s.last_time);
            let exact = nanos as real / 1_000_000_000real;
            let dt = s.interval(now);
            &&& dt.is_finite()
            &&& nanos <= 32_999_000 ==> crate::ieee::error::size(dt.value() - exact) <= exact
                / 4194304real + Format::exp2(-150)
            &&& nanos >= 33_001_000 ==> crate::ieee::error::size(
                dt.value() - 33real / 1000real,
            ) <= 1real / 1000000real
            &&& nanos <= 999 ==> s.is_too_soon(now)
            &&& nanos >= 1001 ==> !s.is_too_soon(now)
        }),
{
    reveal(Single::less);
    let f = Single::format();
    Single::lemma_format();
    Single::lemma_least();
    let nanos = crate::momentum::elapsed(now, s.last_time);
    let exact = nanos as real / 1_000_000_000real;
    super::slope::lemma_seconds_close(nanos);
    let secs = crate::momentum::seconds_of(nanos);
    Format::lemma_exp2_pos(36);
    Single::lemma_in_range(secs.value());
    Single::law_rounding_error(secs.number().negative, secs.value());
    let x = secs.narrowed();
    assert(x == Single::of(f.rounded(secs.number().negative, secs.value())));
    lemma_fraction(33, 1000);
    lemma_fraction(1, 1000000);
}

proof fn lemma_fraction(n: nat, d: nat)
    requires
        1 <= n <= 1000000,
        1 <= d <= 1000000,
    ensures
        Single::fraction(n, d).near(n as real / d as real),
{
    Single::law_integer_exact(n);
    Single::law_integer_exact(d);
    let a = n as real;
    let b = d as real;
    assert(0real <= a / b <= 1000000real) by (nonlinear_arith)
        requires
            1real <= a <= 1000000real,
            b >= 1real,
    ;
    Single::lemma_in_range(a / b);
    Single::law_quotient_is_near(Single::nearest(a), Single::nearest(b));
}

/// A frame moves the content by what each velocity component travels while it decays, but
/// for rounding. It moves nothing when the glide is over, and only then may it drop a rest:
/// one that is over in this very frame, of less than a tenth of a pixel on either axis. A
/// frame that comes too soon is a step of no length, and the glide goes on as it was.
pub proof fn law_frame_moves_by_the_travel(s: MomentumScroller, now: u64, decay: Decay)
    requires
        is_moderate(s.vx),
        is_moderate(s.vy),
        super::glide::is_decay(decay),
        decay.log_rate.value() >= -1real,
    ensures
        ({
            let nanos = crate::momentum::elapsed(now, s.last_time);
            let f = decay.factor.value();
            let l = decay.log_rate.value();
            let x = super::glide::travel(s.vx.value(), f, l);
            let y = super::glide::travel(s.vy.value(), f, l);
            let t = s.stepped(now, decay);
            let moved = s.moved(now, decay);
            &&& !s.active ==> moved is None && t == s
            &&& s.active && nanos <= 999 ==> {
                &&& moved matches Some(step) && step.dx.value() == 0real && step.dy.value()
                    == 0real
                &&& t == (MomentumScroller { last_time: now, ..s })
            }
            &&& s.active && nanos >= 1001 ==> {
                &&& t.active ==> moved is Some
                &&& crate::ieee::error::size(x) >= 1001real / 10000real
                    || crate::ieee::error::size(y) >= 1001real / 10000real ==> moved is Some
                &&& !t.active && crate::ieee::error::size(x) <= 999real / 10000real
                    && crate::ieee::error::size(y) <= 999real / 10000real ==> moved is None
                &&& moved matches Some(step) ==> super::glide::is_about(step.dx, x)
                    && super::glide::is_about(step.dy, y)
            }
        }),
{
    reveal(Single::less);
    Single::lemma_format();
    Single::format().lemma_value_zero();
    law_frame_is_the_time_that_passed(s, now);
    Single::lemma_in_range(1000000real);
    lemma2_to64();
    Format::lemma_exp2_shift(0, 64);
    Format::lemma_exp2_shift(0, 20);
    crate::ieee::close::lemma_power_order(20, 64);
    let one = Format::exp2(0);
    let e = Format::exp2(20);
    assert(e == 1048576real) by (nonlinear_arith)
        requires
            e == 1048576real * one,
            one == 1real,
    ;
    super::glide::law_displacement_is_the_travel(s, now, decay);
    let step = s.displacement(now, decay);
    Single::lemma_magnitude(step.dx);
    Single::lemma_magnitude(step.dy);
    lemma_fraction(1, 10);
    Single::lemma_least();
}

/// What rounding may do to a distance covered at a velocity.
pub open spec fn distance_slack(v: real, dt: real, distance: real) -> real {
    (crate::ieee::error::size(v) * dt + crate::ieee::error::size(distance) + dt) / 524288real
        + Format::exp2(-100)
}

/// A velocity component covers a distance in a time, up to the cap and to rounding.
pub open spec fn covers(v: Single, distance: real, dt: real) -> bool {
    let e = distance_slack(v.value(), dt, distance);
    &&& v.is_finite()
    &&& v.value() < 16000real ==> distance - v.value() * dt <= e
    &&& v.value() > -16000real ==> v.value() * dt - distance <= e
}

/// Of two recent samples the velocity is what covers the way from the earlier to the later
/// one in the time between them, on each axis, or none where they are less than a
/// microsecond apart.
pub proof fn law_two_samples_give_the_difference(ring: Ring, now: u64, weights: RecencyWeights)
    requires
        ring.recent(now).len() == 2,
        ring.recent(now)[0].time <= ring.recent(now)[1].time,
        forall|i: int|
            0 <= i < 2 ==> super::velocity::is_finite_sample(#[trigger] ring.recent(now)[i])
                && crate::ieee::error::size(ring.recent(now)[i].x.value()) <= 1000000000real
                && crate::ieee::error::size(ring.recent(now)[i].y.value()) <= 1000000000real,
    ensures
        ({
            let a = ring.recent(now)[0];
            let b = ring.recent(now)[1];
            let nanos = b.time - a.time;
            let dt = nanos as real / 1_000_000_000real;
            let v = ring.velocity(now, weights);
            if nanos < 1000 {
                v.0.value() == 0real && v.1.value() == 0real
            } else {
                &&& covers(v.0, b.x.value() - a.x.value(), dt)
                &&& covers(v.1, b.y.value() - a.y.value(), dt)
            }
        }),
{
    let a = ring.recent(now)[0];
    let b = ring.recent(now)[1];
    assert(super::velocity::is_finite_sample(a) && super::velocity::is_finite_sample(b));
    lemma_capped_difference(a, b);
}

/// Where the times are too close together for a fit, the velocity is what covers the way
/// from the first recent sample to the last in the time between them, or none where these
/// are less than a microsecond apart.
pub proof fn law_degenerate_fit_is_the_difference(ring: Ring, now: u64, weights: RecencyWeights)
    requires
        ring.wf(),
        weights.wf(),
        ring.recent(now).len() >= 3,
        forall|i: int|
            0 <= i < ring.samples.len() && (#[trigger] ring.samples[i]) is Some
                ==> super::velocity::is_finite_sample(ring.samples[i]->0),
        forall|i: int|
            0 <= i < ring.recent(now).len() ==> (#[trigger] weights.row(
                ring.recent(now).len() as int,
            )[i]).value() >= 1real,
        ({
            let recent = ring.recent(now);
            let s = super::fit::exact_sums(
                super::slope::observations(recent, weights.row(recent.len() as int), false),
            );
            &&& 0real <= s.denominator() <= 1real / 2199023255552real
            &&& super::slope::denominator_size(s) <= 1real
            &&& crate::ieee::error::size(recent[0].x.value()) <= 1000000000real
            &&& crate::ieee::error::size(recent[0].y.value()) <= 1000000000real
            &&& crate::ieee::error::size(recent.last().x.value()) <= 1000000000real
            &&& crate::ieee::error::size(recent.last().y.value()) <= 1000000000real
        }),
    ensures
        ({
            let a = ring.recent(now)[0];
            let b = ring.recent(now).last();
            let nanos = b.time - a.time;
            let dt = nanos as real / 1_000_000_000real;
            let v = ring.velocity(now, weights);
            if nanos < 1000 {
                v.0.value() == 0real && v.1.value() == 0real
            } else {
                &&& covers(v.0, b.x.value() - a.x.value(), dt)
                &&& covers(v.1, b.y.value() - a.y.value(), dt)
            }
        }),
{
    let recent = ring.recent(now);
    let row = weights.row(recent.len() as int);
    super::slope::lemma_recent_is_fit_input(ring, now, weights);
    super::slope::lemma_degenerate(recent, row);
    let a = recent[0];
    let b = recent.last();
    assert(b == recent[recent.len() - 1]);
    assert(super::velocity::is_finite_sample(a) && super::velocity::is_finite_sample(b));
    lemma_capped_difference(a, b);
}

/// The capped velocity from one sample to another.
proof fn lemma_capped_difference(a: Sample, b: Sample)
    requires
        a.time <= b.time,
        super::velocity::is_finite_sample(a),
        super::velocity::is_finite_sample(b),
        crate::ieee::error::size(a.x.value()) <= 1000000000real,
        crate::ieee::error::size(a.y.value()) <= 1000000000real,
        crate::ieee::error::size(b.x.value()) <= 1000000000real,
        crate::ieee::error::size(b.y.value()) <= 1000000000real,
    ensures
        ({
            let nanos = b.time - a.time;
            let dt = nanos as real / 1_000_000_000real;
            let v = crate::momentum::difference_velocity(a, b);
            let x = crate::momentum::capped(v.0);
            let y = crate::momentum::capped(v.1);
            if nanos < 1000 {
                x.value() == 0real && y.value() == 0real
            } else {
                &&& covers(x, b.x.value() - a.x.value(), dt)
                &&& covers(y, b.y.value() - a.y.value(), dt)
            }
        }),
{
    if b.time - a.time < 1000 {
        let z = Single::zero();
        let max = Single::nearest(crate::momentum::MAX_VELOCITY as real);
        Single::lemma_format();
        Single::format().lemma_value_zero();
        Single::law_integer_exact(crate::momentum::MAX_VELOCITY as nat);
        assert(max.opposite().value() == -max.value());
        assert(z.value() == 0real);
        Single::law_opposite(max);
        Single::law_within_bounds(z, max.opposite(), max);
    } else {
        let nanos = (b.time - a.time) as nat;
        lemma_difference(a.x, b.x, nanos);
        lemma_difference(a.y, b.y, nanos);
    }
}

proof fn lemma_difference(a: Single, b: Single, nanos: nat)
    requires
        a.is_finite(),
        b.is_finite(),
        crate::ieee::error::size(a.value()) <= 1000000000real,
        crate::ieee::error::size(b.value()) <= 1000000000real,
        1000 <= nanos <= u64::MAX,
    ensures
        covers(
            crate::momentum::capped(
                b.minus(a).widened().over(crate::momentum::seconds_of(nanos)).narrowed(),
            ),
            b.value() - a.value(),
            nanos as real / 1_000_000_000real,
        ),
{
    lemma2_to64();
    lemma2_to64_rest();
    let top = b.value() - a.value();
    let d = nanos as real / 1_000_000_000real;
    Single::lemma_least();
    Single::lemma_in_range(top);
    Single::law_difference_is_near(b, a);
    let diff = b.minus(a);
    super::slope::lemma_widened_close(diff);
    let num = diff.widened();
    super::slope::lemma_seconds_close(nanos);
    let den = crate::momentum::seconds_of(nanos);
    let n = num.value();
    let e = den.value();
    assert(e * 2real >= d);
    assert(d >= 1real / 1000000real);
    let z = n / e;
    assert(z * e == n) by (nonlinear_arith)
        requires
            z == n / e,
            e > 0real,
    ;
    assert(crate::ieee::error::size(n) <= 4000000000real);
    assert(crate::ieee::error::size(z) <= 8000000000000000real) by (nonlinear_arith)
        requires
            z * e == n,
            -4000000000real <= n <= 4000000000real,
            e * 2real >= 1real / 1000000real,
    ;
    Single::lemma_in_range(z);
    crate::ieee::close::lemma_power_order(100, 300);
    super::slope::lemma_capped_quotient(num, den);
    let v = crate::momentum::capped(num.over(den).narrowed());
    let least = Format::exp2(-150);
    let mn = (crate::ieee::error::size(top) / 16000000real + 2real * least) * 20480000000000real;
    super::slope::lemma_slope(v.value(), z, n, e, top, d, mn, d);
    let s = crate::ieee::error::size(v.value()) * d;
    assert(s >= 0real) by (nonlinear_arith)
        requires
            s == crate::ieee::error::size(v.value()) * d,
            d >= 0real,
    ;
    Format::lemma_exp2_shift(-150, 50);
    assert(1125899906842624real * least == Format::exp2(-100));
}

/// The later a sample, the more it weighs: the exponent of its weight is twice its place
/// among the samples over their number, but for rounding.
pub proof fn law_weights_grow_with_recency(n: int, i: int)
    requires
        1 <= n <= 16,
        0 <= i < 16,
    ensures
        ({
            let e = RecencyWeights::exponent(n, i);
            let exact = 2real * (i as real) / (n as real);
            &&& e.is_finite()
            &&& crate::ieee::error::size(e.value() - exact) <= exact / 268435456real
                + Format::exp2(-152)
        }),
{
    lemma2_to64();
    let a = Double::nearest(2real);
    let b = Double::nearest(i as real);
    let d = Double::nearest(n as real);
    Double::law_integer_exact(2);
    Double::law_integer_exact(i as nat);
    Double::law_integer_exact(n as nat);
    a.lemma_close_itself();
    b.lemma_close_itself();
    let x = 2real * (i as real);
    let k = n as real;
    Format::lemma_exp2_shift(0, 5);
    let one = Format::exp2(0);
    let top = Format::exp2(5);
    assert(top == 32real) by (nonlinear_arith)
        requires
            top == 32real * one,
            one == 1real,
    ;
    assert(crate::ieee::close::ranged(x, 0, 5));
    crate::ieee::close::lemma_ranged_more(x, 0, 5, -900, 300);
    Double::law_product_is_close(a, b, 2real, i as real, 2real, i as real, 0real, 0real);
    let num = a.times(b);
    let m = num.value();
    let z = m / k;
    let exact = x / k;
    assert(z * k == m && exact * k == x) by (nonlinear_arith)
        requires
            z == m / k,
            exact == x / k,
            k >= 1real,
    ;
    assert(exact >= 0real) by (nonlinear_arith)
        requires
            exact * k == x,
            k >= 1real,
            x >= 0real,
    ;
    let u = z - exact;
    assert(u * k == m - x) by (nonlinear_arith)
        requires
            u == z - exact,
            z * k == m,
            exact * k == x,
    ;
    assert(crate::ieee::error::size(u) * 562949953421312real <= exact) by {
        let h = crate::ieee::error::size(u);
        assert(h * 562949953421312real <= exact) by (nonlinear_arith)
            requires
                u * k == m - x,
                h == u || h == -u,
                -x <= (m - x) * 562949953421312real <= x,
                exact * k == x,
                k >= 1real,
        ;
    }
    assert(exact <= 32real) by (nonlinear_arith)
        requires
            exact * k == x,
            k >= 1real,
            0real <= x <= 32real,
            exact >= 0real,
    ;
    Single::lemma_in_range(z);
    crate::ieee::close::lemma_power_order(100, 300);
    super::slope::lemma_quotient(num, d);
}

/// Time that has passed is the difference of two instants; time that is still to come
/// counts as none.
pub proof fn law_elapsed_time(then: u64, later: u64)
    requires
        then <= later,
    ensures
        crate::momentum::elapsed(later, then) + then == later,
        crate::momentum::elapsed(then, later) == 0,
{
}

/// The milliseconds that a decay factor is raised to are those since the last frame, but
/// for rounding, up to 33.
pub proof fn law_millis_are_the_time_that_passed(s: MomentumScroller, now: u64)
    ensures
        ({
            let nanos = crate::momentum::elapsed(now, s.last_time);
            let exact = nanos as real / 1000000real;
            let m = s.millis(now);
            &&& m.is_finite()
            &&& nanos <= 32_999_000 ==> crate::ieee::error::size(m.value() - exact) <= exact
                / 1048576real + 1real / 1152921504606846976real
            &&& nanos >= 33_001_000 ==> crate::ieee::error::size(m.value() - 33real) <= 1real
                / 500real
        }),
{
    Single::lemma_least_exactly();
    law_frame_is_the_time_that_passed(s, now);
    super::glide::law_frames_are_capped(s, now);
    lemma_fraction(33, 1000);
    let dt = s.interval(now);
    let k = Single::nearest(1000real);
    Single::law_integer_exact(1000);
    lemma_interval_is_no_less_than_nothing(s, now);
    Single::lemma_in_range(dt.value() * 1000real);
    Single::law_product_is_near(dt, k);
}

proof fn lemma_interval_is_no_less_than_nothing(s: MomentumScroller, now: u64)
    ensures
        s.interval(now).value() >= 0real,
{
    reveal(Single::less);
    let f = Single::format();
    Single::lemma_format();
    Single::lemma_least_exactly();
    let nanos = crate::momentum::elapsed(now, s.last_time);
    super::velocity::lemma_seconds(nanos);
    let secs = crate::momentum::seconds_of(nanos);
    f.lemma_value_zero();
    f.lemma_rounded_at_least(secs.number().negative, secs.value(), 0);
    f.lemma_rounded_holds(secs.number().negative, secs.value());
    Single::lemma_number_of(f.rounded(secs.number().negative, secs.value()));
    lemma_fraction(33, 1000);
}

/// Where the velocity does not decay a frame moves by velocity times time, but for
/// rounding.
pub proof fn law_without_decay_a_frame_moves_by_the_time(
    s: MomentumScroller,
    now: u64,
    decay: Decay,
)
    requires
        is_moderate(s.vx),
        is_moderate(s.vy),
        decay.log_rate.is_finite(),
        crate::ieee::error::size(decay.log_rate.value()) <= 9real / 10000000000real,
    ensures
        ({
            let dt = s.interval(now).value();
            let step = s.displacement(now, decay);
            &&& step.dx.near(s.vx.value() * dt)
            &&& step.dy.near(s.vy.value() * dt)
        }),
{
    reveal(Single::less);
    Single::lemma_format();
    Single::lemma_least_exactly();
    law_frame_is_the_time_that_passed(s, now);
    super::glide::law_frames_are_capped(s, now);
    lemma_fraction(33, 1000);
    lemma_interval_is_no_less_than_nothing(s, now);
    let dt = s.interval(now).value();
    lemma_shrinks(s.vx.value(), dt);
    lemma_shrinks(s.vy.value(), dt);
    Single::lemma_in_range(s.vx.value() * dt);
    Single::lemma_in_range(s.vy.value() * dt);
    Single::law_product_is_near(s.vx, s.interval(now));
    Single::law_product_is_near(s.vy, s.interval(now));
    Single::lemma_magnitude(decay.log_rate);
    lemma_billionth();
}

proof fn lemma_billionth()
    ensures
        Single::fraction(1, 1_000_000_000).near(1real / 1000000000real),
{
    reveal(Single::nearest);
    Single::law_integer_exact(1);
    vstd::arithmetic::power2::lemma2_to64();
    assert(1953125real * 512real == 1_000_000_000real);
    Single::law_dyadic_exact(1953125, 9);
    Single::lemma_in_range(1real / 1000000000real);
    Single::law_quotient_is_near(Single::nearest(1real), Single::nearest(1_000_000_000real));
}

/// A cancelled glide has no velocity left.
pub proof fn law_cancelled_is_at_a_standstill(s: MomentumScroller)
    ensures
        !s.cancelled().active,
        s.cancelled().vx.value() == 0real,
        s.cancelled().vy.value() == 0real,
        s.cancelled().last_time == s.last_time,
{
    Single::lemma_format();
    Single::format().lemma_value_zero();
    assert(Single::zero().value() == 0real);
}

/// Thirty pixels a second are enough: a release whose components are whole numbers glides
/// where its speed is exactly that, whatever its direction.
pub proof fn law_thirty_is_fast_enough(
    s: MomentumScroller,
    vx: Single,
    vy: Single,
    x: int,
    y: int,
    now: u64,
)
    requires
        vx.is_finite(),
        vy.is_finite(),
        vx.value() == x as real,
        vy.value() == y as real,
        x * x + y * y == 900,
    ensures
        s.flung(vx, vy, now).active,
{
    reveal(Single::less);
    Single::lemma_format();
    let a = x * x;
    let b = y * y;
    assert(0 <= a && 0 <= b) by (nonlinear_arith)
        requires
            a == x * x,
            b == y * y,
    ;
    lemma_real_square(x);
    lemma_real_square(y);
    Single::law_whole_product_is_exact(vx, vx, a as nat);
    Single::law_whole_product_is_exact(vy, vy, b as nat);
    Single::law_whole_sum_is_exact(vx.times(vx), vy.times(vy), 900);
    let thirty = Single::nearest(30real);
    Single::law_integer_exact(30);
    assert(30real * 30real == 900real) by (nonlinear_arith);
    Single::law_root_of_a_square(vx.times(vx).plus(vy.times(vy)), thirty);
}

proof fn lemma_real_square(x: int)
    ensures
        x as real * x as real == (x * x) as real,
{
    let n = if x < 0 { (-x) as nat } else { x as nat };
    Format::lemma_real_product(n, n);
    assert(x * x == n * n) by (nonlinear_arith)
        requires
            n == x || n == -x,
    ;
    assert(x as real * x as real == n as real * n as real) by (nonlinear_arith)
        requires
            n as real == x as real || n as real == -(x as real),
    ;
}

} // verus!
