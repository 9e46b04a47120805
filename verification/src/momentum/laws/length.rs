//! How long a glide lasts.

use vstd::prelude::*;
use vstd::arithmetic::power2::*;
use crate::ieee::format::Format;
use crate::ieee::number::Number;
use crate::ieee::single::Single;
use crate::momentum::{Decay, MomentumScroller, MIN_VELOCITY};

verus! {

/// The power of a real.
pub open spec fn power(g: real, n: nat) -> real
    decreases n,
{
    if n == 0 {
        1real
    } else {
        g * power(g, (n - 1) as nat)
    }
}

/// The square of a speed after `n` frames that each keep `g` of it.
#[verifier::opaque]
pub open spec fn speed_squared_after(x: real, y: real, g: real, n: nat) -> real {
    (x * x + y * y) * (power(g, n) * power(g, n))
}

/// Every frame of a run keeps no more than `g` of the velocity, rounding included, and
/// none comes too soon.
pub open spec fn all_keep_at_most(
    s: MomentumScroller,
    frames: Seq<(u64, Decay)>,
    g: real,
) -> bool
    decreases frames.len(),
{
    frames.len() > 0 ==> {
        let frame = frames[0];
        &&& frame.1.factor.is_finite()
        &&& 0real <= frame.1.factor.value()
        &&& frame.1.factor.value() * (1real + Format::exp2(-24)) <= g
        &&& !s.is_too_soon(frame.0)
        &&& all_keep_at_most(s.stepped(frame.0, frame.1), frames.drop_first(), g)
    }
}

/// A glide is over in time: after `n` frames that each keep no more than `g` of the
/// velocity, it has settled where `g^n` times the speed it started with is below the
/// minimum. The 899 stands for the square of that minimum, 900, less what rounding may
/// take.
pub proof fn law_glide_is_over_in_time(
    s: MomentumScroller,
    frames: Seq<(u64, Decay)>,
    x: real,
    y: real,
    g: real,
)
    requires
        s.vx.is_finite(),
        s.vy.is_finite(),
        crate::ieee::error::size(s.vx.value()) <= x,
        crate::ieee::error::size(s.vy.value()) <= y,
        g + Format::exp2(-23) <= 1real,
        all_keep_at_most(s, frames, g),
        frames.len() > 0,
        speed_squared_after(x, y, g, frames.len()) < 899real,
    ensures
        !super::after(s, frames).active,
{
    Format::lemma_exp2_pos(-127);
    lemma_over_in_time(s, frames, x, y, g);
}

proof fn lemma_over_in_time(
    s: MomentumScroller,
    frames: Seq<(u64, Decay)>,
    x: real,
    y: real,
    g: real,
)
    requires
        s.vx.is_finite(),
        s.vy.is_finite(),
        x >= 0real,
        y >= 0real,
        crate::ieee::error::size(s.vx.value()) <= x + Format::exp2(-127),
        crate::ieee::error::size(s.vy.value()) <= y + Format::exp2(-127),
        g + Format::exp2(-23) <= 1real,
        all_keep_at_most(s, frames, g),
        frames.len() > 0,
        speed_squared_after(x, y, g, frames.len()) < 899real,
    ensures
        !super::after(s, frames).active,
    decreases frames.len(),
{
    let frame = frames[0];
    let rest = frames.drop_first();
    let t = s.stepped(frame.0, frame.1);
    if !s.active {
        super::lemma_stays_idle(s, frames);
    } else {
        let gx = g * x;
        let gy = g * y;
        let n = frames.len();
        lemma_component(s.vx, frame.1.factor, x, g);
        lemma_component(s.vy, frame.1.factor, y, g);
        lemma_scaled_squares(x, y, g, (n - 1) as nat);
        if !t.active {
            super::lemma_stays_idle(t, rest);
        } else if n == 1 {
            lemma_not_scaled(gx, gy, g);
            lemma_slow_is_settled(t.vx, t.vy, gx, gy);
        } else {
            lemma_over_in_time(t, rest, gx, gy, g);
        }
    }
}

/// One component over one frame.
proof fn lemma_component(v: Single, k: Single, x: real, g: real)
    requires
        v.is_finite(),
        k.is_finite(),
        x >= 0real,
        0real <= k.value(),
        k.value() * (1real + Format::exp2(-24)) <= g,
        g + Format::exp2(-23) <= 1real,
        crate::ieee::error::size(v.value()) <= x + Format::exp2(-127),
    ensures
        v.times(k).is_finite(),
        g * x >= 0real,
        crate::ieee::error::size(v.times(k).value()) <= g * x + Format::exp2(-127),
{
    Format::lemma_exp2_pos(-24);
    Format::lemma_exp2_pos(-23);
    let kv = k.value();
    let e = Format::exp2(-24);
    assert(kv <= g) by (nonlinear_arith)
        requires
            kv * (1real + e) <= g,
            kv >= 0real,
            e > 0real,
    ;
    assert(g * x >= 0real) by (nonlinear_arith)
        requires
            g >= 0real,
            x >= 0real,
    ;
    Single::law_product_shrinks(v, k);
    lemma_kept(v, k, x, g);
}

proof fn lemma_not_scaled(x: real, y: real, g: real)
    ensures
        speed_squared_after(x, y, g, 0) == x * x + y * y,
{
    reveal(speed_squared_after);
    let z = x * x + y * y;
    assert(z * (1real * 1real) == z) by (nonlinear_arith);
}

proof fn lemma_scaled_squares(x: real, y: real, g: real, n: nat)
    ensures
        speed_squared_after(g * x, g * y, g, n) == speed_squared_after(x, y, g, n + 1),
{
    reveal(speed_squared_after);
    let p = power(g, n);
    let gg = g * g;
    let xx = x * x;
    let yy = y * y;
    let pp = p * p;
    assert((g * x) * (g * x) == gg * xx) by (nonlinear_arith)
        requires
            gg == g * g,
            xx == x * x,
    ;
    assert((g * y) * (g * y) == gg * yy) by (nonlinear_arith)
        requires
            gg == g * g,
            yy == y * y,
    ;
    assert((g * p) * (g * p) == gg * pp) by (nonlinear_arith)
        requires
            gg == g * g,
            pp == p * p,
    ;
    assert((gg * xx + gg * yy) * pp == (xx + yy) * (gg * pp)) by (nonlinear_arith);
}

/// What a frame keeps of a component.
proof fn lemma_kept(v: Single, k: Single, x: real, g: real)
    requires
        v.is_finite(),
        k.is_finite(),
        x >= 0real,
        0real <= k.value() <= 1real,
        k.value() * (1real + Format::exp2(-24)) <= g,
        g + Format::exp2(-23) <= 1real,
        crate::ieee::error::size(v.value()) <= x + Format::exp2(-127),
    ensures
        crate::ieee::error::size(v.times(k).value()) <= g * x + Format::exp2(-127),
{
    reveal(Single::times);
    let f = Single::format();
    Single::lemma_format();
    lemma2_to64();
    let vv = v.value();
    let kv = k.value();
    let a = crate::ieee::error::size(vv);
    let y = vv * kv;
    let z = v.number().negative != k.number().negative;
    let b = crate::ieee::error::size(y);
    f.lemma_zero_value(v.number());
    assert(b == a * kv) by (nonlinear_arith)
        requires
            b == crate::ieee::error::size(y),
            y == vv * kv,
            a == crate::ieee::error::size(vv),
            kv >= 0real,
    ;
    assert(b <= a) by (nonlinear_arith)
        requires
            b == a * kv,
            a >= 0real,
            kv <= 1real,
    ;
    f.lemma_value_increasing(v.number().code as nat, f.infinity as nat);
    f.lemma_rounded_error(z, y);
    f.lemma_rounded_holds(z, y);
    Single::lemma_number_of(f.rounded(z, y));
    f.lemma_value_split(0, 1);
    let w = Format::exp2(-149);
    assert(1real * w == w) by (nonlinear_arith);
    Format::lemma_exp2_step(-150);
    Format::lemma_exp2_pos(-150);
    Format::lemma_exp2_shift(-150, 23);
    let r = crate::ieee::error::size(v.times(k).value());
    let u = Format::exp2(-24);
    let tiny = Format::exp2(-150);
    let small = Format::exp2(-127);
    let gap = Format::exp2(-23);
    Format::lemma_exp2_shift(-24, 24);
    Format::lemma_exp2_shift(-23, 23);
    assert(16777216real * u == 1real);
    assert(8388608real * gap == 1real);
    let bu = b * u;
    assert(bu * 16777216real == b) by (nonlinear_arith)
        requires
            bu == b * u,
            16777216real * u == 1real,
    ;
    assert(r <= b + bu + tiny) by (nonlinear_arith)
        requires
            (r - b) * 16777216real <= b || r <= b + tiny,
            bu * 16777216real == b,
            b >= 0real,
            tiny >= 0real,
    ;
    let c = kv * (1real + u);
    let ac = a * c;
    assert(b + bu == ac) by (nonlinear_arith)
        requires
            b == a * kv,
            bu == b * u,
            c == kv * (1real + u),
            ac == a * c,
    ;
    Format::lemma_exp2_pos(-24);
    assert(c >= 0real) by (nonlinear_arith)
        requires
            c == kv * (1real + u),
            kv >= 0real,
            u > 0real,
    ;
    let ag = a * g;
    assert(ac <= ag) by (nonlinear_arith)
        requires
            ac == a * c,
            ag == a * g,
            a >= 0real,
            c <= g,
    ;
    let sg = small * g;
    let xg = g * x;
    assert(ag <= xg + sg) by (nonlinear_arith)
        requires
            ag == a * g,
            xg == g * x,
            sg == small * g,
            a <= x + small,
            g >= 0real,
    ;
    let sd = small * gap;
    assert(sd == tiny) by (nonlinear_arith)
        requires
            sd == small * gap,
            small == 8388608real * tiny,
            8388608real * gap == 1real,
    ;
    assert(sg + sd <= small) by (nonlinear_arith)
        requires
            sg == small * g,
            sd == small * gap,
            g + gap <= 1real,
            small >= 0real,
    ;
}

/// A velocity well below the minimum speed has settled.
proof fn lemma_slow_is_settled(vx: Single, vy: Single, x: real, y: real)
    requires
        vx.is_finite(),
        vy.is_finite(),
        x >= 0real,
        y >= 0real,
        crate::ieee::error::size(vx.value()) <= x + Format::exp2(-127),
        crate::ieee::error::size(vy.value()) <= y + Format::exp2(-127),
        x * x + y * y < 899real,
    ensures
        crate::momentum::is_settled(vx, vy),
{
    reveal(Single::plus);
    reveal(Single::root);
    reveal(Single::less);
    let f = Single::format();
    Single::lemma_format();
    lemma2_to64();
    let e = Format::exp2(-127);
    Format::lemma_exp2_pos(-127);
    Format::lemma_exp2_shift(-127, 127);
    assert(e * 1000000real <= 1real) by {
        lemma_pow2_strictly_increases(20, 127);
        let p = pow2(127) as real;
        assert(e * 1000000real <= 1real) by (nonlinear_arith)
            requires
                p * e == 1real,
                p >= 1000000real,
                e > 0real,
        ;
    }
    let a = crate::ieee::error::size(vx.value());
    let b = crate::ieee::error::size(vy.value());
    lemma_below_thirty(x, y);
    lemma_below_thirty(y, x);
    lemma_square_of_sum(a, x, e);
    lemma_square_of_sum(b, y, e);
    assert(a * a + b * b <= 8992real / 10real);
    let xx = a * a;
    let yy = b * b;
    assert(xx >= 0real && yy >= 0real) by (nonlinear_arith)
        requires
            xx == a * a,
            yy == b * b,
    ;
    lemma_square(vx);
    lemma_square(vy);
    let p = vx.times(vx);
    let q = vy.times(vy);
    let sum = p.value() + q.value();
    Format::lemma_exp2_shift(-150, 150);
    Format::lemma_exp2_pos(-150);
    let tiny = Format::exp2(-150);
    assert(tiny * 1000000real <= 1real) by {
        lemma_pow2_strictly_increases(20, 150);
        let w = pow2(150) as real;
        assert(tiny * 1000000real <= 1real) by (nonlinear_arith)
            requires
                w * tiny == 1real,
                w >= 1000000real,
                tiny > 0real,
        ;
    }
    Format::lemma_exp2_shift(10, 90);
    lemma_pow2_pos(90);
    let w = pow2(90) as real;
    assert(w * 1024real >= 1024real) by (nonlinear_arith)
        requires
            w >= 1real,
    ;
    let z = p.number().negative && q.number().negative;
    Single::law_rounding_error(z, sum);
    let total = p.plus(q);
    assert(total.value() < 8995real / 10real);
    f.lemma_rounded_at_least(z, sum, 0);
    f.lemma_value_zero();
    f.lemma_zero_value(total.number());
    Single::law_integer_exact(MIN_VELOCITY as nat);
    if total.number().code != 0 {
        let v = total.value();
        f.law_nearest_root_exists(v);
        let r = f.nearest_root(v);
        let c = Single::nearest(MIN_VELOCITY as real).number().code as nat;
        Single::lemma_number_of(Number { negative: false, code: r as u64 });
        if r >= c {
            f.lemma_value_increasing(c, r);
            // 7679 * 2^-8 is just below thirty.
            let j = f.lemma_dyadic(7679, -8);
            let h = Format::exp2(-8);
            Format::lemma_exp2_shift(-8, 8);
            assert(256real * h == 1real);
            if j >= c {
                f.lemma_value_increasing(c, j);
            }
            let both = f.value(j) + f.value(r);
            assert(both * both <= 4real * v);
            assert(both * both > 3598real) by (nonlinear_arith)
                requires
                    both >= 5999real / 100real,
            ;
        } else {
            f.lemma_value_increasing(r, c);
        }
    }
}

proof fn lemma_below_thirty(x: real, y: real)
    requires
        x * x + y * y < 899real,
    ensures
        x <= 30real,
{
    assert(y * y >= 0real) by (nonlinear_arith);
    if x > 30real {
        assert(x * x > 900real) by (nonlinear_arith)
            requires
                x > 30real,
        ;
    }
}

proof fn lemma_square_of_sum(a: real, x: real, e: real)
    requires
        0real <= a <= x + e,
        0real <= x <= 30real,
        e > 0real,
        e * 1000000real <= 1real,
    ensures
        a * a <= x * x + 1real / 10000real,
{
    let s = x + e;
    assert(a * a <= s * s) by (nonlinear_arith)
        requires
            0real <= a <= s,
    ;
    let xe = x * e;
    let ee = e * e;
    assert(s * s == x * x + 2real * xe + ee) by (nonlinear_arith)
        requires
            s == x + e,
            xe == x * e,
            ee == e * e,
    ;
    assert(xe <= 30real * e) by (nonlinear_arith)
        requires
            xe == x * e,
            x <= 30real,
            e > 0real,
    ;
    assert(ee <= e) by (nonlinear_arith)
        requires
            ee == e * e,
            e > 0real,
            e <= 1real,
    ;
}

/// The square of a number, rounded.
proof fn lemma_square(v: Single)
    requires
        v.is_finite(),
        crate::ieee::error::size(v.value()) * crate::ieee::error::size(v.value()) <= 1000real,
    ensures
        ({
            let s = v.times(v);
            let x = crate::ieee::error::size(v.value()) * crate::ieee::error::size(v.value());
            &&& s.is_finite()
            &&& 0real <= s.value() <= x + x / 16777216real + Format::exp2(-150)
        }),
{
    reveal(Single::times);
    let f = Single::format();
    Single::lemma_format();
    lemma2_to64();
    let vv = v.value();
    let a = crate::ieee::error::size(vv);
    let x = vv * vv;
    assert(x == a * a && x >= 0real) by (nonlinear_arith)
        requires
            x == vv * vv,
            a == crate::ieee::error::size(vv),
    ;
    Format::lemma_exp2_shift(10, 90);
    lemma_pow2_pos(90);
    let w = pow2(90) as real;
    assert(w * 1024real >= 1024real) by (nonlinear_arith)
        requires
            w >= 1real,
    ;
    Single::law_rounding_error(false, x);
    f.lemma_value_zero();
    f.lemma_rounded_at_least(false, x, 0);
}

// And for how long it does last.

/// Every frame of a run keeps at least `g` of the velocity, rounding included, and speeds
/// nothing up.
pub open spec fn all_keep_at_least(frames: Seq<(u64, Decay)>, g: real) -> bool {
    forall|i: int|
        0 <= i < frames.len() ==> keeps_at_least((#[trigger] frames[i]).1, g)
}

pub open spec fn keeps_at_least(decay: Decay, g: real) -> bool {
    &&& decay.factor.is_finite()
    &&& decay.factor.value() <= 1real
    &&& g <= decay.factor.value() * (1real - Format::exp2(-24))
}

/// A glide lasts: after `n` frames that each keep at least `g` of the velocity, it still
/// goes on where `g^n` times the speed it started with is above the minimum. The 901
/// stands for the square of that minimum, 900, and what rounding may take.
pub proof fn law_glide_lasts(
    s: MomentumScroller,
    frames: Seq<(u64, Decay)>,
    x: real,
    y: real,
    g: real,
)
    requires
        s.active,
        s.vx.is_finite(),
        s.vy.is_finite(),
        0real <= x <= crate::ieee::error::size(s.vx.value()),
        0real <= y <= crate::ieee::error::size(s.vy.value()),
        g >= 0real,
        all_keep_at_least(frames, g),
        speed_squared_after(x, y, g, frames.len()) > 901real,
    ensures
        super::after(s, frames).active,
{
    Format::lemma_exp2_pos(-126);
    lemma_lasts(s, frames, x, y, g);
}

proof fn lemma_lasts(s: MomentumScroller, frames: Seq<(u64, Decay)>, x: real, y: real, g: real)
    requires
        s.active,
        s.vx.is_finite(),
        s.vy.is_finite(),
        x >= 0real,
        y >= 0real,
        x <= crate::ieee::error::size(s.vx.value()) + Format::exp2(-126),
        y <= crate::ieee::error::size(s.vy.value()) + Format::exp2(-126),
        g >= 0real,
        all_keep_at_least(frames, g),
        speed_squared_after(x, y, g, frames.len()) > 901real,
    ensures
        super::after(s, frames).active,
    decreases frames.len(),
{
    if frames.len() > 0 {
        let frame = frames[0];
        let rest = frames.drop_first();
        let t = s.stepped(frame.0, frame.1);
        let n = frames.len();
        assert(keeps_at_least(frames[0].1, g));
        assert forall|i: int| 0 <= i < rest.len() implies keeps_at_least(
            (#[trigger] rest[i]).1,
            g,
        ) by {
            assert(keeps_at_least(frames[i + 1].1, g));
        }
        lemma_component_kept(s.vx, frame.1, x, g);
        lemma_component_kept(s.vy, frame.1, y, g);
        lemma_scaled_squares(x, y, g, (n - 1) as nat);
        lemma_still_fast(g * x, g * y, g, (n - 1) as nat);
        if !s.is_too_soon(frame.0) {
            lemma_fast_is_not_settled(t.vx, t.vy, g * x, g * y);
        }
        lemma_lasts(t, rest, g * x, g * y, g);
    }
}

/// What a frame leaves of a component, at least; and what it leaves where it comes too
/// soon.
proof fn lemma_component_kept(v: Single, decay: Decay, x: real, g: real)
    requires
        v.is_finite(),
        x >= 0real,
        g >= 0real,
        keeps_at_least(decay, g),
        x <= crate::ieee::error::size(v.value()) + Format::exp2(-126),
    ensures
        g <= 1real,
        0real <= g * x <= x,
        v.times(decay.factor).is_finite(),
        g * x <= crate::ieee::error::size(v.times(decay.factor).value()) + Format::exp2(-126),
{
    reveal(Single::times);
    let f = Single::format();
    Single::lemma_format();
    lemma2_to64();
    let k = decay.factor;
    let kv = k.value();
    let u = Format::exp2(-24);
    Format::lemma_exp2_pos(-24);
    Format::lemma_exp2_shift(-24, 24);
    assert(16777216real * u == 1real);
    assert(kv >= 0real && kv - kv * u <= 1real) by (nonlinear_arith)
        requires
            0real <= kv * (1real - u),
            16777216real * u == 1real,
            kv <= 1real,
    ;
    let c = kv * (1real - u);
    let ku = kv * u;
    assert(c == kv - ku) by (nonlinear_arith)
        requires
            c == kv * (1real - u),
            ku == kv * u,
    ;
    let gx = g * x;
    assert(0real <= gx <= x) by (nonlinear_arith)
        requires
            gx == g * x,
            0real <= g <= 1real,
            x >= 0real,
    ;
    Single::law_product_shrinks(v, k);
    let vv = v.value();
    let a = crate::ieee::error::size(vv);
    let y = vv * kv;
    let b = crate::ieee::error::size(y);
    let z = v.number().negative != k.number().negative;
    f.lemma_zero_value(v.number());
    assert(b == a * kv) by (nonlinear_arith)
        requires
            b == crate::ieee::error::size(y),
            y == vv * kv,
            a == crate::ieee::error::size(vv),
            kv >= 0real,
    ;
    assert(b <= a) by (nonlinear_arith)
        requires
            b == a * kv,
            a >= 0real,
            kv <= 1real,
    ;
    f.lemma_value_increasing(v.number().code as nat, f.infinity as nat);
    f.lemma_rounded_error(z, y);
    f.lemma_rounded_holds(z, y);
    Single::lemma_number_of(f.rounded(z, y));
    f.lemma_value_split(0, 1);
    let w = Format::exp2(-149);
    assert(1real * w == w) by (nonlinear_arith);
    Format::lemma_exp2_step(-150);
    Format::lemma_exp2_pos(-150);
    Format::lemma_exp2_shift(-150, 24);
    let tiny = Format::exp2(-150);
    let e = Format::exp2(-126);
    let r = crate::ieee::error::size(v.times(k).value());
    let bu = b * u;
    assert(bu * 16777216real == b) by (nonlinear_arith)
        requires
            bu == b * u,
            16777216real * u == 1real,
    ;
    let d = crate::ieee::error::size(v.times(k).value() - y);
    assert(r >= b - bu - tiny) by (nonlinear_arith)
        requires
            b - r <= d,
            d * 16777216real <= b || d <= tiny,
            bu * 16777216real == b,
            b >= 0real,
            tiny >= 0real,
    ;
    let ac = a * c;
    assert(b - bu == ac) by (nonlinear_arith)
        requires
            b == a * kv,
            bu == b * u,
            c == kv * (1real - u),
            ac == a * c,
    ;
    let eu = e * u;
    assert(eu == tiny) by (nonlinear_arith)
        requires
            eu == e * u,
            e == 16777216real * tiny,
            16777216real * u == 1real,
    ;
    // x c is at least g x, and e c at most e less the tiny number.
    let xc = x * c;
    let ec = e * c;
    assert(xc >= gx) by (nonlinear_arith)
        requires
            xc == x * c,
            gx == g * x,
            c >= g,
            x >= 0real,
    ;
    assert(xc <= ac + ec) by (nonlinear_arith)
        requires
            xc == x * c,
            ac == a * c,
            ec == e * c,
            x <= a + e,
            c >= 0real,
    ;
    assert(c <= 1real - u) by (nonlinear_arith)
        requires
            c == kv * (1real - u),
            kv <= 1real,
            16777216real * u == 1real,
    ;
    assert(ec + eu <= e) by (nonlinear_arith)
        requires
            ec == e * c,
            eu == e * u,
            c <= 1real - u,
            e > 0real,
    ;
}

/// What is fast after some more frames is fast before them.
proof fn lemma_still_fast(x: real, y: real, g: real, n: nat)
    requires
        0real <= g <= 1real,
        speed_squared_after(x, y, g, n) > 901real,
    ensures
        x * x + y * y > 901real,
{
    reveal(speed_squared_after);
    lemma_power(g, n);
    let p = power(g, n);
    let q = p * p;
    let z = x * x + y * y;
    assert(0real <= q <= 1real) by (nonlinear_arith)
        requires
            q == p * p,
            0real <= p <= 1real,
    ;
    assert(z > 901real) by (nonlinear_arith)
        requires
            z * q > 901real,
            0real <= q <= 1real,
    ;
}

proof fn lemma_power(g: real, n: nat)
    requires
        0real <= g <= 1real,
    ensures
        0real <= power(g, n) <= 1real,
    decreases n,
{
    if n > 0 {
        lemma_power(g, (n - 1) as nat);
        let p = power(g, (n - 1) as nat);
        assert(0real <= g * p <= 1real) by (nonlinear_arith)
            requires
                0real <= g <= 1real,
                0real <= p <= 1real,
        ;
    }
}

/// The square of a number is at least a thousand, or not far below the exact one.
proof fn lemma_square_at_least(v: Single)
    requires
        v.is_finite(),
    ensures
        ({
            let s = v.times(v);
            let x = crate::ieee::error::size(v.value()) * crate::ieee::error::size(v.value());
            &&& !s.is_nan()
            &&& s.value() >= 0real
            &&& x >= 1000real ==> s.value() >= 1000real
            &&& x < 1000real ==> s.is_finite() && s.value() >= x - x / 16777216real
                - Format::exp2(-150)
        }),
{
    reveal(Single::times);
    let f = Single::format();
    Single::lemma_format();
    lemma2_to64();
    let vv = v.value();
    let a = crate::ieee::error::size(vv);
    let x = vv * vv;
    assert(x == a * a && x >= 0real) by (nonlinear_arith)
        requires
            x == vv * vv,
            a == crate::ieee::error::size(vv),
    ;
    f.lemma_value_zero();
    f.lemma_rounded_at_least(false, x, 0);
    f.lemma_rounded_holds(false, x);
    Single::lemma_number_of(f.rounded(false, x));
    f.lemma_zero_value(f.rounded(false, x));
    if x >= 1000real {
        let code = f.lemma_dyadic(1000, 0);
        assert(1000real * 1real == 1000real) by (nonlinear_arith);
        f.lemma_rounded_at_least(false, x, code);
    } else {
        Format::lemma_exp2_shift(10, 90);
        lemma_pow2_pos(90);
        let w = pow2(90) as real;
        assert(w * 1024real >= 1024real) by (nonlinear_arith)
            requires
                w >= 1real,
        ;
        Single::law_rounding_error(false, x);
    }
}

/// A velocity above the minimum speed has not settled.
proof fn lemma_fast_is_not_settled(vx: Single, vy: Single, x: real, y: real)
    requires
        vx.is_finite(),
        vy.is_finite(),
        x >= 0real,
        y >= 0real,
        x <= crate::ieee::error::size(vx.value()) + Format::exp2(-126),
        y <= crate::ieee::error::size(vy.value()) + Format::exp2(-126),
        x * x + y * y > 901real,
    ensures
        !crate::momentum::is_settled(vx, vy),
{
    reveal(Single::plus);
    let f = Single::format();
    Single::lemma_format();
    lemma2_to64();
    lemma_square_at_least(vx);
    lemma_square_at_least(vy);
    let a = crate::ieee::error::size(vx.value());
    let b = crate::ieee::error::size(vy.value());
    let p = vx.times(vx);
    let q = vy.times(vy);
    let total = p.plus(q);
    f.lemma_zero_value(p.number());
    f.lemma_zero_value(q.number());
    let sum = p.value() + q.value();
    let code = f.lemma_dyadic(900, 0);
    assert(900real * 1real == 900real) by (nonlinear_arith);
    let aa = a * a;
    let bb = b * b;
    if aa < 1000real && bb < 1000real {
        let e = Format::exp2(-126);
        Format::lemma_exp2_pos(-126);
        Format::lemma_exp2_shift(-126, 126);
        assert(e * 1000000real <= 1real) by {
            lemma_pow2_strictly_increases(20, 126);
            let w = pow2(126) as real;
            assert(e * 1000000real <= 1real) by (nonlinear_arith)
                requires
                    w * e == 1real,
                    w >= 1000000real,
                    e > 0real,
            ;
        }
        lemma_square_near(a, x, e);
        lemma_square_near(b, y, e);
        Format::lemma_exp2_shift(-150, 24);
        Format::lemma_exp2_pos(-150);
        let tiny = Format::exp2(-150);
        assert(tiny <= e) by (nonlinear_arith)
            requires
                e == 16777216real * tiny,
                tiny > 0real,
        ;
        assert(sum >= 900real);
    }
    assert(sum >= 900real);
    let z = p.number().negative && q.number().negative;
    if p.is_infinite() || q.is_infinite() {
        f.lemma_value_increasing(code, f.infinity as nat);
        Single::lemma_number_of(f.signed_infinity(false));
        p.lemma_of_number();
        q.lemma_of_number();
        f.lemma_value_increasing(0, f.infinity as nat);
        f.lemma_value_zero();
    } else {
        f.lemma_rounded_at_least(z, sum, code);
        f.lemma_rounded_holds(z, sum);
        Single::lemma_number_of(f.rounded(z, sum));
    }
    lemma_root_of_fast(total);
}

/// A speed whose square is nine hundred or more is thirty or more.
proof fn lemma_root_of_fast(total: Single)
    requires
        !total.is_nan(),
        !total.number().negative,
        total.value() >= 900real,
    ensures
        !total.root().less(Single::nearest(MIN_VELOCITY as real)),
{
    reveal(Single::root);
    reveal(Single::less);
    let f = Single::format();
    Single::lemma_format();
    f.lemma_zero_value(total.number());
    Single::law_integer_exact(MIN_VELOCITY as nat);
    let c = Single::nearest(MIN_VELOCITY as real).number().code as nat;
    if total.is_infinite() {
        total.lemma_of_number();
        f.lemma_value_increasing(c, f.infinity as nat);
    } else {
        let v = total.value();
        f.law_nearest_root_exists(v);
        let r = f.nearest_root(v);
        Single::lemma_number_of(Number { negative: false, code: r as u64 });
        f.lemma_value_zero();
        f.lemma_value_increasing(0, r);
        if r < c {
            f.lemma_value_increasing(r, c);
            let both = f.value(c) + f.value(r);
            assert(4real * v <= both * both);
            assert(both * both < 3600real) by (nonlinear_arith)
                requires
                    0real <= both < 60real,
            ;
        } else {
            f.lemma_value_increasing(c, r);
        }
    }
}

/// The square of what is not far below a number is not far below its square.
proof fn lemma_square_near(a: real, x: real, e: real)
    requires
        0real <= a,
        0real <= x <= a + e,
        a * a < 1000real,
        e > 0real,
        e * 1000000real <= 1real,
    ensures
        a * a >= x * x - 1real / 10000real,
{
    if a > 32real {
        assert(a * a > 1024real) by (nonlinear_arith)
            requires
                a > 32real,
        ;
    }
    let s = a + e;
    assert(x * x <= s * s) by (nonlinear_arith)
        requires
            0real <= x <= s,
    ;
    let ae = a * e;
    let ee = e * e;
    assert(s * s == a * a + 2real * ae + ee) by (nonlinear_arith)
        requires
            s == a + e,
            ae == a * e,
            ee == e * e,
    ;
    assert(ae <= 32real * e) by (nonlinear_arith)
        requires
            ae == a * e,
            a <= 32real,
            e > 0real,
    ;
    assert(ee <= e) by (nonlinear_arith)
        requires
            ee == e * e,
            e > 0real,
            e <= 1real,
    ;
}

} // verus!
