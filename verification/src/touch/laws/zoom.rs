//! What a pinch is, measured.

use vstd::prelude::*;
use crate::geometry::Point;
use crate::ieee::format::Format;
use crate::ieee::single::Single;
use crate::input::{PlatformInput, TouchPhase};
use crate::momentum::RecencyWeights;
use super::super::{Fingers, Gesture, PHASE_BEGAN, PHASE_MOVED};

verus! {

/// The square of the distance between two points.
pub open spec fn distance_squared(a: Point, b: Point) -> real {
    let dx = b.x.value() - a.x.value();
    let dy = b.y.value() - a.y.value();
    dx * dx + dy * dy
}

/// A number is the distance between two points, but for rounding.
pub open spec fn is_separation(d: Single, a: Point, b: Point) -> bool {
    let r = distance_squared(a, b);
    &&& d.is_finite()
    &&& d.value() >= 0real
    &&& crate::ieee::error::size(d.value() * d.value() - r) <= r / 1048576real + 1real
        / 1152921504606846976real
}

/// A square of what is near is near the square.
proof fn lemma_square_near(h: real, x: real, e: real)
    requires
        crate::ieee::error::size(x) <= 4000000000real,
        0real < e <= 1real / 1329227995784915872903807060280344576real,
        crate::ieee::error::size(h - x) <= crate::ieee::error::size(x) / 16777216real + e,
    ensures
        x * x >= 0real,
        crate::ieee::error::size(h * h - x * x) <= (x * x) / 4194304real + 1real
            / 10000000000000000000000000real,
        crate::ieee::error::size(h) <= 5000000000real,
{
    let m = crate::ieee::error::size(x);
    let g = h - x;
    let t = crate::ieee::error::size(g);
    let mm = m * m;
    assert(x * x == mm) by (nonlinear_arith)
        requires
            x == m || x == -m,
            mm == m * m,
    ;
    assert(mm >= 0real) by (nonlinear_arith)
        requires
            mm == m * m,
    ;
    let u = m / 16777216real;
    assert(h * h - x * x == 2real * (x * g) + g * g) by (nonlinear_arith)
        requires
            g == h - x,
    ;
    let mt = m * t;
    let tt = t * t;
    assert(x * g == mt || x * g == -mt) by (nonlinear_arith)
        requires
            x == m || x == -m,
            g == t || g == -t,
            mt == m * t,
    ;
    assert(g * g == tt && tt >= 0real) by (nonlinear_arith)
        requires
            g == t || g == -t,
            tt == t * t,
    ;
    assert(0real <= mt <= m * u + m * e) by (nonlinear_arith)
        requires
            mt == m * t,
            0real <= t <= u + e,
            m >= 0real,
    ;
    assert(m * u == mm / 16777216real) by (nonlinear_arith)
        requires
            u == m / 16777216real,
            mm == m * m,
    ;
    let me = m * e;
    assert(0real <= me <= 4000000000real * e) by (nonlinear_arith)
        requires
            me == m * e,
            0real <= m <= 4000000000real,
            e > 0real,
    ;
    assert(tt <= u * u + 2real * (u * e) + e * e) by (nonlinear_arith)
        requires
            tt == t * t,
            0real <= t <= u + e,
    ;
    assert(u * u <= mm / 16777216real) by (nonlinear_arith)
        requires
            u == m / 16777216real,
            mm == m * m,
            m >= 0real,
    ;
    assert(u * e <= me) by (nonlinear_arith)
        requires
            u <= m,
            me == m * e,
            e > 0real,
    ;
    assert(e * e <= e) by (nonlinear_arith)
        requires
            0real < e <= 1real,
    ;
    let diff = h * h - x * x;
    assert(tt <= mm / 16777216real + 2real * me + e);
    assert(2real * mt <= mm / 8388608real + 2real * me);
    assert(crate::ieee::error::size(diff) <= 2real * mt + tt);
    assert(4real * me + e <= 16000000001real * e);
    assert(16000000001real * e <= 1real / 10000000000000000000000000real) by (nonlinear_arith)
        requires
            e <= 1real / 1329227995784915872903807060280344576real,
    ;
}

/// The distance that a pinch works with is the one between the first two fingers.
proof fn lemma_separation(fingers: Fingers)
    requires
        fingers.len() >= 2,
        super::drag::is_within(fingers[0].1, 1000000000real),
        super::drag::is_within(fingers[1].1, 1000000000real),
    ensures
        is_separation(super::super::pinch_distance(fingers), fingers[0].1, fingers[1].1),
        super::super::pinch_distance(fingers).value() <= 8000000000real,
{
    Single::lemma_least_exactly();
    let e = Format::exp2(-150);
    let a = fingers[0].1;
    let b = fingers[1].1;
    let x = b.x.value() - a.x.value();
    let y = b.y.value() - a.y.value();
    Single::lemma_in_range(x);
    Single::lemma_in_range(y);
    Single::law_difference_is_near(b.x, a.x);
    Single::law_difference_is_near(b.y, a.y);
    let dx = b.x.minus(a.x);
    let dy = b.y.minus(a.y);
    lemma_square_near(dx.value(), x, e);
    lemma_square_near(dy.value(), y, e);
    lemma_square_of(dx);
    lemma_square_of(dy);
    let p = dx.times(dx);
    let q = dy.times(dy);
    let xx = x * x;
    let yy = y * y;
    Single::lemma_in_range(p.value() + q.value());
    Single::law_sum_is_near(p, q);
    crate::momentum::laws::release::lemma_sum_sign(p, q);
    let s = p.plus(q);
    Single::law_root_is_near(s);
    let d = s.root().value();
    let dd = d * d;
    let r = xx + yy;
    assert(dd <= 64000000000000000000real);
    assert(d <= 8000000000real) by (nonlinear_arith)
        requires
            d * d <= 64000000000000000000real,
    ;
}

proof fn lemma_square_of(a: Single)
    requires
        a.is_finite(),
        crate::ieee::error::size(a.value()) <= 5000000000real,
    ensures
        ({
            let x = a.value() * a.value();
            &&& 0real <= x <= 25000000000000000000real
            &&& a.times(a).near(x)
            &&& a.times(a).value() >= 0real
        }),
{
    let v = a.value();
    let x = v * v;
    assert(0real <= x <= 25000000000000000000real) by (nonlinear_arith)
        requires
            x == v * v,
            -5000000000real <= v <= 5000000000real,
    ;
    Single::lemma_in_range(x);
    Single::law_product_is_near(a, a);
    crate::momentum::laws::release::lemma_square_sign(a);
}

/// After every touch-down and every move that leaves two fingers or more down, the
/// separation that the next pinch is taken against is the present distance of the first
/// two, but for rounding.
pub proof fn law_pinch_is_taken_against_the_present(
    g: Gesture,
    id: u64,
    phase: i32,
    pos: Point,
    now: u64,
    weights: RecencyWeights,
)
    requires
        phase == PHASE_BEGAN || phase == PHASE_MOVED,
        g.touched(id, phase, pos, now, weights).active.len() >= 2,
        super::drag::is_within(
            g.touched(id, phase, pos, now, weights).active[0].1,
            1000000000real,
        ),
        super::drag::is_within(
            g.touched(id, phase, pos, now, weights).active[1].1,
            1000000000real,
        ),
    ensures
        ({
            let after = g.touched(id, phase, pos, now, weights);
            after.pinch_prev_dist matches Some(d) && is_separation(
                d,
                after.active[0].1,
                after.active[1].1,
            )
        }),
{
    lemma_separation(g.touched(id, phase, pos, now, weights).active);
}

/// A coordinate halfway between two others, but for rounding.
pub open spec fn is_midway(c: Single, a: Single, b: Single) -> bool {
    let exact = (a.value() + b.value()) / 2real;
    &&& c.is_finite()
    &&& crate::ieee::error::size(c.value() - exact) <= crate::ieee::error::size(exact)
        / 4194304real + 1real / 1152921504606846976real
}

proof fn lemma_midway(a: Single, b: Single)
    requires
        a.is_finite(),
        b.is_finite(),
        crate::ieee::error::size(a.value()) <= 1000000000real,
        crate::ieee::error::size(b.value()) <= 1000000000real,
    ensures
        is_midway(a.plus(b).over(Single::nearest(2real)), a, b),
{
    Single::lemma_least_exactly();
    let x = a.value() + b.value();
    Single::lemma_in_range(x);
    Single::law_sum_is_near(a, b);
    let s = a.plus(b);
    let two = Single::nearest(2real);
    Single::law_integer_exact(2);
    Single::lemma_in_range(s.value() / 2real);
    Single::law_quotient_is_near(s, two);
}

/// A pinch starts midway between the first two fingers, with no change of their
/// separation.
pub proof fn law_pinch_starts_midway(g: Gesture, id: u64, pos: Point, now: u64)
    requires
        g.began(id, pos, now).active.len() >= 2,
        super::drag::is_within(g.began(id, pos, now).active[0].1, 1000000000real),
        super::drag::is_within(g.began(id, pos, now).active[1].1, 1000000000real),
    ensures
        ({
            let a = g.began(id, pos, now).active[0].1;
            let b = g.began(id, pos, now).active[1].1;
            g.began_events(id, pos).last() matches PlatformInput::Pinch(e) && {
                &&& e.phase == TouchPhase::Started
                &&& e.delta.value() == 0real
                &&& is_midway(e.position.x, a.x, b.x)
                &&& is_midway(e.position.y, a.y, b.y)
            }
        }),
{
    let a = g.began(id, pos, now).active[0].1;
    let b = g.began(id, pos, now).active[1].1;
    lemma_midway(a.x, b.x);
    lemma_midway(a.y, b.y);
    Single::lemma_format();
    Single::format().lemma_value_zero();
    assert(Single::zero().value() == 0real);
}

/// A change of separation turns one into another, but for rounding.
pub open spec fn is_change(delta: Single, from: real, to: real) -> bool {
    &&& delta.is_finite()
    &&& crate::ieee::error::size((1real + delta.value()) * from - to) <= (from + to) / 4194304real
}

/// Every move of a pinch is one event, midway between the first two fingers, whose change
/// of separation turns the one before into the present one.
pub proof fn law_pinch_delta_is_the_change(
    g: Gesture,
    id: u64,
    pos: Point,
    now: u64,
    prev: Single,
)
    requires
        g.moved(id, pos, now).active.len() >= 2,
        super::drag::is_within(g.moved(id, pos, now).active[0].1, 1000000000real),
        super::drag::is_within(g.moved(id, pos, now).active[1].1, 1000000000real),
        g.pinch_prev_dist == Some(prev),
        prev.is_finite(),
        1real / 8388608real < prev.value() <= 8000000000real,
    ensures
        ({
            let after = g.moved(id, pos, now);
            let a = after.active[0].1;
            let b = after.active[1].1;
            let events = g.moved_events(id, pos);
            &&& events.len() == 1
            &&& events[0] matches PlatformInput::Pinch(e) && {
                &&& e.phase == TouchPhase::Moved
                &&& is_midway(e.position.x, a.x, b.x)
                &&& is_midway(e.position.y, a.y, b.y)
                &&& after.pinch_prev_dist matches Some(d) && {
                    &&& is_separation(d, a, b)
                    &&& is_change(e.delta, prev.value(), d.value())
                }
            }
        }),
{
    reveal(Single::less);
    let after = g.moved(id, pos, now);
    let a = after.active[0].1;
    let b = after.active[1].1;
    lemma_midway(a.x, b.x);
    lemma_midway(a.y, b.y);
    lemma_separation(after.active);
    let d = super::super::pinch_distance(after.active);
    vstd::arithmetic::power2::lemma2_to64();
    Single::law_power_fraction(23);
    Format::lemma_exp2_shift(-23, 23);
    Single::lemma_format();
    let least = Single::fraction(1, 0x80_0000);
    assert(8388608real * Format::exp2(-23) == 1real);
    assert(least.less(prev));
    lemma_change(d, prev);
}

/// Where there is no separation to speak of, there is no change of it: a move from fingers
/// in one place, within `2^-23` of a pixel, is no event.
pub proof fn law_no_pinch_from_one_place(g: Gesture, id: u64, pos: Point, now: u64)
    requires
        g.moved(id, pos, now).active.len() >= 2,
        g.pinch_prev_dist matches Some(prev) ==> !prev.is_nan() && prev.value() <= 1real
            / 8388608real,
    ensures
        g.moved_events(id, pos).len() == 0,
{
    reveal(Single::less);
    vstd::arithmetic::power2::lemma2_to64();
    Single::law_power_fraction(23);
    Format::lemma_exp2_shift(-23, 23);
    assert(8388608real * Format::exp2(-23) == 1real);
}

proof fn lemma_change(d: Single, prev: Single)
    requires
        d.is_finite(),
        prev.is_finite(),
        0real <= d.value() <= 8000000000real,
        1real / 8388608real < prev.value() <= 8000000000real,
    ensures
        is_change(d.over(prev).minus(Single::nearest(1real)), prev.value(), d.value()),
{
    Single::lemma_least_exactly();
    let e = Format::exp2(-150);
    let p = prev.value();
    let x = d.value();
    let q = x / p;
    assert(q * p == x) by (nonlinear_arith)
        requires
            q == x / p,
            p > 0real,
    ;
    assert(0real <= q <= 100000000000000000real) by (nonlinear_arith)
        requires
            q * p == x,
            0real <= x <= 8000000000real,
            p >= 1real / 8388608real,
    ;
    Single::lemma_in_range(q);
    Single::law_quotient_is_near(d, prev);
    let r = d.over(prev);
    let one = Single::nearest(1real);
    Single::law_integer_exact(1);
    let y = r.value() - 1real;
    Single::lemma_in_range(y);
    Single::law_difference_is_near(r, one);
    let delta = r.minus(one).value();
    let miss = 1real + delta - q;
    let bound = (3real * q + 2real) / 16777216real;
    assert(crate::ieee::error::size(miss) <= bound);
    let m = crate::ieee::error::size(miss);
    assert((1real + delta) * p - x == miss * p) by (nonlinear_arith)
        requires
            miss == 1real + delta - q,
            q * p == x,
    ;
    assert(0real <= m * p <= bound * p) by (nonlinear_arith)
        requires
            0real <= m <= bound,
            p > 0real,
    ;
    assert(bound * p == (3real * x + 2real * p) / 16777216real) by (nonlinear_arith)
        requires
            bound == (3real * q + 2real) / 16777216real,
            q * p == x,
    ;
    assert(miss * p == m * p || miss * p == -(m * p)) by (nonlinear_arith)
        requires
            miss == m || miss == -m,
    ;
}

// A run of moves.

/// The gesture after some moves of a pinch: which finger, where, when.
pub open spec fn pinched(g: Gesture, moves: Seq<(u64, Point, u64)>) -> Gesture
    decreases moves.len(),
{
    if moves.len() == 0 {
        g
    } else {
        let m = moves.last();
        pinched(g, moves.drop_last()).moved(m.0, m.1, m.2)
    }
}

/// The events of the last of some moves.
pub open spec fn last_events(g: Gesture, moves: Seq<(u64, Point, u64)>) -> Seq<PlatformInput> {
    pinched(g, moves.drop_last()).moved_events(moves.last().0, moves.last().1)
}

/// The separation that a pinch is at.
pub open spec fn separation(g: Gesture) -> real {
    match g.pinch_prev_dist {
        Some(d) => d.value(),
        None => 0real,
    }
}

/// The first two fingers are down, and some way apart.
pub open spec fn is_pinching(g: Gesture) -> bool {
    &&& g.active.len() >= 2
    &&& super::drag::is_within(g.active[0].1, 1000000000real)
    &&& super::drag::is_within(g.active[1].1, 1000000000real)
    &&& g.pinch_prev_dist matches Some(d) && d.is_finite() && 1real / 8388608real < d.value()
        <= 8000000000real
}

/// The fingers stay apart, and no move closes them by more than a factor of sixteen.
pub open spec fn pinches(g: Gesture, moves: Seq<(u64, Point, u64)>) -> bool
    decreases moves.len(),
{
    &&& is_pinching(pinched(g, moves))
    &&& moves.len() > 0 ==> {
        &&& pinches(g, moves.drop_last())
        &&& separation(pinched(g, moves.drop_last())) <= 16real * separation(pinched(g, moves))
    }
}

/// The changes of some moves, one after the other: the product of one plus each.
pub open spec fn magnification(g: Gesture, moves: Seq<(u64, Point, u64)>) -> real
    decreases moves.len(),
{
    if moves.len() == 0 {
        1real
    } else {
        let before = magnification(g, moves.drop_last());
        match last_events(g, moves)[0] {
            PlatformInput::Pinch(e) => before * (1real + e.delta.value()),
            _ => before,
        }
    }
}

/// Over a run of pinch moves the changes multiply to the last separation over the first,
/// but for the rounding of each, which is one part in `2^17`.
pub proof fn law_pinch_changes_multiply(g: Gesture, moves: Seq<(u64, Point, u64)>)
    requires
        pinches(g, moves),
    ensures
        ({
            let whole = magnification(g, moves) * separation(g);
            let last = separation(pinched(g, moves));
            let low = crate::momentum::laws::length::power(131071real / 131072real, moves.len());
            let high = crate::momentum::laws::length::power(131073real / 131072real, moves.len());
            &&& moves.len() > 0 ==> {
                let after = pinched(g, moves);
                is_separation(after.pinch_prev_dist->0, after.active[0].1, after.active[1].1)
            }
            &&& last * low <= whole <= last * high
        }),
    decreases moves.len(),
{
    let first = separation(g);
    let a = 131071real / 131072real;
    let b = 131073real / 131072real;
    if moves.len() == 0 {
        assert(1real * first == first && first * 1real == first) by (nonlinear_arith);
    } else {
        let rest = moves.drop_last();
        let n = rest.len();
        law_pinch_changes_multiply(g, rest);
        let before = pinched(g, rest);
        let m = moves.last();
        let prev = before.pinch_prev_dist->0;
        assert(is_pinching(before)) by {
            assert(pinches(g, rest));
        }
        law_pinch_delta_is_the_change(before, m.0, m.1, m.2, prev);
        let e = last_events(g, moves)[0]->Pinch_0;
        let after = pinched(g, moves);
        let p = prev.value();
        let d = separation(after);
        let c = 1real + e.delta.value();
        let s = magnification(g, rest);
        let low = crate::momentum::laws::length::power(a, n);
        let high = crate::momentum::laws::length::power(b, n);
        lemma_power_is_positive(a, n);
        lemma_power_is_positive(b, n);
        let whole = s * first;
        let cp = c * p;
        assert(a * d <= cp <= b * d);
        assert(cp > 0real && c > 0real) by (nonlinear_arith)
            requires
                a * d <= cp,
                a == 131071real / 131072real,
                d > 0real,
                cp == c * p,
                p > 0real,
        ;
        assert((s * c) * first == c * whole) by (nonlinear_arith)
            requires
                whole == s * first,
        ;
        lemma_multiplies(c, p, d, low, high, whole, a, b);
    }
}

proof fn lemma_power_is_positive(g: real, n: nat)
    requires
        g > 0real,
    ensures
        crate::momentum::laws::length::power(g, n) > 0real,
    decreases n,
{
    if n > 0 {
        lemma_power_is_positive(g, (n - 1) as nat);
        let p = crate::momentum::laws::length::power(g, (n - 1) as nat);
        assert(g * p > 0real) by (nonlinear_arith)
            requires
                g > 0real,
                p > 0real,
        ;
    }
}

proof fn lemma_multiplies(
    c: real,
    p: real,
    d: real,
    low: real,
    high: real,
    whole: real,
    a: real,
    b: real,
)
    requires
        c > 0real,
        low > 0real,
        high > 0real,
        p * low <= whole <= p * high,
        a * d <= c * p <= b * d,
    ensures
        d * (a * low) <= c * whole <= d * (b * high),
{
    let cp = c * p;
    let ad = a * d;
    let bd = b * d;
    assert(cp * low <= c * whole) by (nonlinear_arith)
        requires
            cp == c * p,
            p * low <= whole,
            c > 0real,
    ;
    assert(c * whole <= cp * high) by (nonlinear_arith)
        requires
            cp == c * p,
            whole <= p * high,
            c > 0real,
    ;
    assert(ad * low <= cp * low) by (nonlinear_arith)
        requires
            ad <= cp,
            low > 0real,
    ;
    assert(cp * high <= bd * high) by (nonlinear_arith)
        requires
            cp <= bd,
            high > 0real,
    ;
    assert(ad * low == d * (a * low)) by (nonlinear_arith)
        requires
            ad == a * d,
    ;
    assert(bd * high == d * (b * high)) by (nonlinear_arith)
        requires
            bd == b * d,
    ;
}

} // verus!
