//! What the gestures promise, over one touch, one drag, or a whole history.

pub mod drag;
pub mod fingers;
pub mod glide;
pub mod zoom;

use vstd::prelude::*;
use crate::geometry::{Point, Size};
use crate::ieee::format::Format;
use crate::ieee::single::Single;
use crate::input::{PlatformInput, TouchPhase};
use crate::momentum::{Decay, RecencyWeights};
use super::{
    AxisLock,
    Gesture,
    LockedAxis,
    AXIS_LOCK_THRESHOLD_PX,
    PHASE_BEGAN,
    PHASE_CANCELLED,
    PHASE_ENDED,
    PHASE_MOVED,
};

verus! {

// One touch.

/// An unknown phase is ignored: no events, nothing changes.
pub proof fn law_unknown_phase_is_ignored(
    g: Gesture,
    id: u64,
    phase: i32,
    pos: Point,
    now: u64,
    weights: RecencyWeights,
)
    requires
        phase != PHASE_BEGAN,
        phase != PHASE_MOVED,
        phase != PHASE_ENDED,
        phase != PHASE_CANCELLED,
    ensures
        g.touched(id, phase, pos, now, weights) == g,
        g.touched_events(id, phase, pos, now, weights).len() == 0,
{
}

/// A finger that touched down or moved is down, where it was last seen; no other
/// finger is affected.
pub proof fn law_touches_are_tracked(g: Gesture, id: u64, pos: Point, now: u64, other: u64)
    requires
        g.wf(),
        other != id,
    ensures
        super::position_of(g.began(id, pos, now).active, id) == Some(pos),
        super::position_of(g.moved(id, pos, now).active, id) == Some(pos),
        super::position_of(g.began(id, pos, now).active, other) == super::position_of(
            g.active,
            other,
        ),
        super::position_of(g.moved(id, pos, now).active, other) == super::position_of(
            g.active,
            other,
        ),
{
    lemma_upserted(g.active, id, pos, other);
}

proof fn lemma_slot(fingers: super::Fingers, i: int)
    requires
        super::distinct(fingers),
        0 <= i < fingers.len(),
    ensures
        super::is_down(fingers, fingers[i].0),
        super::slot_of(fingers, fingers[i].0) == i,
{
    let id = fingers[i].0;
    assert(fingers[i].0 == id);
    let j = super::slot_of(fingers, id);
    assert(fingers[j].0 == id);
}

proof fn lemma_upserted(fingers: super::Fingers, id: u64, pos: Point, other: u64)
    requires
        super::distinct(fingers),
        other != id,
    ensures
        super::distinct(super::upserted(fingers, id, pos)),
        super::position_of(super::upserted(fingers, id, pos), id) == Some(pos),
        super::position_of(super::upserted(fingers, id, pos), other) == super::position_of(
            fingers,
            other,
        ),
{
    let after = super::upserted(fingers, id, pos);
    let k = if super::is_down(fingers, id) {
        super::slot_of(fingers, id)
    } else {
        fingers.len() as int
    };
    assert(after[k] == (id, pos));
    assert(super::distinct(after));
    lemma_slot(after, k);
    if super::is_down(fingers, other) {
        let j = super::slot_of(fingers, other);
        assert(after[j] == fingers[j]);
        lemma_slot(after, j);
    } else if super::is_down(after, other) {
        let j = super::slot_of(after, other);
        assert(after[j].0 == other);
        assert(fingers[j].0 == other);
    }
}

/// A finger that lifted is no longer down; the others are where they were, in the
/// same order.
pub proof fn law_lifted_finger_is_gone(
    g: Gesture,
    id: u64,
    pos: Point,
    cancelled: bool,
    now: u64,
    weights: RecencyWeights,
    other: u64,
)
    requires
        g.wf(),
        other != id,
    ensures
        !super::is_down(g.ended(id, pos, cancelled, now, weights).active, id),
        super::position_of(g.ended(id, pos, cancelled, now, weights).active, other)
            == super::position_of(g.active, other),
        super::is_down(g.active, id) ==> g.ended(id, pos, cancelled, now, weights).active.len()
            == g.active.len() - 1,
{
    let fingers = g.active;
    let after = super::removed(fingers, id);
    if super::is_down(fingers, id) {
        let k = super::slot_of(fingers, id);
        if super::is_down(after, id) {
            let j = super::slot_of(after, id);
            assert(after[j].0 == id);
            assert(after[j] == fingers[if j < k { j } else { j + 1 }]);
        }
        assert(super::distinct(after)) by {
            assert forall|i: int, j: int| 0 <= i < j < after.len() implies #[trigger] after[i].0
                != #[trigger] after[j].0 by {
                assert(after[i] == fingers[if i < k { i } else { i + 1 }]);
                assert(after[j] == fingers[if j < k { j } else { j + 1 }]);
            }
        }
        if super::is_down(fingers, other) {
            let j = super::slot_of(fingers, other);
            let i = if j < k { j } else { j - 1 };
            assert(after[i] == fingers[j]);
            lemma_slot(after, i);
        } else if super::is_down(after, other) {
            let j = super::slot_of(after, other);
            assert(after[j].0 == other);
            assert(after[j] == fingers[if j < k { j } else { j + 1 }]);
        }
    }
}

/// With two or more fingers down a move emits nothing but pinches: no stray scroll,
/// no stray move.
pub proof fn law_pinch_move_is_only_a_pinch(g: Gesture, id: u64, pos: Point)
    requires
        super::upserted(g.active, id, pos).len() >= 2,
    ensures
        g.moved_events(id, pos).len() <= 1,
        forall|i: int|
            0 <= i < g.moved_events(id, pos).len() ==> #[trigger] g.moved_events(
                id,
                pos,
            )[i] is Pinch,
{
}

/// A second finger starts a pinch and is no press.
pub proof fn law_second_finger_is_no_press(g: Gesture, id: u64, pos: Point, now: u64)
    requires
        super::upserted(g.active, id, pos).len() >= 2,
    ensures
        forall|i: int|
            0 <= i < g.began_events(id, pos).len() ==> !(#[trigger] g.began_events(
                id,
                pos,
            )[i] is MouseDown),
        g.began_events(id, pos).last() matches PlatformInput::Pinch(e) && e.phase
            == TouchPhase::Started,
        g.began(id, pos, now).pinch_occurred,
{
}

/// A finger leaving a pinch is no release: it ends the pinch once fewer than two
/// fingers remain, and emits nothing before.
pub proof fn law_leaving_a_pinch_is_no_release(
    g: Gesture,
    id: u64,
    pos: Point,
    cancelled: bool,
    now: u64,
    weights: RecencyWeights,
)
    requires
        g.active.len() >= 2,
    ensures
        ({
            let events = g.ended_events(id, pos, cancelled, now, weights);
            if g.ended(id, pos, cancelled, now, weights).active.len() < 2 {
                &&& events.len() == 1
                &&& events[0] matches PlatformInput::Pinch(e) && e.phase == TouchPhase::Ended
            } else {
                events.len() == 0
            }
        }),
{
}

/// After a pinch nothing flings until every finger has lifted: a lift opens no glide,
/// and the pinch is forgotten exactly when the last finger goes.
pub proof fn law_no_fling_after_a_pinch(
    g: Gesture,
    id: u64,
    pos: Point,
    cancelled: bool,
    now: u64,
    weights: RecencyWeights,
)
    requires
        g.pinch_occurred,
        !g.momentum_open,
    ensures
        ({
            let after = g.ended(id, pos, cancelled, now, weights);
            &&& !after.momentum_open
            &&& after.pinch_occurred <==> after.active.len() > 0
        }),
{
}

/// A one-finger drag drives both channels: a scroll by the way the finger went since
/// it was last seen, along the committed axis if there is one, and a move.
pub proof fn law_drag_drives_both_channels(g: Gesture, id: u64, pos: Point, prev: Point)
    requires
        g.wf(),
        g.active.len() == 1,
        g.active[0] == (id, prev),
        !g.pinch_occurred,
    ensures
        ({
            let delta = pos.minus(prev);
            let axis = g.axis_lock.applied(delta).locked;
            g.moved_events(id, pos) == seq![
                PlatformInput::scroll(pos, super::projected_on(axis, delta), TouchPhase::Moved),
                PlatformInput::drag(pos),
            ]
        }),
{
    lemma_slot(g.active, 0);
}

/// A fresh press starts with no axis chosen.
pub proof fn law_press_opens_the_lock(g: Gesture, id: u64, pos: Point, now: u64)
    ensures
        g.began(id, pos, now).axis_lock == AxisLock::open_lock(),
{
}

/// The drag commits to an axis exactly when the larger of its two displacements
/// reaches the threshold, and then to the axis of that one.
pub proof fn law_lock_picks_the_dominant_axis(displacement: Point)
    requires
        !displacement.x.is_nan(),
        !displacement.y.is_nan(),
    ensures
        ({
            let ax = displacement.x.magnitude().value();
            let ay = displacement.y.magnitude().value();
            let limit = AXIS_LOCK_THRESHOLD_PX as real;
            &&& super::dominant_axis(displacement) == Some(LockedAxis::Horizontal) <==> ax >= ay
                && ax >= limit
            &&& super::dominant_axis(displacement) == Some(LockedAxis::Vertical) <==> ay > ax && ay
                >= limit
            &&& super::dominant_axis(displacement) is None <==> ax < limit && ay < limit
        }),
{
    reveal(Single::less);
    Single::law_integer_exact(AXIS_LOCK_THRESHOLD_PX as nat);
}

/// Spreading fingers zoom in, closing fingers zoom out, by what the separation is to
/// the one before.
pub proof fn law_pinch_delta_has_the_sign_of_the_spread(
    g: Gesture,
    id: u64,
    pos: Point,
    prev: Single,
)
    requires
        super::upserted(g.active, id, pos).len() >= 2,
        g.pinch_prev_dist == Some(prev),
        prev.is_finite(),
        Single::fraction(1, 0x80_0000).less(prev),
        !super::pinch_distance(super::upserted(g.active, id, pos)).is_nan(),
    ensures
        ({
            let dist = super::pinch_distance(super::upserted(g.active, id, pos));
            let events = g.moved_events(id, pos);
            &&& events.len() == 1
            &&& events[0] matches PlatformInput::Pinch(e) && {
                &&& dist.value() > prev.value() ==> e.delta.value() > 0real
                &&& dist.value() < prev.value() ==> e.delta.value() < 0real
                &&& dist.value() == prev.value() ==> e.delta.value() == 0real
            }
        }),
{
    reveal(Single::less);
    let f = Single::format();
    Single::lemma_format();
    let dist = super::pinch_distance(super::upserted(g.active, id, pos));
    vstd::arithmetic::power2::lemma2_to64();
    Single::law_power_fraction(23);
    Format::lemma_exp2_pos(-23);
    let e = Single::fraction(1, 0x80_0000);
    // Above 2^-23 every number is normal.
    f.lemma_zero_value(prev.number());
    f.lemma_zero_value(dist.number());
    assert(prev.number().code >= 0x80_0000) by {
        if prev.number().code < e.number().code {
            f.lemma_value_increasing(prev.number().code as nat, e.number().code as nat);
        }
    }
    let d = super::upserted(g.active, id, pos)[1].1.minus(
        super::upserted(g.active, id, pos)[0].1,
    );
    let sum = d.x.times(d.x).plus(d.y.times(d.y));
    lemma_root_sign(sum);
    Single::law_ratio_against_one(dist, prev);
}

proof fn lemma_root_sign(a: Single)
    ensures
        !a.root().is_nan() ==> a.root().value() >= 0real,
{
    reveal(Single::root);
    let f = Single::format();
    Single::lemma_format();
    f.lemma_zero_value(a.number());
    f.lemma_zero_value(a.root().number());
    a.lemma_of_number();
    if !f.is_nan(a.number()) && a.number().code != 0 && a.number().negative {
        Single::lemma_number_of(f.quiet_nan());
    } else if f.is_nan(a.number()) {
        Single::lemma_number_of(f.quiet_nan());
    } else if a.number().code == 0 || f.is_infinite(a.number()) {
        assert(a.root() == a);
    } else {
        f.law_nearest_root_exists(a.value());
        assert(!a.root().number().negative);
    }
}

// A drag.

/// The gesture after a finger went through some positions.
pub open spec fn dragged(g: Gesture, id: u64, way: Seq<(Point, u64)>) -> Gesture
    decreases way.len(),
{
    if way.len() == 0 {
        g
    } else {
        dragged(g, id, way.drop_last()).moved(id, way.last().0, way.last().1)
    }
}

/// Once a drag has locked, the lock holds for all of it: however the finger wanders,
/// every later scroll goes along the committed axis and has nothing across it.
pub proof fn law_lock_holds_all_drag(
    g: Gesture,
    id: u64,
    way: Seq<(Point, u64)>,
    axis: LockedAxis,
    next: Point,
)
    requires
        g.wf(),
        g.active.len() == 1,
        g.active[0].0 == id,
        !g.pinch_occurred,
        g.axis_lock.locked == Some(axis),
    ensures
        ({
            let now = dragged(g, id, way);
            let prev = if way.len() == 0 { g.active[0].1 } else { way.last().0 };
            &&& now.axis_lock.locked == Some(axis)
            &&& now.active =~= seq![(id, prev)]
            &&& now.moved_events(id, next) == seq![
                PlatformInput::scroll(
                    next,
                    axis.projected(next.minus(prev)),
                    TouchPhase::Moved,
                ),
                PlatformInput::drag(next),
            ]
        }),
    decreases way.len(),
{
    let now = dragged(g, id, way);
    let prev = if way.len() == 0 { g.active[0].1 } else { way.last().0 };
    if way.len() == 0 {
        assert(g.active =~= seq![(id, prev)]);
    } else {
        let rest = way.drop_last();
        law_lock_holds_all_drag(g, id, rest, axis, way.last().0);
        lemma_lone_drag_state(g, id, rest);
        let before = dragged(g, id, rest);
        lemma_slot(before.active, 0);
        assert(now.active =~= seq![(id, prev)]);
    }
    lemma_lone_drag_state(g, id, way);
    lemma_slot(now.active, 0);
}

proof fn lemma_lone_drag_state(g: Gesture, id: u64, way: Seq<(Point, u64)>)
    requires
        g.wf(),
        g.active.len() == 1,
        g.active[0].0 == id,
        !g.pinch_occurred,
    ensures
        ({
            let now = dragged(g, id, way);
            &&& super::distinct(now.active)
            &&& now.active.len() == 1
            &&& now.active[0].0 == id
            &&& !now.pinch_occurred
        }),
    decreases way.len(),
{
    if way.len() > 0 {
        lemma_lone_drag_state(g, id, way.drop_last());
        lemma_slot(dragged(g, id, way.drop_last()).active, 0);
    }
}

// A glide.

/// Without a fling a frame does nothing.
pub proof fn law_pump_is_idle_without_a_fling(g: Gesture, bounds: Size, now: u64, decay: Decay)
    requires
        !g.momentum_open,
    ensures
        g.pumped(bounds, now, decay) == g,
        g.pumped_events(bounds, now, decay).len() == 0,
{
}

/// A gliding frame drives both channels, like a drag; the scroll keeps to the axis the
/// drag had locked to.
pub proof fn law_glide_keeps_to_the_axis(
    g: Gesture,
    bounds: Size,
    now: u64,
    decay: Decay,
    axis: LockedAxis,
)
    requires
        g.momentum_open,
        g.momentum_axis == Some(axis),
        g.momentum.moved(now, decay) is Some,
    ensures
        ({
            let step = g.momentum.moved(now, decay)->0;
            let pos = g.pumped(bounds, now, decay).momentum_pos;
            &&& g.pumped_events(bounds, now, decay) == seq![
                PlatformInput::scroll(
                    pos,
                    axis.projected(Point { x: step.dx, y: step.dy }),
                    TouchPhase::Moved,
                ),
                PlatformInput::drag(pos),
            ]
            &&& g.pumped(bounds, now, decay).momentum_axis == Some(axis)
        }),
{
}

/// A lift that flings hands the drag's axis to the glide.
pub proof fn law_fling_carries_the_axis(
    g: Gesture,
    id: u64,
    pos: Point,
    now: u64,
    weights: RecencyWeights,
)
    requires
        g.is_clean_lift(false),
        g.released(now, weights).active,
    ensures
        ({
            let after = g.ended(id, pos, false, now, weights);
            &&& after.momentum_open
            &&& after.momentum_pos == pos
            &&& after.momentum_axis == g.axis_lock.locked
            &&& after.axis_lock == AxisLock::open_lock()
        }),
{
}

/// A glide ends in exactly one release, where it had got to, clamped inside the window,
/// and is then over, the scroller included.
pub proof fn law_glide_ends_in_one_release(g: Gesture, bounds: Size, now: u64, decay: Decay)
    requires
        g.momentum_open,
        g.momentum.moved(now, decay) is None,
    ensures
        g.pumped_events(bounds, now, decay) == seq![
            PlatformInput::release(super::clamped(g.momentum_pos, bounds)),
        ],
        !g.pumped(bounds, now, decay).momentum_open,
        !g.pumped(bounds, now, decay).momentum.active,
{
}

/// A touch during a glide stops it, and releases the deferred press first.
pub proof fn law_touch_stops_the_glide(g: Gesture, id: u64, pos: Point, now: u64)
    requires
        g.momentum_open,
    ensures
        g.began_events(id, pos)[0] == PlatformInput::release(g.momentum_pos),
        !g.began(id, pos, now).momentum_open,
        !g.began(id, pos, now).momentum.active,
{
}

/// Clamping keeps a coordinate inside an extent of half a pixel or more, half a pixel
/// away from the edge at zero.
pub proof fn law_clamp_keeps_inside(p: Point, bounds: Size)
    requires
        !p.x.is_nan(),
        !p.y.is_nan(),
        bounds.width.is_finite(),
        bounds.height.is_finite(),
        bounds.width.value() >= Format::exp2(-1),
        bounds.height.value() >= Format::exp2(-1),
    ensures
        ({
            let c = super::clamped(p, bounds);
            let half = Format::exp2(-1);
            &&& half <= c.x.value() <= bounds.width.value()
            &&& half <= c.y.value() <= bounds.height.value()
            &&& half <= c.x.value() <= super::inner_edge(bounds.width).value()
            &&& half <= c.y.value() <= super::inner_edge(bounds.height).value()
        }),
{
    lemma_inner_edge(bounds.width);
    lemma_inner_edge(bounds.height);
    vstd::arithmetic::power2::lemma2_to64();
    Single::law_power_fraction(1);
    let half = Single::fraction(1, 2);
    Single::law_within_bounds(p.x, half, super::inner_edge(bounds.width));
    Single::law_within_bounds(p.y, half, super::inner_edge(bounds.height));
}

/// The position that an event carries.
pub open spec fn position_of_event(event: PlatformInput) -> Point {
    match event {
        PlatformInput::MouseDown(e) => e.position,
        PlatformInput::MouseMove(e) => e.position,
        PlatformInput::MouseUp(e) => e.position,
        PlatformInput::ScrollWheel(e) => e.position,
        PlatformInput::Pinch(e) => e.position,
    }
}

/// Where a frame of the glide would lead, were there no window: one step on, or nowhere
/// when it releases.
pub open spec fn unclamped_position(g: Gesture, now: u64, decay: Decay) -> Point {
    match g.momentum.moved(now, decay) {
        Some(step) => g.momentum_pos.plus(Point { x: step.dx, y: step.dy }),
        None => g.momentum_pos,
    }
}

/// A glide stays in the window: every event of a frame, the final release too, is inside
/// the window as it is then, wherever the glide was before.
pub proof fn law_glide_stays_in_the_window(g: Gesture, bounds: Size, now: u64, decay: Decay)
    requires
        g.momentum_open,
        !unclamped_position(g, now, decay).x.is_nan(),
        !unclamped_position(g, now, decay).y.is_nan(),
        bounds.width.is_finite(),
        bounds.height.is_finite(),
        bounds.width.value() >= Format::exp2(-1),
        bounds.height.value() >= Format::exp2(-1),
    ensures
        ({
            let events = g.pumped_events(bounds, now, decay);
            let half = Format::exp2(-1);
            &&& events.len() > 0
            &&& forall|i: int|
                #![trigger events[i]]
                0 <= i < events.len() ==> {
                    let p = position_of_event(events[i]);
                    &&& half <= p.x.value() <= bounds.width.value()
                    &&& half <= p.y.value() <= bounds.height.value()
                    &&& p.x.value() <= super::inner_edge(bounds.width).value()
                    &&& p.y.value() <= super::inner_edge(bounds.height).value()
                }
        }),
{
    law_clamp_keeps_inside(unclamped_position(g, now, decay), bounds);
}

/// The inner edge is half a pixel inside, exactly, for every extent from one pixel to
/// `2^23`.
pub proof fn law_inner_edge_is_half_a_pixel_inside(w: Single)
    requires
        w.is_finite(),
        1real <= w.value() <= 8388608real,
    ensures
        super::inner_edge(w).value() == w.value() - Format::exp2(-1),
{
    let f = Single::format();
    Single::lemma_format();
    vstd::arithmetic::power2::lemma2_to64();
    let code = w.number().code as nat;
    f.lemma_zero_value(w.number());
    let (q, sig) = f.lemma_split(code);
    f.lemma_value_split(q, sig);
    let e = q - 149;
    let ulp = Format::exp2(e);
    Format::lemma_exp2_pos(e);
    // One is 2^23 units of 2^-23, and 2^23 is 2^23 units of one.
    Format::lemma_exp2_shift(-23, 23);
    Format::lemma_exp2_step(-1);
    let one_code: nat = 127 * 0x80_0000;
    f.lemma_value_split(126, 0x80_0000);
    assert(f.value(one_code) == 1real);
    f.lemma_value_split(149, 0x80_0000);
    let top: nat = 150 * 0x80_0000;
    assert(f.value(top) == 8388608real) by {
        assert(8388608real * 1real == 8388608real);
    }
    if code < one_code {
        f.lemma_value_increasing(code, one_code);
    }
    if code > top {
        f.lemma_value_increasing(top, code);
    }
    assert(126 <= q <= 149) by (nonlinear_arith)
        requires
            127 * 0x80_0000 <= code <= 150 * 0x80_0000,
            code == q * 0x80_0000 + sig,
            0x80_0000 <= sig < 2 * 0x80_0000,
    ;
    if q == 149 {
        assert(code == top) by (nonlinear_arith)
            requires
                code <= 150 * 0x80_0000,
                code == q * 0x80_0000 + sig,
                q == 149,
                sig >= 0x80_0000,
                top == 150 * 0x80_0000,
        ;
        let n: nat = 16777215;
        let h = Format::exp2(-1);
        assert(16777215real * h == 8388608real - h) by (nonlinear_arith)
            requires
                h * 2real == 1real,
        ;
        lemma_edge_of(w, n, -1);
    } else {
        let k = (148 - q) as nat;
        Format::lemma_exp2_shift(e, k);
        vstd::arithmetic::power2::lemma_pow2_pos(k);
        vstd::arithmetic::power2::lemma_pow2_strictly_increases(k, 23);
        let n = (sig - vstd::arithmetic::power2::pow2(k)) as nat;
        let a = sig as real;
        let b = vstd::arithmetic::power2::pow2(k) as real;
        assert(n as real * ulp == a * ulp - b * ulp) by (nonlinear_arith)
            requires
                n as real == a - b,
        ;
        assert(e + k == -1);
        lemma_edge_of(w, n, e);
    }
}

proof fn lemma_edge_of(w: Single, n: nat, e: int)
    requires
        w.is_finite(),
        w.value() >= 1real,
        0 < n <= 0x100_0000,
        -149 <= e <= 0,
        w.value() - Format::exp2(-1) == n as real * Format::exp2(e),
    ensures
        super::inner_edge(w).value() == w.value() - Format::exp2(-1),
{
    reveal(Single::minus);
    reveal(Single::nearest);
    reveal(Single::less);
    let f = Single::format();
    Single::lemma_format();
    vstd::arithmetic::power2::lemma2_to64();
    Single::law_power_fraction(1);
    let half = Single::fraction(1, 2);
    let x = w.value() - half.value();
    Format::lemma_exp2_step(-1);
    Single::law_dyadic_exact(n, e);
    f.lemma_zero_value(w.number());
    f.lemma_zero_value(half.number());
    assert(w.minus(half) == Single::nearest(x));
    assert(x >= Format::exp2(-1));
}

pub proof fn lemma_inner_edge_is_a_number(w: Single)
    requires
        w.is_finite(),
        w.value() >= 1real,
    ensures
        !super::inner_edge(w).is_nan(),
{
    vstd::arithmetic::power2::lemma2_to64();
    Format::lemma_exp2_step(-1);
    lemma_inner_edge(w);
}

proof fn lemma_inner_edge(w: Single)
    requires
        w.is_finite(),
        w.value() >= Format::exp2(-1),
    ensures
        ({
            let e = super::inner_edge(w);
            &&& !e.is_nan()
            &&& Format::exp2(-1) <= e.value() <= w.value()
        }),
{
    reveal(Single::minus);
    reveal(Single::less);
    let f = Single::format();
    Single::lemma_format();
    vstd::arithmetic::power2::lemma2_to64();
    Single::law_power_fraction(1);
    let half = Single::fraction(1, 2);
    Format::lemma_exp2_pos(-1);
    Format::lemma_exp2_step(-1);
    f.lemma_zero_value(w.number());
    f.lemma_zero_value(half.number());
    let x = w.value() - half.value();
    let d = w.minus(half);
    f.lemma_rounded_holds(w.number().negative && !half.number().negative, x);
    Single::lemma_number_of(f.rounded(w.number().negative && !half.number().negative, x));
    f.law_nearest_bounded(x, w.number().code as nat);
    f.law_nearest_exists(x);
    f.lemma_value_increasing(d.number().code as nat, w.number().code as nat);
}

// A whole history.

/// Something that happens to an aggregator.
pub enum Stimulus {
    Touch { id: u64, phase: i32, pos: Point, now: u64 },
    Frame { bounds: Size, now: u64, decay: Decay },
}

/// The gesture after a stimulus.
pub open spec fn next(g: Gesture, s: Stimulus, weights: RecencyWeights) -> Gesture {
    match s {
        Stimulus::Touch { id, phase, pos, now } => g.touched(id, phase, pos, now, weights),
        Stimulus::Frame { bounds, now, decay } => g.pumped(bounds, now, decay),
    }
}

/// The events of a stimulus.
pub open spec fn events(g: Gesture, s: Stimulus, weights: RecencyWeights) -> Seq<PlatformInput> {
    match s {
        Stimulus::Touch { id, phase, pos, now } => g.touched_events(id, phase, pos, now, weights),
        Stimulus::Frame { bounds, now, decay } => g.pumped_events(bounds, now, decay),
    }
}

/// A finger touches down when it is up, and moves and lifts when it is down.
pub open spec fn is_orderly(g: Gesture, s: Stimulus) -> bool {
    match s {
        Stimulus::Touch { id, phase, .. } => {
            &&& phase == PHASE_BEGAN ==> !super::is_down(g.active, id)
            &&& phase == PHASE_MOVED || phase == PHASE_ENDED || phase == PHASE_CANCELLED
                ==> super::is_down(g.active, id)
        },
        Stimulus::Frame { .. } => true,
    }
}

/// The gesture after a history.
pub open spec fn state_after(history: Seq<Stimulus>, weights: RecencyWeights) -> Gesture
    decreases history.len(),
{
    if history.len() == 0 {
        Gesture::fresh()
    } else {
        next(state_after(history.drop_last(), weights), history.last(), weights)
    }
}

/// All events of a history.
pub open spec fn all_events(history: Seq<Stimulus>, weights: RecencyWeights) -> Seq<PlatformInput>
    decreases history.len(),
{
    if history.len() == 0 {
        Seq::empty()
    } else {
        all_events(history.drop_last(), weights) + events(
            state_after(history.drop_last(), weights),
            history.last(),
            weights,
        )
    }
}

/// Every touch of a history comes in order.
pub open spec fn all_orderly(history: Seq<Stimulus>, weights: RecencyWeights) -> bool
    decreases history.len(),
{
    history.len() > 0 ==> all_orderly(history.drop_last(), weights) && is_orderly(
        state_after(history.drop_last(), weights),
        history.last(),
    )
}

/// What the consumer believes of the button after some events, or `None` where they
/// make no sense: a press while pressed, or a release, a move or a scroll while not.
pub open spec fn button(events: Seq<PlatformInput>) -> Option<bool>
    decreases events.len(),
{
    if events.len() == 0 {
        Some(false)
    } else {
        match button(events.drop_last()) {
            None => None,
            Some(down) => match events.last() {
                PlatformInput::MouseDown(_) => if down { None } else { Some(true) },
                PlatformInput::MouseUp(_) => if down { Some(false) } else { None },
                PlatformInput::MouseMove(_) => if down { Some(true) } else { None },
                PlatformInput::ScrollWheel(_) => if down { Some(true) } else { None },
                PlatformInput::Pinch(_) => Some(down),
            },
        }
    }
}

/// Whether a press is open: a finger is down, or a fling glides.
pub open spec fn is_pressed(g: Gesture) -> bool {
    g.active.len() > 0 || g.momentum_open
}

/// Presses and releases alternate over any orderly history, moves and scrolls come only
/// in between, and the last press is released exactly when no finger is down and no
/// fling glides any more. A fling never glides under a finger.
pub proof fn law_presses_and_releases_alternate(
    history: Seq<Stimulus>,
    weights: RecencyWeights,
)
    requires
        all_orderly(history, weights),
    ensures
        ({
            let g = state_after(history, weights);
            &&& g.wf()
            &&& !(g.active.len() > 0 && g.momentum_open)
            &&& button(all_events(history, weights)) == Some(is_pressed(g))
        }),
    decreases history.len(),
{
    if history.len() > 0 {
        let rest = history.drop_last();
        law_presses_and_releases_alternate(rest, weights);
        let g = state_after(rest, weights);
        let s = history.last();
        let before = all_events(rest, weights);
        lemma_stays_well_formed(g, s, weights);
        lemma_button_step(g, s, weights, before);
    }
}

proof fn lemma_stays_well_formed(g: Gesture, s: Stimulus, weights: RecencyWeights)
    requires
        g.wf(),
    ensures
        next(g, s, weights).wf(),
{
    if let Stimulus::Touch { id, phase, pos, now } = s {
        let other = if id == 0 { 1u64 } else { 0u64 };
        lemma_upserted(g.active, id, pos, other);
        lemma_removed_distinct(g.active, id);
    }
}

proof fn lemma_removed_distinct(fingers: super::Fingers, id: u64)
    requires
        super::distinct(fingers),
    ensures
        super::distinct(super::removed(fingers, id)),
{
    if super::is_down(fingers, id) {
        let k = super::slot_of(fingers, id);
        let after = super::removed(fingers, id);
        assert forall|i: int, j: int| 0 <= i < j < after.len() implies #[trigger] after[i].0
            != #[trigger] after[j].0 by {
            assert(after[i] == fingers[if i < k { i } else { i + 1 }]);
            assert(after[j] == fingers[if j < k { j } else { j + 1 }]);
        }
    }
}

proof fn lemma_button_step(
    g: Gesture,
    s: Stimulus,
    weights: RecencyWeights,
    before: Seq<PlatformInput>,
)
    requires
        g.wf(),
        is_orderly(g, s),
        !(g.active.len() > 0 && g.momentum_open),
        button(before) == Some(is_pressed(g)),
    ensures
        ({
            let after = next(g, s, weights);
            &&& !(after.active.len() > 0 && after.momentum_open)
            &&& button(before + events(g, s, weights)) == Some(is_pressed(after))
        }),
{
    let es = events(g, s, weights);
    let all = before + es;
    if es.len() == 0 {
        assert(all =~= before);
    } else if es.len() == 1 {
        assert(all.drop_last() =~= before);
        assert(all.last() == es[0]);
    } else {
        assert(es.len() == 2);
        let mid = before.push(es[0]);
        assert(all.drop_last() =~= mid);
        assert(mid.drop_last() =~= before);
        assert(mid.last() == es[0]);
        assert(all.last() == es[1]);
        reveal_with_fuel(button, 3);
    }
}

} // verus!
