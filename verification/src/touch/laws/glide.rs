//! Where a glide goes, measured.

use vstd::prelude::*;
use vstd::arithmetic::power2::*;
use crate::geometry::{Point, Size};
use crate::ieee::format::Format;
use crate::ieee::single::Single;
use crate::input::{MouseButton, PlatformInput, ScrollDelta, TouchPhase};
use crate::momentum::{Decay, MomentumStep, RecencyWeights};
use super::super::{Gesture, LockedAxis, PHASE_ENDED};

verus! {

/// A number brought into an interval.
pub open spec fn brought_into(x: real, low: real, high: real) -> real {
    if x < low {
        low
    } else if x > high {
        high
    } else {
        x
    }
}

/// The extent of a window: from one pixel to `2^23`.
pub open spec fn is_extent(w: Single) -> bool {
    w.is_finite() && 1real <= w.value() <= 8388608real
}

pub open spec fn is_window(bounds: Size) -> bool {
    is_extent(bounds.width) && is_extent(bounds.height)
}

/// A coordinate inside an extent, half a pixel or more from either edge.
pub open spec fn is_inside(x: real, w: Single) -> bool {
    1real / 2real <= x <= w.value() - 1real / 2real
}

/// A coordinate clamped into an extent is the nearest one that is half a pixel or more
/// from either edge, and the very same where it already was.
pub proof fn law_clamp_is_the_nearest_inside(p: Point, bounds: Size)
    requires
        is_window(bounds),
        !p.x.is_nan(),
        !p.y.is_nan(),
    ensures
        ({
            let c = super::super::clamped(p, bounds);
            let half = 1real / 2real;
            &&& c.x.is_finite()
            &&& c.y.is_finite()
            &&& c.x.value() == brought_into(p.x.value(), half, bounds.width.value() - half)
            &&& c.y.value() == brought_into(p.y.value(), half, bounds.height.value() - half)
            &&& is_inside(p.x.value(), bounds.width) ==> c.x == p.x
            &&& is_inside(p.y.value(), bounds.height) ==> c.y == p.y
        }),
{
    lemma_clamped(p.x, bounds.width);
    lemma_clamped(p.y, bounds.height);
}

proof fn lemma_clamped(x: Single, w: Single)
    requires
        is_extent(w),
        !x.is_nan(),
    ensures
        ({
            let c = x.within(Single::fraction(1, 2), super::super::inner_edge(w));
            let half = 1real / 2real;
            &&& c.is_finite()
            &&& c.value() == brought_into(x.value(), half, w.value() - half)
            &&& is_inside(x.value(), w) ==> c == x
        }),
{
    reveal(Single::less);
    let f = Single::format();
    Single::lemma_format();
    lemma2_to64();
    Single::law_power_fraction(1);
    super::law_inner_edge_is_half_a_pixel_inside(w);
    super::lemma_inner_edge_is_a_number(w);
    Format::lemma_exp2_step(-1);
    let half = Single::fraction(1, 2);
    let edge = super::super::inner_edge(w);
    Single::law_within_bounds(x, half, edge);
    let c = x.within(half, edge);
    f.lemma_zero_value(c.number());
    f.lemma_zero_value(w.number());
    if c.number().code >= f.infinity {
        f.lemma_value_increasing(w.number().code as nat, f.infinity as nat);
    }
}

/// A coordinate is carried by a displacement: it is their sum, brought inside the window,
/// but for the rounding of that sum.
pub open spec fn is_carried(q: Single, sum: real, w: Single) -> bool {
    let half = 1real / 2real;
    &&& q.is_finite()
    &&& crate::ieee::error::size(q.value() - brought_into(sum, half, w.value() - half))
        <= crate::ieee::error::size(sum) / 16777216real + Format::exp2(-150)
}

/// A step of a glide that is a number of pixels.
pub open spec fn is_step(step: MomentumStep) -> bool {
    super::drag::is_within(Point { x: step.dx, y: step.dy }, 1000000000real)
}

/// A gliding frame moves: the glide, and both its events, are at the position before plus
/// the displacement of the frame, on both axes, brought inside the window. The scroll is
/// that displacement, without what is across the axis of the drag.
pub proof fn law_glide_is_carried(
    g: Gesture,
    bounds: Size,
    now: u64,
    decay: Decay,
    step: MomentumStep,
)
    requires
        g.momentum_open,
        g.momentum.moved(now, decay) == Some(step),
        is_step(step),
        is_window(bounds),
        super::drag::is_within(g.momentum_pos, 1000000000real),
    ensures
        ({
            let after = g.pumped(bounds, now, decay);
            let events = g.pumped_events(bounds, now, decay);
            let p = g.momentum_pos;
            let q = after.momentum_pos;
            &&& after.momentum_open
            &&& after.momentum_axis == g.momentum_axis
            &&& is_carried(q.x, p.x.value() + step.dx.value(), bounds.width)
            &&& is_carried(q.y, p.y.value() + step.dy.value(), bounds.height)
            &&& events.len() == 2
            &&& events[0] matches PlatformInput::ScrollWheel(e) && {
                &&& e.position == q
                &&& e.touch_phase == TouchPhase::Moved
                &&& e.delta matches ScrollDelta::Pixels(d) && {
                    &&& d.x.value() == (if g.momentum_axis == Some(LockedAxis::Vertical) {
                        0real
                    } else {
                        step.dx.value()
                    })
                    &&& d.y.value() == (if g.momentum_axis == Some(LockedAxis::Horizontal) {
                        0real
                    } else {
                        step.dy.value()
                    })
                }
            }
            &&& events[1] matches PlatformInput::MouseMove(e) && e.position == q
                && e.pressed_button == Some(MouseButton::Left)
        }),
{
    let p = g.momentum_pos;
    let sum = p.plus(Point { x: step.dx, y: step.dy });
    Single::lemma_format();
    Single::format().lemma_value_zero();
    assert(Single::zero().value() == 0real);
    Single::lemma_in_range(p.x.value() + step.dx.value());
    Single::lemma_in_range(p.y.value() + step.dy.value());
    Single::law_sum_is_near(p.x, step.dx);
    Single::law_sum_is_near(p.y, step.dy);
    law_clamp_is_the_nearest_inside(sum, bounds);
}

/// A glide that is over is released where it was, brought inside the window as it is now.
pub proof fn law_glide_is_released_where_it_was(
    g: Gesture,
    bounds: Size,
    now: u64,
    decay: Decay,
)
    requires
        g.momentum_open,
        g.momentum.moved(now, decay) is None,
        is_window(bounds),
        !g.momentum_pos.x.is_nan(),
        !g.momentum_pos.y.is_nan(),
    ensures
        ({
            let after = g.pumped(bounds, now, decay);
            let events = g.pumped_events(bounds, now, decay);
            let p = g.momentum_pos;
            let half = 1real / 2real;
            &&& !after.momentum_open
            &&& after.momentum_pos == p
            &&& events.len() == 1
            &&& events[0] matches PlatformInput::MouseUp(e) && {
                &&& e.button == MouseButton::Left
                &&& e.position.x.value() == brought_into(
                    p.x.value(),
                    half,
                    bounds.width.value() - half,
                )
                &&& e.position.y.value() == brought_into(
                    p.y.value(),
                    half,
                    bounds.height.value() - half,
                )
                &&& is_inside(p.x.value(), bounds.width) ==> e.position.x == p.x
                &&& is_inside(p.y.value(), bounds.height) ==> e.position.y == p.y
            }
        }),
{
    law_clamp_is_the_nearest_inside(g.momentum_pos, bounds);
}

/// A fling goes on the way the finger went: the first frame after the lift scrolls, on each
/// axis, by what the velocity of the tracker at the lift travels in that frame, but for
/// rounding, and never the other way; what is across the axis of the drag is left out.
pub proof fn law_first_frame_follows_the_finger(
    g: Gesture,
    id: u64,
    pos: Point,
    now: u64,
    weights: RecencyWeights,
    bounds: Size,
    frame: u64,
    decay: Decay,
)
    requires
        g.wf(),
        g.active.len() < 2,
        !g.pinch_occurred,
        !g.momentum_open,
        weights.wf(),
        forall|i: int|
            0 <= i < g.velocity.samples.len() && (#[trigger] g.velocity.samples[i]) is Some
                ==> crate::momentum::laws::velocity::is_finite_sample(g.velocity.samples[i]->0),
        g.touched(id, PHASE_ENDED, pos, now, weights).momentum_open,
        g.touched(id, PHASE_ENDED, pos, now, weights).pumped(bounds, frame, decay).momentum_open,
        frame >= now + 1001,
        crate::momentum::laws::glide::is_decay(decay),
        decay.log_rate.value() >= -1real,
    ensures
        ({
            let v = g.velocity.velocity(now, weights);
            let f = decay.factor.value();
            let l = decay.log_rate.value();
            let x = crate::momentum::laws::glide::travel(v.0.value(), f, l);
            let y = crate::momentum::laws::glide::travel(v.1.value(), f, l);
            let after = g.touched(id, PHASE_ENDED, pos, now, weights);
            let axis = g.axis_lock.locked;
            after.pumped_events(bounds, frame, decay)[0] matches PlatformInput::ScrollWheel(e) && {
                e.delta matches ScrollDelta::Pixels(d) && {
                    &&& if axis == Some(LockedAxis::Vertical) {
                        d.x.value() == 0real
                    } else {
                        &&& crate::momentum::laws::glide::is_about(d.x, x)
                        &&& v.0.value() >= 0real ==> d.x.value() >= 0real
                        &&& v.0.value() <= 0real ==> d.x.value() <= 0real
                    }
                    &&& if axis == Some(LockedAxis::Horizontal) {
                        d.y.value() == 0real
                    } else {
                        &&& crate::momentum::laws::glide::is_about(d.y, y)
                        &&& v.1.value() >= 0real ==> d.y.value() >= 0real
                        &&& v.1.value() <= 0real ==> d.y.value() <= 0real
                    }
                }
            }
        }),
{
    let after = g.touched(id, PHASE_ENDED, pos, now, weights);
    super::drag::law_fling_goes_on_as_the_finger_went(g, id, pos, now, weights);
    crate::momentum::laws::velocity::law_velocity_is_finite(g.velocity, now, weights);
    crate::momentum::laws::release::law_frame_moves_by_the_travel(after.momentum, frame, decay);
    crate::momentum::laws::law_glide_moves_with_the_velocity(after.momentum, frame, decay);
    crate::momentum::laws::release::law_frame_is_the_time_that_passed(after.momentum, frame);
    Single::lemma_format();
    Single::format().lemma_value_zero();
    assert(Single::zero().value() == 0real);
}

// A run of frames.

/// The gesture after some frames of one window.
pub open spec fn glided(g: Gesture, bounds: Size, frames: Seq<(u64, Decay)>) -> Gesture
    decreases frames.len(),
{
    if frames.len() == 0 {
        g
    } else {
        glided(g, bounds, frames.drop_last()).pumped(
            bounds,
            frames.last().0,
            frames.last().1,
        )
    }
}

/// The step of the last of some frames, if it moves anything.
pub open spec fn last_step(
    g: Gesture,
    bounds: Size,
    frames: Seq<(u64, Decay)>,
) -> Option<MomentumStep> {
    glided(g, bounds, frames.drop_last()).momentum.moved(frames.last().0, frames.last().1)
}

/// Every frame moves, and stays inside the window.
pub open spec fn glides_inside(g: Gesture, bounds: Size, frames: Seq<(u64, Decay)>) -> bool
    decreases frames.len(),
{
    frames.len() == 0 || {
        let p = glided(g, bounds, frames.drop_last()).momentum_pos;
        &&& glides_inside(g, bounds, frames.drop_last())
        &&& last_step(g, bounds, frames) matches Some(step) && {
            &&& is_step(step)
            &&& is_inside(p.x.value() + step.dx.value(), bounds.width)
            &&& is_inside(p.y.value() + step.dy.value(), bounds.height)
        }
    }
}

/// The displacements of some frames, added up on each axis.
pub open spec fn displaced(g: Gesture, bounds: Size, frames: Seq<(u64, Decay)>) -> (real, real)
    decreases frames.len(),
{
    if frames.len() == 0 {
        (0real, 0real)
    } else {
        let before = displaced(g, bounds, frames.drop_last());
        match last_step(g, bounds, frames) {
            Some(step) => (before.0 + step.dx.value(), before.1 + step.dy.value()),
            None => before,
        }
    }
}

/// Over a run of frames inside the window a glide moves by the sum of their displacements,
/// on each axis, but for the rounding of each.
pub proof fn law_glide_moves_by_its_displacements(
    g: Gesture,
    bounds: Size,
    frames: Seq<(u64, Decay)>,
)
    requires
        g.momentum_open,
        is_window(bounds),
        super::drag::is_within(g.momentum_pos, 1000000000real),
        glides_inside(g, bounds, frames),
    ensures
        ({
            let after = glided(g, bounds, frames);
            let d = displaced(g, bounds, frames);
            let p = g.momentum_pos;
            let q = after.momentum_pos;
            let n = frames.len() as real;
            &&& after.momentum_open
            &&& super::drag::is_within(q, 1000000000real)
            &&& crate::ieee::error::size(q.x.value() - (p.x.value() + d.0)) <= n * (
            bounds.width.value() / 8388608real)
            &&& crate::ieee::error::size(q.y.value() - (p.y.value() + d.1)) <= n * (
            bounds.height.value() / 8388608real)
        }),
    decreases frames.len(),
{
    let a = bounds.width.value() / 8388608real;
    let b = bounds.height.value() / 8388608real;
    if frames.len() == 0 {
        assert(0real * a == 0real && 0real * b == 0real) by (nonlinear_arith);
    } else {
        let rest = frames.drop_last();
        law_glide_moves_by_its_displacements(g, bounds, rest);
        let before = glided(g, bounds, rest);
        let step = last_step(g, bounds, frames)->0;
        law_glide_is_carried(before, bounds, frames.last().0, frames.last().1, step);
        Single::lemma_least();
        let n = frames.len() as real;
        let m = rest.len() as real;
        assert(n * a == m * a + a && n * b == m * b + b) by (nonlinear_arith)
            requires
                n == m + 1real,
        ;
    }
}

} // verus!
