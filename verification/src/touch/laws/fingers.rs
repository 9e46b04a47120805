//! Which fingers are down, in which order, and what a touch leaves alone.

use vstd::prelude::*;
use crate::geometry::{Point, Size};
use crate::ieee::single::Single;
use crate::input::{Modifiers, MouseButton, PlatformInput, TouchPhase};
use crate::momentum::{Decay, RecencyWeights, Sample};
use super::super::{Gesture, PHASE_BEGAN, PHASE_CANCELLED, PHASE_ENDED, PHASE_MOVED};

verus! {

proof fn lemma_slot_is(g: Gesture, id: u64, k: int)
    requires
        g.wf(),
        0 <= k < g.active.len(),
        g.active[k].0 == id,
    ensures
        super::super::is_down(g.active, id),
        super::super::slot_of(g.active, id) == k,
{
    assert(g.active[k].0 == id);
    let j = super::super::slot_of(g.active, id);
    assert(g.active[j].0 == id);
}

/// Fingers stand in the order of their arrival: one that is first seen goes behind the
/// others, which stay as they are.
pub proof fn law_fingers_arrive_last(
    g: Gesture,
    id: u64,
    phase: i32,
    pos: Point,
    now: u64,
    weights: RecencyWeights,
)
    requires
        phase == PHASE_BEGAN || phase == PHASE_MOVED,
        forall|i: int| 0 <= i < g.active.len() ==> (#[trigger] g.active[i]).0 != id,
    ensures
        ({
            let after = g.touched(id, phase, pos, now, weights).active;
            &&& after.len() == g.active.len() + 1
            &&& after[g.active.len() as int] == (id, pos)
            &&& forall|i: int| 0 <= i < g.active.len() ==> #[trigger] after[i] == g.active[i]
        }),
{
    assert(!super::super::is_down(g.active, id)) by {
        if super::super::is_down(g.active, id) {
            let j = super::super::slot_of(g.active, id);
            assert(g.active[j].0 == id);
        }
    }
}

/// A finger that is seen again keeps its place in that order, and so do the others, which
/// also stay where they are.
pub proof fn law_fingers_keep_their_places(
    g: Gesture,
    id: u64,
    phase: i32,
    pos: Point,
    now: u64,
    weights: RecencyWeights,
    k: int,
)
    requires
        g.wf(),
        phase == PHASE_BEGAN || phase == PHASE_MOVED,
        0 <= k < g.active.len(),
        g.active[k].0 == id,
    ensures
        ({
            let after = g.touched(id, phase, pos, now, weights).active;
            &&& after.len() == g.active.len()
            &&& after[k] == (id, pos)
            &&& forall|i: int|
                0 <= i < g.active.len() && i != k ==> #[trigger] after[i] == g.active[i]
        }),
{
    lemma_slot_is(g, id, k);
}

/// A finger that lifts or is interrupted is gone, and those behind it move up.
pub proof fn law_fingers_move_up(
    g: Gesture,
    id: u64,
    phase: i32,
    pos: Point,
    now: u64,
    weights: RecencyWeights,
    k: int,
)
    requires
        g.wf(),
        phase == PHASE_ENDED || phase == PHASE_CANCELLED,
        0 <= k < g.active.len(),
        g.active[k].0 == id,
    ensures
        ({
            let after = g.touched(id, phase, pos, now, weights).active;
            &&& after.len() == g.active.len() - 1
            &&& forall|i: int| 0 <= i < k ==> #[trigger] after[i] == g.active[i]
            &&& forall|i: int| k <= i < after.len() ==> #[trigger] after[i] == g.active[i + 1]
        }),
{
    lemma_slot_is(g, id, k);
}

/// A finger that was not down takes none with it.
pub proof fn law_unseen_finger_takes_none_with_it(
    g: Gesture,
    id: u64,
    phase: i32,
    pos: Point,
    now: u64,
    weights: RecencyWeights,
)
    requires
        phase == PHASE_ENDED || phase == PHASE_CANCELLED,
        forall|i: int| 0 <= i < g.active.len() ==> (#[trigger] g.active[i]).0 != id,
    ensures
        g.touched(id, phase, pos, now, weights).active == g.active,
{
    if super::super::is_down(g.active, id) {
        let j = super::super::slot_of(g.active, id);
        assert(g.active[j].0 == id);
    }
}

/// A move has no say in a glide or in whether there was a pinch. With two fingers or more
/// down, or with the one left over from a pinch, it feeds neither the tracker nor the lock;
/// with fewer it is no pinch.
pub proof fn law_moves_leave_the_rest_alone(
    g: Gesture,
    id: u64,
    pos: Point,
    now: u64,
    weights: RecencyWeights,
)
    ensures
        ({
            let after = g.touched(id, PHASE_MOVED, pos, now, weights);
            &&& after.momentum == g.momentum
            &&& after.momentum_pos == g.momentum_pos
            &&& after.momentum_open == g.momentum_open
            &&& after.momentum_axis == g.momentum_axis
            &&& after.pinch_occurred == g.pinch_occurred
            &&& after.active.len() >= 2 || g.pinch_occurred ==> {
                &&& after.velocity == g.velocity
                &&& after.axis_lock == g.axis_lock
            }
            &&& after.active.len() < 2 ==> after.pinch_prev_dist == g.pinch_prev_dist
        }),
{
}

/// The finger left over from a pinch moves without scrolling: its one event is a move to
/// where it is.
pub proof fn law_leftover_finger_only_moves(
    g: Gesture,
    id: u64,
    prev: Point,
    pos: Point,
    now: u64,
    weights: RecencyWeights,
)
    requires
        g.wf(),
        g.active =~= seq![(id, prev)],
        g.pinch_occurred,
    ensures
        ({
            let events = g.touched_events(id, PHASE_MOVED, pos, now, weights);
            &&& events.len() == 1
            &&& events[0] matches PlatformInput::MouseMove(e) && e.position == pos
                && e.pressed_button == Some(MouseButton::Left)
        }),
{
    lemma_slot_is(g, id, 0);
}

/// A move of a finger that was not seen to land has no way behind it: its one event is a
/// move to where it is. It is down from then on, and feeds the tracker but not the lock.
pub proof fn law_unseen_finger_only_moves(
    g: Gesture,
    id: u64,
    pos: Point,
    now: u64,
    weights: RecencyWeights,
)
    requires
        g.active.len() == 0,
        !g.pinch_occurred,
        g.velocity.wf(),
    ensures
        ({
            let after = g.touched(id, PHASE_MOVED, pos, now, weights);
            let events = g.touched_events(id, PHASE_MOVED, pos, now, weights);
            &&& after.active =~= seq![(id, pos)]
            &&& after.axis_lock == g.axis_lock
            &&& after.velocity.samples[g.velocity.next] == Some(
                Sample { x: pos.x, y: pos.y, time: now },
            )
            &&& forall|i: int|
                0 <= i < 16 && i != g.velocity.next ==> #[trigger] after.velocity.samples[i]
                    == g.velocity.samples[i]
            &&& events.len() == 1
            &&& events[0] matches PlatformInput::MouseMove(e) && e.position == pos
                && e.pressed_button == Some(MouseButton::Left)
        }),
{
    assert(!super::super::is_down(g.active, id));
}

/// A finger that leaves a pinch has no say in a glide, the tracker or the lock. As long as
/// two are left the pinch goes on from the separation it was at; then there is none, and
/// one event, at the place of the lift and without a change, ends it.
pub proof fn law_leaving_a_pinch(
    g: Gesture,
    id: u64,
    phase: i32,
    pos: Point,
    now: u64,
    weights: RecencyWeights,
)
    requires
        phase == PHASE_ENDED || phase == PHASE_CANCELLED,
        g.active.len() >= 2,
    ensures
        ({
            let after = g.touched(id, phase, pos, now, weights);
            let events = g.touched_events(id, phase, pos, now, weights);
            &&& after.momentum == g.momentum
            &&& after.momentum_pos == g.momentum_pos
            &&& after.momentum_open == g.momentum_open
            &&& after.momentum_axis == g.momentum_axis
            &&& after.velocity == g.velocity
            &&& after.axis_lock == g.axis_lock
            &&& after.active.len() > 0 ==> after.pinch_occurred == g.pinch_occurred
            &&& if after.active.len() >= 2 {
                after.pinch_prev_dist == g.pinch_prev_dist && events.len() == 0
            } else {
                &&& after.pinch_prev_dist is None
                &&& events.len() == 1
                &&& events[0] matches PlatformInput::Pinch(e) && e.position == pos
                    && e.delta.value() == 0real && e.phase == TouchPhase::Ended
            }
        }),
{
    Single::lemma_format();
    Single::format().lemma_value_zero();
    assert(Single::zero().value() == 0real);
}

/// A second finger opens no press and starts the lock afresh; the tracker keeps what it has.
/// A glide that was on is released where it had got to, and is at a standstill.
pub proof fn law_landing_stops_the_glide(
    g: Gesture,
    id: u64,
    pos: Point,
    now: u64,
    weights: RecencyWeights,
)
    ensures
        ({
            let after = g.touched(id, PHASE_BEGAN, pos, now, weights);
            let events = g.touched_events(id, PHASE_BEGAN, pos, now, weights);
            &&& !after.momentum_open
            &&& after.momentum_pos == g.momentum_pos
            &&& after.axis_lock.locked is None
            &&& after.active.len() >= 2 ==> {
                &&& after.pinch_occurred
                &&& after.velocity == g.velocity
            }
            &&& after.active.len() < 2 ==> {
                &&& after.pinch_occurred == g.pinch_occurred
                &&& after.pinch_prev_dist == g.pinch_prev_dist
            }
            &&& if g.momentum_open {
                &&& !after.momentum.active
                &&& after.momentum.vx.value() == 0real
                &&& after.momentum.vy.value() == 0real
                &&& after.momentum_axis is None
                &&& events.len() == 2
                &&& events[0] matches PlatformInput::MouseUp(e) && e.position == g.momentum_pos
                    && e.button == MouseButton::Left
            } else {
                &&& after.momentum == g.momentum
                &&& after.momentum_axis == g.momentum_axis
                &&& events.len() == 1
            }
            &&& after.active.len() >= 2 ==> events.last() is Pinch
            &&& after.active.len() < 2 ==> (events.last() matches PlatformInput::MouseDown(e)
                && e.position == pos && e.button == MouseButton::Left)
        }),
{
    Single::lemma_format();
    Single::format().lemma_value_zero();
    assert(Single::zero().value() == 0real);
}

/// A touch that is interrupted, or the last finger of a pinch that lifts, flings nothing: it
/// is one release, which is that of a glide where one is on, and of the touch, where it
/// ended, otherwise. The tracker and the lock are cleared.
pub proof fn law_no_fling_without_a_clean_lift(
    g: Gesture,
    id: u64,
    phase: i32,
    pos: Point,
    now: u64,
    weights: RecencyWeights,
)
    requires
        g.active.len() < 2,
        phase == PHASE_CANCELLED || (phase == PHASE_ENDED && g.pinch_occurred),
    ensures
        ({
            let after = g.touched(id, phase, pos, now, weights);
            let events = g.touched_events(id, phase, pos, now, weights);
            &&& !after.momentum_open
            &&& after.pinch_prev_dist == g.pinch_prev_dist
            &&& after.velocity == crate::momentum::laws::ring::recorded(Seq::empty())
            &&& after.axis_lock.locked is None
            &&& after.axis_lock.accum.x.value() == 0real
            &&& after.axis_lock.accum.y.value() == 0real
            &&& events.len() == 1
            &&& if g.momentum_open {
                &&& !after.momentum.active
                &&& events[0] matches PlatformInput::MouseUp(e) && e.position == g.momentum_pos
            } else {
                &&& after.momentum == g.momentum
                &&& events[0] matches PlatformInput::MouseUp(e) && e.position == pos
            }
        }),
{
    Single::lemma_format();
    Single::format().lemma_value_zero();
    assert(Single::zero().value() == 0real);
}

/// At first no finger is down and nothing glides; the tracker and the lock are empty.
pub proof fn law_fresh_gesture_is_at_rest()
    ensures
        ({
            let g = Gesture::fresh();
            &&& g.wf()
            &&& g.active.len() == 0
            &&& g.pinch_prev_dist is None
            &&& !g.pinch_occurred
            &&& !g.momentum_open
            &&& !g.momentum.active
            &&& g.momentum.vx.value() == 0real
            &&& g.momentum.vy.value() == 0real
            &&& g.momentum_pos.x.value() == 0real
            &&& g.momentum_pos.y.value() == 0real
            &&& g.momentum_axis is None
            &&& g.velocity == crate::momentum::laws::ring::recorded(Seq::empty())
            &&& g.axis_lock.locked is None
            &&& g.axis_lock.accum.x.value() == 0real
            &&& g.axis_lock.accum.y.value() == 0real
        }),
{
    Single::lemma_format();
    Single::format().lemma_value_zero();
    assert(Single::zero().value() == 0real);
}

/// A frame has no say in anything but the glide.
pub proof fn law_frames_leave_the_touches_alone(
    g: Gesture,
    bounds: Size,
    now: u64,
    decay: Decay,
)
    ensures
        ({
            let after = g.pumped(bounds, now, decay);
            &&& after.active == g.active
            &&& after.pinch_prev_dist == g.pinch_prev_dist
            &&& after.pinch_occurred == g.pinch_occurred
            &&& after.velocity == g.velocity
            &&& after.axis_lock == g.axis_lock
            &&& after.momentum_axis == g.momentum_axis
            &&& g.momentum_open ==> after.momentum == g.momentum.stepped(now, decay)
            &&& after.momentum_open ==> g.momentum_open && g.momentum.moved(now, decay) is Some
        }),
{
}

/// The modifiers that an event carries.
pub open spec fn modifiers_of(event: PlatformInput) -> Modifiers {
    match event {
        PlatformInput::MouseDown(e) => e.modifiers,
        PlatformInput::MouseMove(e) => e.modifiers,
        PlatformInput::MouseUp(e) => e.modifiers,
        PlatformInput::ScrollWheel(e) => e.modifiers,
        PlatformInput::Pinch(e) => e.modifiers,
    }
}

/// An event of a touch screen: no key is held; a press is a single click of the first
/// pointer, a release ends one, a move or a scroll is by touch.
pub open spec fn is_of_a_touch(event: PlatformInput) -> bool {
    let m = modifiers_of(event);
    &&& !m.control && !m.alt && !m.shift && !m.platform && !m.function
    &&& match event {
        PlatformInput::MouseDown(e) => e.click_count == 1 && e.first_mouse && e.button
            == MouseButton::Left,
        PlatformInput::MouseMove(e) => e.is_touch && e.pressed_button == Some(MouseButton::Left),
        PlatformInput::MouseUp(e) => e.click_count == 1 && e.button == MouseButton::Left,
        PlatformInput::ScrollWheel(e) => e.is_touch && e.touch_phase == TouchPhase::Moved,
        PlatformInput::Pinch(_) => true,
    }
}

/// Every event of a touch or a frame is one of a touch screen.
pub proof fn law_events_are_of_a_touch(
    g: Gesture,
    id: u64,
    phase: i32,
    pos: Point,
    now: u64,
    weights: RecencyWeights,
    bounds: Size,
    decay: Decay,
)
    ensures
        forall|i: int|
            0 <= i < g.touched_events(id, phase, pos, now, weights).len() ==> is_of_a_touch(
                #[trigger] g.touched_events(id, phase, pos, now, weights)[i],
            ),
        forall|i: int|
            0 <= i < g.pumped_events(bounds, now, decay).len() ==> is_of_a_touch(
                #[trigger] g.pumped_events(bounds, now, decay)[i],
            ),
{
}

} // verus!
