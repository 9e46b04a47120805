//! What a drag of one finger is, measured: the axis lock, the scroll, the samples.

use vstd::prelude::*;
use crate::geometry::Point;
use crate::ieee::single::Single;
use crate::input::{MouseButton, PlatformInput, ScrollDelta, TouchPhase};
use crate::momentum::{RecencyWeights, Sample};
use super::super::{
    AxisLock,
    Gesture,
    LockedAxis,
    PHASE_BEGAN,
    PHASE_ENDED,
};

verus! {

/// A point with finite coordinates, none further than `reach` from zero.
pub open spec fn is_within(p: Point, reach: real) -> bool {
    &&& p.x.is_finite()
    &&& p.y.is_finite()
    &&& crate::ieee::error::size(p.x.value()) <= reach
    &&& crate::ieee::error::size(p.y.value()) <= reach
}

/// What rounding may add to a displacement over some moves.
pub open spec fn slack(moves: nat, reach: real) -> real {
    moves as real * (reach / 1048576real)
}

/// Where a finger is after a press and some moves.
pub open spec fn last_of(press: Point, way: Seq<(Point, u64)>) -> Point {
    if way.len() == 0 {
        press
    } else {
        way.last().0
    }
}

/// One move adds its displacement, on each axis by itself.
proof fn lemma_accumulates(accum: Single, prev: Single, pos: Single, reach: real)
    requires
        accum.is_finite(),
        crate::ieee::error::size(accum.value()) <= 8real,
        prev.is_finite(),
        pos.is_finite(),
        crate::ieee::error::size(prev.value()) <= reach,
        crate::ieee::error::size(pos.value()) <= reach,
        1real <= reach <= 1048576real,
    ensures
        ({
            let sum = accum.plus(pos.minus(prev));
            &&& sum.is_finite()
            &&& crate::ieee::error::size(
                sum.value() - (accum.value() + (pos.value() - prev.value())),
            ) <= reach / 1048576real
        }),
{
    Single::lemma_least();
    let x = pos.value() - prev.value();
    Single::lemma_in_range(x);
    Single::law_difference_is_near(pos, prev);
    let d = pos.minus(prev);
    let y = accum.value() + d.value();
    Single::lemma_in_range(y);
    Single::law_sum_is_near(accum, d);
}

/// An open lock commits exactly when the displacement it has accumulated reaches eight
/// pixels on an axis: to the horizontal one where that is no less than the other, else to
/// the vertical one.
pub proof fn law_lock_commits_at_eight_pixels(lock: AxisLock, delta: Point)
    requires
        lock.locked is None,
        lock.accum.plus(delta).x.is_finite(),
        lock.accum.plus(delta).y.is_finite(),
    ensures
        ({
            let next = lock.applied(delta);
            let ax = crate::ieee::error::size(next.accum.x.value());
            let ay = crate::ieee::error::size(next.accum.y.value());
            &&& next.locked is None <==> ax < 8real && ay < 8real
            &&& next.locked == Some(LockedAxis::Horizontal) <==> ax >= 8real && ax >= ay
            &&& next.locked == Some(LockedAxis::Vertical) <==> ay >= 8real && ay > ax
        }),
{
    let sum = lock.accum.plus(delta);
    super::law_lock_picks_the_dominant_axis(sum);
    Single::lemma_magnitude(sum.x);
    Single::lemma_magnitude(sum.y);
}

/// A lock adds up every move, with its sign, on each axis, whether it has committed or not.
pub proof fn law_lock_adds_every_move(lock: AxisLock, delta: Point)
    requires
        is_within(lock.accum, 1000000000real),
        is_within(delta, 1000000000real),
    ensures
        ({
            let next = lock.applied(delta);
            &&& next.accum.x.near(lock.accum.x.value() + delta.x.value())
            &&& next.accum.y.near(lock.accum.y.value() + delta.y.value())
        }),
{
    Single::lemma_in_range(lock.accum.x.value() + delta.x.value());
    Single::lemma_in_range(lock.accum.y.value() + delta.y.value());
    Single::law_sum_is_near(lock.accum.x, delta.x);
    Single::law_sum_is_near(lock.accum.y, delta.y);
}

/// A lock that has committed stays with its axis.
pub proof fn law_lock_never_changes_its_mind(lock: AxisLock, delta: Point)
    requires
        lock.locked is Some,
    ensures
        lock.applied(delta).locked == lock.locked,
{
}

/// As long as no axis is chosen, what the lock weighs is the signed displacement of the
/// drag: after a press and any moves of that lone finger it has accumulated the last
/// position minus that of the press, on each axis, but for the rounding of each move.
/// The axis is committed at the first move at which that displacement reaches eight
/// pixels on an axis, and to the axis on which it is the larger.
pub proof fn law_lock_measures_the_drag(
    g: Gesture,
    id: u64,
    press: Point,
    time: u64,
    way: Seq<(Point, u64)>,
    reach: real,
)
    requires
        g.wf(),
        g.active.len() == 0,
        !g.pinch_occurred,
        1real <= reach <= 1048576real,
        is_within(press, reach),
        forall|i: int| 0 <= i < way.len() ==> is_within(#[trigger] way[i].0, reach),
        way.len() > 0 ==> super::dragged(
            g.began(id, press, time),
            id,
            way.drop_last(),
        ).axis_lock.locked is None,
    ensures
        ({
            let lock = super::dragged(g.began(id, press, time), id, way).axis_lock;
            let last = last_of(press, way);
            let dx = last.x.value() - press.x.value();
            let dy = last.y.value() - press.y.value();
            let ax = lock.accum.x.value();
            let ay = lock.accum.y.value();
            let e = slack(way.len(), reach);
            &&& lock.accum.x.is_finite() && crate::ieee::error::size(ax - dx) <= e
            &&& lock.accum.y.is_finite() && crate::ieee::error::size(ay - dy) <= e
            &&& lock.locked is None <==> crate::ieee::error::size(ax) < 8real
                && crate::ieee::error::size(ay) < 8real
            &&& crate::ieee::error::size(dx) >= 8real + e || crate::ieee::error::size(dy) >= 8real
                + e ==> lock.locked is Some
            &&& crate::ieee::error::size(dx) < 8real - e && crate::ieee::error::size(dy) < 8real
                - e ==> lock.locked is None
            &&& lock.locked == Some(LockedAxis::Horizontal) ==> {
                &&& crate::ieee::error::size(dx) >= 8real - e
                &&& crate::ieee::error::size(dx) + 2real * e >= crate::ieee::error::size(dy)
            }
            &&& lock.locked == Some(LockedAxis::Vertical) ==> {
                &&& crate::ieee::error::size(dy) >= 8real - e
                &&& crate::ieee::error::size(dy) + 2real * e >= crate::ieee::error::size(dx)
            }
        }),
    decreases way.len(),
{
    let start = g.began(id, press, time);
    let c = reach / 1048576real;
    assert(c >= 0real);
    Single::lemma_format();
    Single::format().lemma_value_zero();
    if way.len() == 0 {
        assert(0real * c == 0real) by (nonlinear_arith);
    } else {
        let rest = way.drop_last();
        let n = way.len();
        let before = super::dragged(start, id, rest);
        let prev = last_of(press, rest);
        let pos = way.last().0;
        lemma_lone(g, id, press, time, rest);
        if rest.len() > 0 {
            let earlier = super::dragged(start, id, rest.drop_last());
            lemma_lone(g, id, press, time, rest.drop_last());
            assert(before.axis_lock.locked is None);
            assert(earlier.axis_lock.locked is None);
        }
        assert forall|i: int| 0 <= i < rest.len() implies is_within(
            #[trigger] rest[i].0,
            reach,
        ) by {
            assert(rest[i] == way[i]);
        }
        law_lock_measures_the_drag(g, id, press, time, rest, reach);
        if rest.len() > 0 {
            assert(prev == way[way.len() - 2].0);
        }
        assert(pos == way[way.len() - 1].0);
        assert(is_within(prev, reach) && is_within(pos, reach));
        let accum = before.axis_lock.accum;
        lemma_accumulates(accum.x, prev.x, pos.x, reach);
        lemma_accumulates(accum.y, prev.y, pos.y, reach);
        law_lock_commits_at_eight_pixels(before.axis_lock, pos.minus(prev));
        let a = n as real;
        let b = rest.len() as real;
        assert(a * c == b * c + c) by (nonlinear_arith)
            requires
                a == b + 1real,
        ;
        assert(b * c >= 0real) by (nonlinear_arith)
            requires
                b >= 0real,
                c >= 0real,
        ;
    }
}

/// A lone finger's moves go from where it was last seen; its press opens the lock.
proof fn lemma_lone(g: Gesture, id: u64, press: Point, time: u64, way: Seq<(Point, u64)>)
    requires
        g.wf(),
        g.active.len() == 0,
        !g.pinch_occurred,
    ensures
        ({
            let now = super::dragged(g.began(id, press, time), id, way);
            &&& now.wf()
            &&& now.active =~= seq![(id, last_of(press, way))]
            &&& !now.pinch_occurred
            &&& super::super::position_of(now.active, id) == Some(last_of(press, way))
            &&& way.len() > 0 ==> {
                let before = super::dragged(g.began(id, press, time), id, way.drop_last());
                let prev = last_of(press, way.drop_last());
                now.axis_lock == before.axis_lock.applied(way.last().0.minus(prev))
            }
            &&& way.len() == 0 ==> now.axis_lock == AxisLock::open_lock()
        }),
    decreases way.len(),
{
    let start = g.began(id, press, time);
    let now = super::dragged(start, id, way);
    if way.len() == 0 {
        assert(!super::super::is_down(g.active, id));
        assert(now.active =~= seq![(id, press)]);
    } else {
        lemma_lone(g, id, press, time, way.drop_last());
        let before = super::dragged(start, id, way.drop_last());
        assert(before.active[0].0 == id);
        assert(super::super::is_down(before.active, id));
        assert(super::super::slot_of(before.active, id) == 0);
        assert(now.active =~= seq![(id, way.last().0)]);
    }
    assert(now.active[0].0 == id);
    assert(super::super::is_down(now.active, id));
    assert(super::super::slot_of(now.active, id) == 0);
}

/// A move of a lone finger is two events at the place where it now is: a scroll by the way
/// it went since it was last seen, and a move with the button held. Once an axis is chosen
/// the scroll has nothing across it; along it, and on both axes before, it is the
/// difference of the two positions, but for rounding.
pub proof fn law_scroll_is_the_way(g: Gesture, id: u64, prev: Point, pos: Point, now: u64)
    requires
        g.wf(),
        g.active =~= seq![(id, prev)],
        !g.pinch_occurred,
        is_within(prev, 1000000000real),
        is_within(pos, 1000000000real),
    ensures
        ({
            let events = g.moved_events(id, pos);
            let axis = g.moved(id, pos, now).axis_lock.locked;
            let dx = pos.x.value() - prev.x.value();
            let dy = pos.y.value() - prev.y.value();
            &&& events.len() == 2
            &&& events[0] matches PlatformInput::ScrollWheel(e) && {
                &&& e.position == pos
                &&& e.touch_phase == TouchPhase::Moved
                &&& e.is_touch
                &&& e.delta matches ScrollDelta::Pixels(d) && {
                    &&& if axis == Some(LockedAxis::Vertical) {
                        d.x.is_finite() && d.x.value() == 0real
                    } else {
                        d.x.near(dx)
                    }
                    &&& if axis == Some(LockedAxis::Horizontal) {
                        d.y.is_finite() && d.y.value() == 0real
                    } else {
                        d.y.near(dy)
                    }
                }
            }
            &&& events[1] matches PlatformInput::MouseMove(e) && {
                &&& e.position == pos
                &&& e.pressed_button == Some(MouseButton::Left)
                &&& e.is_touch
            }
        }),
{
    assert(g.active[0].0 == id);
    assert(super::super::is_down(g.active, id));
    assert(super::super::slot_of(g.active, id) == 0);
    let dx = pos.x.value() - prev.x.value();
    let dy = pos.y.value() - prev.y.value();
    Single::lemma_in_range(dx);
    Single::lemma_in_range(dy);
    Single::law_difference_is_near(pos.x, prev.x);
    Single::law_difference_is_near(pos.y, prev.y);
    Single::lemma_format();
    Single::format().lemma_value_zero();
    assert(Single::zero().value() == 0real && Single::zero().is_finite());
}

/// The samples of a press and the moves after it.
pub open spec fn samples_of(press: Point, time: u64, way: Seq<(Point, u64)>) -> Seq<Sample> {
    Seq::new(
        way.len() + 1,
        |i: int|
            if i == 0 {
                Sample { x: press.x, y: press.y, time }
            } else {
                Sample { x: way[i - 1].0.x, y: way[i - 1].0.y, time: way[i - 1].1 }
            },
    )
}

/// The velocity of a drag is that of its own samples: the tracker holds the press and every
/// move of the finger, at its place and time, and nothing from before the press.
pub proof fn law_tracker_follows_the_drag(
    g: Gesture,
    id: u64,
    press: Point,
    time: u64,
    way: Seq<(Point, u64)>,
)
    requires
        g.wf(),
        g.active.len() == 0,
        !g.pinch_occurred,
    ensures
        super::dragged(g.began(id, press, time), id, way).velocity
            == crate::momentum::laws::ring::recorded(samples_of(press, time, way)),
    decreases way.len(),
{
    let samples = samples_of(press, time, way);
    if way.len() == 0 {
        assert(samples.drop_last() =~= Seq::empty());
        assert(!super::super::is_down(g.active, id));
        reveal_with_fuel(crate::momentum::laws::ring::recorded, 2);
    } else {
        let rest = way.drop_last();
        law_tracker_follows_the_drag(g, id, press, time, rest);
        assert(samples.drop_last() =~= samples_of(press, time, rest));
        lemma_lone(g, id, press, time, rest);
        lemma_lone(g, id, press, time, way);
    }
}

/// Whether a gesture is at rest but for one finger, which has not pinched.
pub open spec fn is_held(g: Gesture, id: u64) -> bool {
    &&& g.wf()
    &&& g.active.len() == 1
    &&& g.active[0].0 == id
    &&& !g.pinch_occurred
    &&& !g.momentum_open
}

/// A clean lift, of a lone finger that has not pinched, flings exactly when its velocity is
/// no slower than thirty pixels a second, but for rounding. The glide then has, on each
/// axis, the velocity that the tracker reports at that instant; it starts at that instant,
/// where the finger was, along the axis of the drag, and nothing is emitted. Otherwise the
/// lift is a release there. Either way the tracker and the lock are cleared.
pub proof fn law_fling_goes_on_as_the_finger_went(
    g: Gesture,
    id: u64,
    pos: Point,
    now: u64,
    weights: RecencyWeights,
)
    requires
        g.wf(),
        g.active.len() < 2,
        !g.pinch_occurred,
        !g.momentum_open,
        weights.wf(),
        forall|i: int|
            0 <= i < g.velocity.samples.len() && (#[trigger] g.velocity.samples[i]) is Some
                ==> crate::momentum::laws::velocity::is_finite_sample(g.velocity.samples[i]->0),
    ensures
        ({
            let after = g.touched(id, PHASE_ENDED, pos, now, weights);
            let events = g.touched_events(id, PHASE_ENDED, pos, now, weights);
            let v = g.velocity.velocity(now, weights);
            let speed = crate::momentum::laws::release::speed_squared(v.0, v.1);
            &&& speed >= 901real ==> after.momentum_open
            &&& speed <= 899real ==> !after.momentum_open
            &&& after.momentum_open <==> after.momentum.active
            &&& after.momentum_open ==> {
                &&& after.momentum.vx == v.0
                &&& after.momentum.vy == v.1
                &&& after.momentum.last_time == now
                &&& after.momentum_pos == pos
                &&& after.momentum_axis == g.axis_lock.locked
                &&& events.len() == 0
            }
            &&& !after.momentum_open ==> {
                &&& events.len() == 1
                &&& events[0] matches PlatformInput::MouseUp(e) && e.position == pos && e.button
                    == MouseButton::Left
                &&& after.momentum_pos == g.momentum_pos
                &&& after.momentum_axis == g.momentum_axis
            }
            &&& after.pinch_prev_dist == g.pinch_prev_dist
            &&& !after.pinch_occurred
            &&& after.velocity == crate::momentum::laws::ring::recorded(Seq::empty())
            &&& after.axis_lock.locked is None
            &&& after.axis_lock.accum.x.value() == 0real
            &&& after.axis_lock.accum.y.value() == 0real
        }),
{
    crate::momentum::laws::velocity::law_velocity_is_finite(g.velocity, now, weights);
    let v = g.velocity.velocity(now, weights);
    crate::momentum::laws::release::law_fling_keeps_the_velocity(g.momentum, v.0, v.1, now);
    Single::lemma_format();
    Single::format().lemma_value_zero();
    assert(Single::zero().value() == 0real);
}

/// A first finger is a press where it lands, and starts afresh: the lock is open with no
/// displacement, and the tracker holds this one sample.
pub proof fn law_first_finger_is_a_press(
    g: Gesture,
    id: u64,
    pos: Point,
    now: u64,
    weights: RecencyWeights,
)
    requires
        g.wf(),
        g.active.len() == 0,
        !g.momentum_open,
        !g.pinch_occurred,
    ensures
        ({
            let after = g.touched(id, PHASE_BEGAN, pos, now, weights);
            let events = g.touched_events(id, PHASE_BEGAN, pos, now, weights);
            &&& is_held(after, id)
            &&& after.active[0].1 == pos
            &&& after.axis_lock.locked is None
            &&& after.axis_lock.accum.x.value() == 0real
            &&& after.axis_lock.accum.y.value() == 0real
            &&& after.velocity == crate::momentum::laws::ring::recorded(
                seq![Sample { x: pos.x, y: pos.y, time: now }],
            )
            &&& events.len() == 1
            &&& events[0] matches PlatformInput::MouseDown(e) && e.position == pos && e.button
                == MouseButton::Left
        }),
{
    assert(!super::super::is_down(g.active, id));
    Single::lemma_format();
    Single::format().lemma_value_zero();
    assert(Single::zero().value() == 0real);
    let one = seq![Sample { x: pos.x, y: pos.y, time: now }];
    assert(one.drop_last() =~= Seq::empty());
    reveal_with_fuel(crate::momentum::laws::ring::recorded, 2);
}

} // verus!
