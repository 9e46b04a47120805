//! Multi-touch aggregation: raw touches in, cooked [`PlatformInput`] events out.
//!
//! The host forwards every touch (each phase, each finger) as
//! `(pointer_id, phase, position)` in logical pixels; [`TouchAggregator`] turns that
//! raw stream into input events, so that all gesture semantics stay with the
//! consumer.
//!
//! # Phases
//!
//! The `phase` argument is a small-integer convention of this crate, not the raw
//! phase code of the host's toolkit, which the host has to translate:
//!
//! | `phase` | meaning             |
//! |---------|---------------------|
//! | `0`     | [`PHASE_BEGAN`]     |
//! | `1`     | [`PHASE_MOVED`]     |
//! | `2`     | [`PHASE_ENDED`]     |
//! | `3`     | [`PHASE_CANCELLED`] |
//!
//! `pointer_id` is a stable per-finger identity for the lifetime of one touch. An
//! unknown `phase` is ignored.
//!
//! # Gestures
//!
//! - One finger: a press, then on every drag step a scroll for scroll containers and
//!   a move for everything else, then a release. The scroll delta is locked to the
//!   dominant axis of the drag, see [`AxisLock`].
//! - Two fingers: a pinch. The second finger's press is suppressed, and neither
//!   scrolls nor moves are emitted while pinching.
//! - Momentum: a fast one-finger lift seeds a [`MomentumScroller`];
//!   [`TouchAggregator::pump_momentum`] continues the fling on both channels, then
//!   releases.

pub mod laws;

use vstd::prelude::*;
use crate::geometry::{Point, Size};
use crate::ieee::single::Single;
use crate::input::{mouse_down, mouse_move, mouse_up, pinch, scroll_wheel};
use crate::input::{PlatformInput, TouchPhase};
use crate::momentum::{
    Decay,
    MomentumScroller,
    MomentumStep,
    RecencyWeights,
    Ring,
    Sample,
    VelocityTracker,
};

verus! {

/// Finger touched down.
pub const PHASE_BEGAN: i32 = 0;

/// Finger moved or stayed put.
pub const PHASE_MOVED: i32 = 1;

/// Finger lifted.
pub const PHASE_ENDED: i32 = 2;

/// Touch interrupted by the system.
pub const PHASE_CANCELLED: i32 = 3;

/// Minimum drag displacement (logical px) along the dominant axis before a
/// one-finger scroll commits to that axis: small enough that a deliberate swipe locks
/// almost immediately, large enough that the first jittery pixels of a press do not
/// pick a spurious axis.
pub const AXIS_LOCK_THRESHOLD_PX: u64 = 8;

/// The axis a one-finger scroll has committed to for the rest of a drag.
#[derive(Clone, Copy, Debug, PartialEq, Eq, Structural)]
pub enum LockedAxis {
    Horizontal,
    Vertical,
}

impl LockedAxis {
    /// The delta with the component orthogonal to this axis zeroed.
    pub open spec fn projected(self, delta: Point) -> Point {
        match self {
            LockedAxis::Horizontal => Point { x: delta.x, y: Single::zero() },
            LockedAxis::Vertical => Point { x: Single::zero(), y: delta.y },
        }
    }

    pub fn project(self, delta: Point) -> (r: Point)
        ensures
            r == self.projected(delta),
    {
        match self {
            LockedAxis::Horizontal => Point { x: delta.x, y: Single::from_bits(0) },
            LockedAxis::Vertical => Point { x: Single::from_bits(0), y: delta.y },
        }
    }
}

/// The delta along a committed axis, or the whole of it where there is none.
pub open spec fn projected_on(axis: Option<LockedAxis>, delta: Point) -> Point {
    match axis {
        Some(a) => a.projected(delta),
        None => delta,
    }
}

fn project_on(axis: Option<LockedAxis>, delta: Point) -> (r: Point)
    ensures
        r == projected_on(axis, delta),
{
    match axis {
        Some(a) => a.project(delta),
        None => delta,
    }
}

/// Per-gesture dominant-axis lock for the one-finger scroll channel.
///
/// Without a lock, a diagonal drag over a horizontally scrolling carousel inside a
/// vertically scrolling sheet scrolls both at once. So the drag displacement is
/// accumulated and, once it clears [`AXIS_LOCK_THRESHOLD_PX`], the lock commits to
/// the larger-magnitude axis and zeroes the minor component of every later delta.
#[derive(Clone, Copy, Debug, PartialEq)]
pub struct AxisLock {
    /// Signed drag displacement since the gesture began (logical px).
    pub accum: Point,
    /// The committed axis, or `None` until the threshold is cleared.
    pub locked: Option<LockedAxis>,
}

/// The axis that a displacement commits to: the one of the larger magnitude,
/// horizontal on a tie, once that magnitude reaches the threshold.
pub open spec fn dominant_axis(displacement: Point) -> Option<LockedAxis> {
    let ax = displacement.x.magnitude();
    let ay = displacement.y.magnitude();
    if ax.larger(ay).at_least(Single::nearest(AXIS_LOCK_THRESHOLD_PX as real)) {
        Some(if ax.at_least(ay) { LockedAxis::Horizontal } else { LockedAxis::Vertical })
    } else {
        None
    }
}

impl AxisLock {
    /// A lock that has chosen no axis yet.
    pub open spec fn open_lock() -> AxisLock {
        AxisLock { accum: Point::origin(), locked: None }
    }

    /// The lock after the drag moved by `delta`.
    pub open spec fn applied(self, delta: Point) -> AxisLock {
        let accum = self.accum.plus(delta);
        AxisLock {
            accum,
            locked: match self.locked {
                Some(axis) => Some(axis),
                None => dominant_axis(accum),
            },
        }
    }

    /// Clears all state for a fresh gesture.
    pub fn reset(&mut self)
        ensures
            *final(self) == AxisLock::open_lock(),
    {
        *self = Self::default();
    }

    /// The committed axis, if the drag has locked yet.
    pub fn locked(&self) -> (r: Option<LockedAxis>)
        ensures
            r == self.locked,
    {
        self.locked
    }

    /// Feeds one raw per-step scroll delta; returns the delta to emit, with the minor
    /// axis zeroed once the drag has locked.
    ///
    /// Accumulates the displacement first, so the drag locks to whichever axis
    /// dominates the motion from the gesture's start, not just the latest step.
    pub fn apply(&mut self, delta: Point) -> (r: Point)
        ensures
            *final(self) == old(self).applied(delta),
            r == projected_on(old(self).applied(delta).locked, delta),
    {
        self.accum = self.accum.add(delta);
        if self.locked.is_none() {
            let ax = self.accum.x.abs();
            let ay = self.accum.y.abs();
            if ax.max(ay).ge(Single::from_integer(AXIS_LOCK_THRESHOLD_PX)) {
                self.locked = Some(
                    if ax.ge(ay) {
                        LockedAxis::Horizontal
                    } else {
                        LockedAxis::Vertical
                    },
                );
            }
        }
        project_on(self.locked, delta)
    }
}

impl Default for AxisLock {
    fn default() -> (lock: AxisLock)
        ensures
            lock == AxisLock::open_lock(),
    {
        AxisLock { accum: Point::at_origin(), locked: None }
    }
}

/// A half-pixel margin inside an extent: the largest coordinate still inside it.
pub open spec fn inner_edge(extent: Single) -> Single {
    let half = Single::fraction(1, 2);
    extent.minus(half).larger(half)
}

/// A point brought strictly inside `[0, w] x [0, h]`, with a half-pixel margin.
pub open spec fn clamped(p: Point, bounds: Size) -> Point {
    let half = Single::fraction(1, 2);
    Point {
        x: p.x.within(half, inner_edge(bounds.width)),
        y: p.y.within(half, inner_edge(bounds.height)),
    }
}

/// Clamps a point strictly inside `[0, w] x [0, h]` (half-pixel margin) so a
/// hover-gated consumer still receives the event.
pub fn clamp_to_bounds(p: Point, bounds: Size) -> (r: Point)
    ensures
        r == clamped(p, bounds),
{
    let half = Single::from_fraction(1, 2);
    Point {
        x: p.x.clamp(half, bounds.width.sub(half).max(half)),
        y: p.y.clamp(half, bounds.height.sub(half).max(half)),
    }
}

/// Fingers on the glass, in arrival order, each with its last position.
pub type Fingers = Seq<(u64, Point)>;

/// Whether a finger is down.
pub open spec fn is_down(fingers: Fingers, id: u64) -> bool {
    exists|i: int| 0 <= i < fingers.len() && #[trigger] fingers[i].0 == id
}

/// Where a finger that is down stands in the arrival order.
pub open spec fn slot_of(fingers: Fingers, id: u64) -> int {
    choose|i: int| 0 <= i < fingers.len() && #[trigger] fingers[i].0 == id
}

/// No finger is down twice.
pub open spec fn distinct(fingers: Fingers) -> bool {
    forall|i: int, j: int|
        0 <= i < j < fingers.len() ==> #[trigger] fingers[i].0 != #[trigger] fingers[j].0
}

/// The last position of a finger that is down.
pub open spec fn position_of(fingers: Fingers, id: u64) -> Option<Point> {
    if is_down(fingers, id) {
        Some(fingers[slot_of(fingers, id)].1)
    } else {
        None
    }
}

/// The fingers once `id` is at `pos`: moved there, or arrived last.
pub open spec fn upserted(fingers: Fingers, id: u64, pos: Point) -> Fingers {
    if is_down(fingers, id) {
        fingers.update(slot_of(fingers, id), (id, pos))
    } else {
        fingers.push((id, pos))
    }
}

/// The fingers once `id` is up; the others keep their order.
pub open spec fn removed(fingers: Fingers, id: u64) -> Fingers {
    if is_down(fingers, id) {
        fingers.remove(slot_of(fingers, id))
    } else {
        fingers
    }
}

/// The midpoint of the first two fingers.
pub open spec fn pinch_center(fingers: Fingers) -> Point {
    let two = Single::nearest(2real);
    let sum = fingers[0].1.plus(fingers[1].1);
    Point { x: sum.x.over(two), y: sum.y.over(two) }
}

/// The distance between the first two fingers.
pub open spec fn pinch_distance(fingers: Fingers) -> Single {
    let d = fingers[1].1.minus(fingers[0].1);
    d.x.times(d.x).plus(d.y.times(d.y)).root()
}

/// The state of a [`TouchAggregator`].
#[verifier::ext_equal]
pub struct Gesture {
    pub active: Fingers,
    pub pinch_prev_dist: Option<Single>,
    pub pinch_occurred: bool,
    pub velocity: Ring,
    pub axis_lock: AxisLock,
    pub momentum: MomentumScroller,
    pub momentum_pos: Point,
    pub momentum_open: bool,
    pub momentum_axis: Option<LockedAxis>,
}

/// No events.
pub open spec fn nothing() -> Seq<PlatformInput> {
    Seq::empty()
}

impl Gesture {
    pub open spec fn wf(self) -> bool {
        distinct(self.active) && self.velocity.wf()
    }

    /// Nothing touched yet.
    pub open spec fn fresh() -> Gesture {
        Gesture {
            active: Seq::empty(),
            pinch_prev_dist: None,
            pinch_occurred: false,
            velocity: Ring::empty(),
            axis_lock: AxisLock::open_lock(),
            momentum: MomentumScroller::idle(),
            momentum_pos: Point::origin(),
            momentum_open: false,
            momentum_axis: None,
        }
    }

    /// A gliding fling stopped short, if there is one.
    pub open spec fn stopped(self) -> Gesture {
        if self.momentum_open {
            Gesture {
                momentum_open: false,
                momentum: self.momentum.cancelled(),
                momentum_axis: None,
                ..self
            }
        } else {
            self
        }
    }

    // A finger touches down.

    pub open spec fn began(self, id: u64, pos: Point, now: u64) -> Gesture {
        let fingers = upserted(self.active, id, pos);
        if fingers.len() >= 2 {
            Gesture {
                active: fingers,
                axis_lock: AxisLock::open_lock(),
                pinch_prev_dist: Some(pinch_distance(fingers)),
                pinch_occurred: true,
                ..self.stopped()
            }
        } else {
            Gesture {
                active: fingers,
                axis_lock: AxisLock::open_lock(),
                velocity: Ring::empty().recorded(Sample { x: pos.x, y: pos.y, time: now }),
                ..self.stopped()
            }
        }
    }

    pub open spec fn began_events(self, id: u64, pos: Point) -> Seq<PlatformInput> {
        let fingers = upserted(self.active, id, pos);
        let before = if self.momentum_open {
            seq![PlatformInput::release(self.momentum_pos)]
        } else {
            nothing()
        };
        before.push(
            if fingers.len() >= 2 {
                PlatformInput::zoom(pinch_center(fingers), Single::zero(), TouchPhase::Started)
            } else {
                PlatformInput::press(pos)
            },
        )
    }

    // A finger moves.

    /// The scroll displacement of a lone finger's move: only a genuine drag of a
    /// tracked finger scrolls, not the finger left over after a pinch.
    pub open spec fn drag_delta(self, id: u64, pos: Point) -> Option<Point> {
        match position_of(self.active, id) {
            Some(prev) => if self.pinch_occurred {
                None
            } else {
                Some(pos.minus(prev))
            },
            None => None,
        }
    }

    pub open spec fn moved(self, id: u64, pos: Point, now: u64) -> Gesture {
        let fingers = upserted(self.active, id, pos);
        if fingers.len() >= 2 {
            Gesture {
                active: fingers,
                pinch_prev_dist: Some(pinch_distance(fingers)),
                ..self
            }
        } else if self.pinch_occurred {
            Gesture { active: fingers, ..self }
        } else {
            Gesture {
                active: fingers,
                velocity: self.velocity.recorded(Sample { x: pos.x, y: pos.y, time: now }),
                axis_lock: match self.drag_delta(id, pos) {
                    Some(delta) => self.axis_lock.applied(delta),
                    None => self.axis_lock,
                },
                ..self
            }
        }
    }

    pub open spec fn moved_events(self, id: u64, pos: Point) -> Seq<PlatformInput> {
        let fingers = upserted(self.active, id, pos);
        if fingers.len() >= 2 {
            match self.pinch_prev_dist {
                Some(prev) => if Single::fraction(1, 0x80_0000).less(prev) {
                    seq![
                        PlatformInput::zoom(
                            pinch_center(fingers),
                            pinch_distance(fingers).over(prev).minus(Single::nearest(1real)),
                            TouchPhase::Moved,
                        ),
                    ]
                } else {
                    nothing()
                },
                None => nothing(),
            }
        } else {
            match self.drag_delta(id, pos) {
                Some(delta) => seq![
                    PlatformInput::scroll(
                        pos,
                        projected_on(self.axis_lock.applied(delta).locked, delta),
                        TouchPhase::Moved,
                    ),
                    PlatformInput::drag(pos),
                ],
                None => seq![PlatformInput::drag(pos)],
            }
        }
    }

    // A finger lifts, or is interrupted.

    /// Whether a lift is a clean one-finger release, which may fling.
    pub open spec fn is_clean_lift(self, cancelled: bool) -> bool {
        self.active.len() < 2 && !cancelled && !self.pinch_occurred
    }

    /// The scroller that a lift leaves.
    pub open spec fn released(self, now: u64, weights: RecencyWeights) -> MomentumScroller {
        let (vx, vy) = self.velocity.velocity(now, weights);
        self.momentum.flung(vx, vy, now)
    }

    pub open spec fn ended(
        self,
        id: u64,
        pos: Point,
        cancelled: bool,
        now: u64,
        weights: RecencyWeights,
    ) -> Gesture {
        let fingers = removed(self.active, id);
        let lifted = if self.active.len() >= 2 {
            Gesture {
                pinch_prev_dist: if fingers.len() < 2 { None } else { self.pinch_prev_dist },
                ..self
            }
        } else if self.is_clean_lift(cancelled) {
            let momentum = self.released(now, weights);
            let rested = Gesture {
                momentum,
                velocity: Ring::empty(),
                axis_lock: AxisLock::open_lock(),
                ..self
            };
            if momentum.active {
                Gesture {
                    momentum_pos: pos,
                    momentum_open: true,
                    momentum_axis: self.axis_lock.locked,
                    ..rested
                }
            } else {
                rested
            }
        } else {
            Gesture {
                velocity: Ring::empty(),
                axis_lock: AxisLock::open_lock(),
                ..self.stopped()
            }
        };
        Gesture {
            active: fingers,
            pinch_occurred: lifted.pinch_occurred && fingers.len() > 0,
            ..lifted
        }
    }

    pub open spec fn ended_events(
        self,
        id: u64,
        pos: Point,
        cancelled: bool,
        now: u64,
        weights: RecencyWeights,
    ) -> Seq<PlatformInput> {
        if self.active.len() >= 2 {
            if removed(self.active, id).len() < 2 {
                seq![PlatformInput::zoom(pos, Single::zero(), TouchPhase::Ended)]
            } else {
                nothing()
            }
        } else if self.is_clean_lift(cancelled) {
            if self.released(now, weights).active {
                nothing()
            } else {
                seq![PlatformInput::release(pos)]
            }
        } else if self.momentum_open {
            seq![PlatformInput::release(self.momentum_pos)]
        } else {
            seq![PlatformInput::release(pos)]
        }
    }

    // Any touch.

    /// The state after a touch.
    pub open spec fn touched(
        self,
        id: u64,
        phase: i32,
        pos: Point,
        now: u64,
        weights: RecencyWeights,
    ) -> Gesture {
        if phase == PHASE_BEGAN {
            self.began(id, pos, now)
        } else if phase == PHASE_MOVED {
            self.moved(id, pos, now)
        } else if phase == PHASE_ENDED {
            self.ended(id, pos, false, now, weights)
        } else if phase == PHASE_CANCELLED {
            self.ended(id, pos, true, now, weights)
        } else {
            self
        }
    }

    /// The events of a touch.
    pub open spec fn touched_events(
        self,
        id: u64,
        phase: i32,
        pos: Point,
        now: u64,
        weights: RecencyWeights,
    ) -> Seq<PlatformInput> {
        if phase == PHASE_BEGAN {
            self.began_events(id, pos)
        } else if phase == PHASE_MOVED {
            self.moved_events(id, pos)
        } else if phase == PHASE_ENDED {
            self.ended_events(id, pos, false, now, weights)
        } else if phase == PHASE_CANCELLED {
            self.ended_events(id, pos, true, now, weights)
        } else {
            nothing()
        }
    }

    // A frame of a fling.

    /// Where a step of the glide leads.
    pub open spec fn glide_position(self, step: MomentumStep, bounds: Size) -> Point {
        clamped(self.momentum_pos.plus(Point { x: step.dx, y: step.dy }), bounds)
    }

    pub open spec fn pumped(self, bounds: Size, now: u64, decay: Decay) -> Gesture {
        if !self.momentum_open {
            self
        } else {
            let momentum = self.momentum.stepped(now, decay);
            match self.momentum.moved(now, decay) {
                Some(step) => Gesture {
                    momentum,
                    momentum_pos: self.glide_position(step, bounds),
                    ..self
                },
                None => Gesture { momentum, momentum_open: false, ..self },
            }
        }
    }

    pub open spec fn pumped_events(
        self,
        bounds: Size,
        now: u64,
        decay: Decay,
    ) -> Seq<PlatformInput> {
        if !self.momentum_open {
            nothing()
        } else {
            match self.momentum.moved(now, decay) {
                Some(step) => {
                    let pos = self.glide_position(step, bounds);
                    seq![
                        PlatformInput::scroll(
                            pos,
                            projected_on(
                                self.momentum_axis,
                                Point { x: step.dx, y: step.dy },
                            ),
                            TouchPhase::Moved,
                        ),
                        PlatformInput::drag(pos),
                    ]
                },
                None => seq![PlatformInput::release(clamped(self.momentum_pos, bounds))],
            }
        }
    }
}

/// Aggregates the raw multi-touch stream into cooked [`PlatformInput`] events.
#[derive(Debug)]
pub struct TouchAggregator {
    /// Active fingers in arrival order; the first two define pinch geometry.
    pub active: Vec<(u64, Point)>,
    /// Finger separation on the previous pinch sample; `None` when not pinching.
    pub pinch_prev_dist: Option<Single>,
    /// A pinch happened during the current touch sequence, which suppresses a stray
    /// one-finger pan or momentum from the leftover finger until all lift.
    pub pinch_occurred: bool,
    pub velocity: VelocityTracker,
    /// Dominant-axis lock for the current one-finger drag's scroll channel.
    pub axis_lock: AxisLock,
    pub momentum: MomentumScroller,
    /// Synthetic drag position while a fling glides (logical px).
    pub momentum_pos: Point,
    /// A one-finger release is deferred while momentum glides the drag.
    pub momentum_open: bool,
    /// Axis the fling is locked to, carried from the drag so the glide scrolls only
    /// along the committed axis. `None` if the drag never locked.
    pub momentum_axis: Option<LockedAxis>,
}

impl View for TouchAggregator {
    type V = Gesture;

    open spec fn view(&self) -> Gesture {
        Gesture {
            active: self.active@,
            pinch_prev_dist: self.pinch_prev_dist,
            pinch_occurred: self.pinch_occurred,
            velocity: self.velocity@,
            axis_lock: self.axis_lock,
            momentum: self.momentum,
            momentum_pos: self.momentum_pos,
            momentum_open: self.momentum_open,
            momentum_axis: self.momentum_axis,
        }
    }
}

impl Default for TouchAggregator {
    fn default() -> (a: Self)
        ensures
            a@ == Gesture::fresh(),
    {
        let a = TouchAggregator {
            active: Vec::new(),
            pinch_prev_dist: None,
            pinch_occurred: false,
            velocity: VelocityTracker::new(),
            axis_lock: AxisLock::default(),
            momentum: MomentumScroller::new(),
            momentum_pos: Point::at_origin(),
            momentum_open: false,
            momentum_axis: None,
        };
        assert(a@ =~= Gesture::fresh());
        a
    }
}

impl TouchAggregator {
    /// An aggregator with no active touches.
    pub fn new() -> (a: Self)
        ensures
            a@ == Gesture::fresh(),
            a@.wf(),
    {
        Self::default()
    }

    /// Feeds one forwarded touch; returns the events to dispatch.
    ///
    /// `pos` is in logical pixels. An unrecognized `phase` yields no events.
    pub fn on_touch(
        &mut self,
        id: u64,
        phase: i32,
        pos: Point,
        now: u64,
        weights: &RecencyWeights,
    ) -> (out: Vec<PlatformInput>)
        requires
            old(self)@.wf(),
            weights.wf(),
        ensures
            final(self)@ == old(self)@.touched(id, phase, pos, now, *weights),
            out@ == old(self)@.touched_events(id, phase, pos, now, *weights),
            final(self)@.wf(),
    {
        if phase == PHASE_BEGAN {
            self.on_began(id, pos, now)
        } else if phase == PHASE_MOVED {
            self.on_moved(id, pos, now)
        } else if phase == PHASE_ENDED {
            self.on_ended(id, pos, false, now, weights)
        } else if phase == PHASE_CANCELLED {
            self.on_ended(id, pos, true, now, weights)
        } else {
            Vec::new()
        }
    }

    /// Advances an in-flight fling by one frame; returns the drag-continuation
    /// events, the finalizing release, or nothing when idle.
    ///
    /// Positions are clamped inside `bounds` so the synthetic move (and the final
    /// release) stay over the consumer's hit area: an off-window position would be
    /// silently dropped and wedge the deferred drag.
    pub fn pump_momentum(&mut self, bounds: Size, now: u64, decay: Decay) -> (out: Vec<
        PlatformInput,
    >)
        requires
            old(self)@.wf(),
        ensures
            final(self)@ == old(self)@.pumped(bounds, now, decay),
            out@ == old(self)@.pumped_events(bounds, now, decay),
            final(self)@.wf(),
    {
        let mut out: Vec<PlatformInput> = Vec::new();
        if !self.momentum_open {
            return out;
        }
        match self.momentum.step(now, decay) {
            Some(step) => {
                let delta = Point { x: step.dx, y: step.dy };
                let np = clamp_to_bounds(self.momentum_pos.add(delta), bounds);
                self.momentum_pos = np;
                // Drive both channels during the glide: the move continues the drag
                // (full 2D), the scroll decelerates any scroll container, along the
                // axis the drag locked to.
                out.push(
                    scroll_wheel(np, project_on(self.momentum_axis, delta), TouchPhase::Moved),
                );
                out.push(mouse_move(np));
            },
            None => {
                self.momentum_open = false;
                out.push(mouse_up(clamp_to_bounds(self.momentum_pos, bounds)));
            },
        }
        out
    }

    fn on_began(&mut self, id: u64, pos: Point, now: u64) -> (out: Vec<PlatformInput>)
        requires
            old(self)@.wf(),
        ensures
            final(self)@ == old(self)@.began(id, pos, now),
            out@ == old(self)@.began_events(id, pos),
            final(self)@.wf(),
    {
        let mut out: Vec<PlatformInput> = Vec::new();
        // A fresh touch stops any glide; finalize the deferred drag first.
        if self.momentum_open {
            out.push(mouse_up(self.momentum_pos));
            self.momentum_open = false;
            self.momentum.cancel();
            self.momentum_axis = None;
        }
        self.touch_upsert(id, pos);
        if self.active.len() >= 2 {
            // Second finger: a pinch. Suppress this finger's press. A pinch
            // invalidates any single-finger axis lock the first finger built up.
            self.axis_lock.reset();
            if let Some((center, dist)) = self.pinch_geometry() {
                self.pinch_prev_dist = Some(dist);
                self.pinch_occurred = true;
                out.push(pinch(center, Single::from_bits(0), TouchPhase::Started));
            }
        } else {
            // First finger: a press, with a clean axis lock.
            self.velocity.reset();
            self.axis_lock.reset();
            self.velocity.record(pos.x, pos.y, now);
            out.push(mouse_down(pos));
        }
        out
    }

    fn on_moved(&mut self, id: u64, pos: Point, now: u64) -> (out: Vec<PlatformInput>)
        requires
            old(self)@.wf(),
        ensures
            final(self)@ == old(self)@.moved(id, pos, now),
            out@ == old(self)@.moved_events(id, pos),
            final(self)@.wf(),
    {
        let mut out: Vec<PlatformInput> = Vec::new();
        // This finger's prior position, before the upsert replaces it.
        let prev = self.touch_position(id);
        self.touch_upsert(id, pos);
        if self.active.len() >= 2 {
            // Two fingers: an incremental pinch; suppress the pan.
            if let Some((center, dist)) = self.pinch_geometry() {
                if let Some(prev) = self.pinch_prev_dist {
                    if Single::from_fraction(1, 0x80_0000).lt(prev) {
                        let delta = dist.div(prev).sub(Single::from_integer(1));
                        out.push(pinch(center, delta, TouchPhase::Moved));
                    }
                }
                self.pinch_prev_dist = Some(dist);
            }
        } else {
            // Lone finger. Only a genuine drag (not the leftover finger after a
            // pinch) tracks velocity and drives the scroll channel.
            if !self.pinch_occurred {
                self.velocity.record(pos.x, pos.y, now);
                if let Some(prev) = prev {
                    let scroll = self.axis_lock.apply(pos.sub(prev));
                    out.push(scroll_wheel(pos, scroll, TouchPhase::Moved));
                }
            }
            out.push(mouse_move(pos));
        }
        out
    }

    fn on_ended(
        &mut self,
        id: u64,
        pos: Point,
        cancelled: bool,
        now: u64,
        weights: &RecencyWeights,
    ) -> (out: Vec<PlatformInput>)
        requires
            old(self)@.wf(),
            weights.wf(),
        ensures
            final(self)@ == old(self)@.ended(id, pos, cancelled, now, *weights),
            out@ == old(self)@.ended_events(id, pos, cancelled, now, *weights),
            final(self)@.wf(),
    {
        let mut out: Vec<PlatformInput> = Vec::new();
        let was_pinching = self.active.len() >= 2;
        self.touch_remove(id);
        if was_pinching {
            // A finger left a pinch. End it once fewer than two remain; the
            // suppressed finger never became a press, so emit no release.
            if self.active.len() < 2 {
                self.pinch_prev_dist = None;
                out.push(pinch(pos, Single::from_bits(0), TouchPhase::Ended));
            }
        } else if !cancelled && !self.pinch_occurred {
            // Clean one-finger lift: fling on a fast release, else end the drag.
            let (vx, vy) = self.velocity.velocity(now, weights);
            self.momentum.fling(vx, vy, now);
            if self.momentum.is_active() {
                self.momentum_pos = pos;
                self.momentum_open = true;
                // Carry the drag's axis lock into the fling so the glide stays on the
                // committed axis; the drag lock itself resets below.
                self.momentum_axis = self.axis_lock.locked();
            } else {
                out.push(mouse_up(pos));
            }
            self.velocity.reset();
            self.axis_lock.reset();
        } else {
            // Cancelled, or the leftover finger after a pinch: end plainly. Also fold
            // a cancel arriving mid-glide back into a clean finalize.
            if self.momentum_open {
                out.push(mouse_up(self.momentum_pos));
                self.momentum_open = false;
                self.momentum.cancel();
                self.momentum_axis = None;
            } else {
                out.push(mouse_up(pos));
            }
            self.velocity.reset();
            self.axis_lock.reset();
        }
        if self.active.len() == 0 {
            self.pinch_occurred = false;
        }
        out
    }

    /// Where a finger stands in the arrival order, if it is down.
    fn touch_slot(&self, id: u64) -> (r: Option<usize>)
        requires
            distinct(self.active@),
        ensures
            r is Some <==> is_down(self.active@, id),
            r matches Some(i) ==> i == slot_of(self.active@, id) && i < self.active@.len()
                && self.active@[i as int].0 == id,
    {
        let mut i: usize = 0;
        while i < self.active.len()
            invariant
                i <= self.active@.len(),
                distinct(self.active@),
                forall|j: int| 0 <= j < i ==> #[trigger] self.active@[j].0 != id,
            decreases self.active@.len() - i,
        {
            if self.active[i].0 == id {
                proof {
                    let j = slot_of(self.active@, id);
                    assert(self.active@[i as int].0 == id);
                    assert(self.active@[j].0 == id);
                    assert(j == i);
                }
                return Some(i);
            }
            i = i + 1;
        }
        None
    }

    /// The last position of a finger, if it is down.
    fn touch_position(&self, id: u64) -> (r: Option<Point>)
        requires
            distinct(self.active@),
        ensures
            r == position_of(self.active@, id),
    {
        match self.touch_slot(id) {
            Some(i) => Some(self.active[i].1),
            None => None,
        }
    }

    fn touch_upsert(&mut self, id: u64, pos: Point)
        requires
            distinct(old(self).active@),
        ensures
            final(self)@ == (Gesture {
                active: upserted(old(self).active@, id, pos),
                ..old(self)@
            }),
            distinct(final(self).active@),
    {
        match self.touch_slot(id) {
            Some(i) => {
                self.active[i] = (id, pos);
            },
            None => {
                self.active.push((id, pos));
            },
        }
    }

    fn touch_remove(&mut self, id: u64)
        requires
            distinct(old(self).active@),
        ensures
            final(self)@ == (Gesture { active: removed(old(self).active@, id), ..old(self)@ }),
            distinct(final(self).active@),
    {
        if let Some(i) = self.touch_slot(id) {
            self.active.remove(i);
        }
    }

    /// Pinch centroid and finger separation from the first two active touches, or
    /// `None` with fewer than two.
    pub fn pinch_geometry(&self) -> (r: Option<(Point, Single)>)
        ensures
            r == if self.active@.len() < 2 {
                None
            } else {
                Some((pinch_center(self.active@), pinch_distance(self.active@)))
            },
    {
        if self.active.len() < 2 {
            return None;
        }
        let a = self.active[0].1;
        let b = self.active[1].1;
        let sum = a.add(b);
        let two = Single::from_integer(2);
        let center = Point { x: sum.x.div(two), y: sum.y.div(two) };
        let d = b.sub(a);
        Some((center, d.x.mul(d.x).add(d.y.mul(d.y)).sqrt()))
    }
}

} // verus!
