use gpui_ios::geometry::{Point, Size};
use gpui_ios::ieee::double::Double;
use gpui_ios::ieee::single::Single;
use gpui_ios::input::{
    mouse_down, mouse_move, mouse_up, pinch, scroll_wheel, PlatformInput, ScrollDelta, TouchPhase,
};
use gpui_ios::momentum::{Decay, RecencyWeights};
use gpui_ios::touch::{
    clamp_to_bounds, AxisLock, LockedAxis, TouchAggregator, PHASE_BEGAN, PHASE_CANCELLED,
    PHASE_ENDED, PHASE_MOVED,
};

const MS: u64 = 1_000_000;

fn s(v: f32) -> Single {
    Single::from_bits(v.to_bits())
}

fn f(v: Single) -> f32 {
    f32::from_bits(v.to_bits())
}

fn p(x: f32, y: f32) -> Point {
    Point { x: s(x), y: s(y) }
}

fn weights() -> RecencyWeights {
    let values = RecencyWeights::exponents()
        .iter()
        .map(|e| Double::from_bits(f64::from_bits(e.to_bits()).exp().to_bits()))
        .collect();
    RecencyWeights::from_values(values).unwrap()
}

fn touch_at(
    agg: &mut TouchAggregator,
    id: u64,
    phase: i32,
    pos: Point,
    now: u64,
) -> Vec<PlatformInput> {
    agg.on_touch(id, phase, pos, now, &weights())
}

fn touch(agg: &mut TouchAggregator, id: u64, phase: i32, pos: Point) -> Vec<PlatformInput> {
    touch_at(agg, id, phase, pos, 0)
}

fn pump(agg: &mut TouchAggregator, bounds: Size, now: u64) -> Vec<PlatformInput> {
    let rate = f(Decay::rate());
    let decay = Decay {
        factor: s(rate.powf(f(agg.momentum.frame_millis(now)))),
        log_rate: s(rate.ln()),
    };
    agg.pump_momentum(bounds, now, decay)
}

fn screen() -> Size {
    Size { width: s(400.0), height: s(800.0) }
}

fn is_pinch(input: &PlatformInput, phase: TouchPhase) -> bool {
    matches!(input, PlatformInput::Pinch(e) if e.phase == phase)
}

/// The pixel scroll delta if `input` is a `ScrollWheel` in the given phase.
fn scroll_delta(input: &PlatformInput, phase: TouchPhase) -> Option<Point> {
    match input {
        PlatformInput::ScrollWheel(e) if e.touch_phase == phase => match e.delta {
            ScrollDelta::Pixels(d) => Some(d),
            ScrollDelta::Lines(_) => None,
        },
        _ => None,
    }
}

#[test]
fn one_finger_down_move_drives_both_scroll_and_move() {
    let mut agg = TouchAggregator::new();

    let down = touch(&mut agg, 1, PHASE_BEGAN, p(10.0, 10.0));
    assert!(matches!(down.as_slice(), [PlatformInput::MouseDown(_)]));

    let mv = touch(&mut agg, 1, PHASE_MOVED, p(40.0, 12.0));
    assert!(matches!(
        mv.as_slice(),
        [PlatformInput::ScrollWheel(_), PlatformInput::MouseMove(m)] if m.is_touch
    ));
    // The raw delta is (30, 2): dominantly horizontal and past the lock threshold, so
    // the minor component is zeroed.
    let delta = scroll_delta(&mv[0], TouchPhase::Moved).expect("scroll wheel moved");
    assert_eq!(f(delta.x), 30.0);
    assert_eq!(f(delta.y), 0.0);

    agg.velocity.reset();
    let up = touch(&mut agg, 1, PHASE_ENDED, p(40.0, 12.0));
    assert!(matches!(up.as_slice(), [PlatformInput::MouseUp(_)]));
    assert!(!agg.momentum_open);
}

#[test]
fn drag_locks_to_vertical_then_ignores_horizontal_wiggle() {
    let mut agg = TouchAggregator::new();
    touch(&mut agg, 1, PHASE_BEGAN, p(100.0, 100.0));

    let mv1 = touch(&mut agg, 1, PHASE_MOVED, p(102.0, 110.0));
    let d1 = scroll_delta(&mv1[0], TouchPhase::Moved).expect("scroll wheel moved");
    assert_eq!(f(d1.x), 0.0, "horizontal component zeroed once locked");
    assert_eq!(f(d1.y), 10.0);
    assert_eq!(agg.axis_lock.locked(), Some(LockedAxis::Vertical));

    let mv2 = touch(&mut agg, 1, PHASE_MOVED, p(140.0, 112.0));
    let d2 = scroll_delta(&mv2[0], TouchPhase::Moved).expect("scroll wheel moved");
    assert_eq!(f(d2.x), 0.0, "horizontal wiggle suppressed after lock");
    assert_eq!(f(d2.y), 2.0);
}

#[test]
fn drag_locks_to_horizontal_then_ignores_vertical_wiggle() {
    let mut agg = TouchAggregator::new();
    touch(&mut agg, 1, PHASE_BEGAN, p(100.0, 100.0));

    let mv1 = touch(&mut agg, 1, PHASE_MOVED, p(112.0, 101.0));
    let d1 = scroll_delta(&mv1[0], TouchPhase::Moved).expect("scroll wheel moved");
    assert_eq!(f(d1.x), 12.0);
    assert_eq!(f(d1.y), 0.0, "vertical component zeroed once locked");
    assert_eq!(agg.axis_lock.locked(), Some(LockedAxis::Horizontal));

    let mv2 = touch(&mut agg, 1, PHASE_MOVED, p(114.0, 140.0));
    let d2 = scroll_delta(&mv2[0], TouchPhase::Moved).expect("scroll wheel moved");
    assert_eq!(f(d2.x), 2.0);
    assert_eq!(f(d2.y), 0.0, "vertical wiggle suppressed after lock");
}

#[test]
fn sub_threshold_drag_does_not_lock_yet() {
    let mut agg = TouchAggregator::new();
    touch(&mut agg, 1, PHASE_BEGAN, p(100.0, 100.0));

    let mv = touch(&mut agg, 1, PHASE_MOVED, p(103.0, 102.0));
    let d = scroll_delta(&mv[0], TouchPhase::Moved).expect("scroll wheel moved");
    assert_eq!(f(d.x), 3.0);
    assert_eq!(f(d.y), 2.0);
    assert_eq!(agg.axis_lock.locked(), None, "below threshold must not lock");
}

#[test]
fn momentum_glide_respects_axis_lock() {
    let mut agg = TouchAggregator::new();
    // A diagonal fling with the drag locked to the vertical axis.
    agg.momentum.fling(s(2000.0), s(3000.0), 0);
    agg.momentum_pos = p(100.0, 400.0);
    agg.momentum_open = true;
    agg.momentum_axis = Some(LockedAxis::Vertical);
    let bounds = Size { width: s(400.0), height: s(800.0) };

    let step = pump(&mut agg, bounds, 8 * MS);
    let delta = scroll_delta(&step[0], TouchPhase::Moved).expect("scroll wheel moved");
    assert_eq!(f(delta.x), 0.0, "locked-vertical fling must not scroll horizontally");
    assert!(f(delta.y) > 0.0, "vertical fling still glides");
}

#[test]
fn two_finger_move_emits_no_stray_scroll() {
    let mut agg = TouchAggregator::new();
    touch(&mut agg, 1, PHASE_BEGAN, p(100.0, 100.0));
    touch(&mut agg, 2, PHASE_BEGAN, p(200.0, 100.0));

    let moved = touch(&mut agg, 2, PHASE_MOVED, p(260.0, 100.0));
    assert_eq!(moved.len(), 1);
    assert!(is_pinch(&moved[0], TouchPhase::Moved));
    assert!(scroll_delta(&moved[0], TouchPhase::Moved).is_none());
}

#[test]
fn fast_lift_pumps_decaying_scroll_then_mouse_up() {
    let mut agg = TouchAggregator::new();
    agg.momentum.fling(s(0.0), s(3000.0), 0);
    agg.momentum_pos = p(100.0, 400.0);
    agg.momentum_open = true;
    let bounds = Size { width: s(400.0), height: s(800.0) };

    // A gliding frame drives both channels.
    let step = pump(&mut agg, bounds, 8 * MS);
    assert!(matches!(
        step.as_slice(),
        [PlatformInput::ScrollWheel(_), PlatformInput::MouseMove(m)] if m.is_touch
    ));
    assert!(scroll_delta(&step[0], TouchPhase::Moved).is_some());

    // Once the fling settles, the deferred lift finalizes as a single release.
    agg.momentum.cancel();
    let end = pump(&mut agg, bounds, 8 * MS);
    assert!(matches!(end.as_slice(), [PlatformInput::MouseUp(_)]));
    assert!(!agg.momentum_open);
}

#[test]
fn second_finger_starts_pinch_and_suppresses_press() {
    let mut agg = TouchAggregator::new();
    touch(&mut agg, 1, PHASE_BEGAN, p(100.0, 100.0));

    let began2 = touch(&mut agg, 2, PHASE_BEGAN, p(200.0, 100.0));
    assert_eq!(began2.len(), 1);
    assert!(is_pinch(&began2[0], TouchPhase::Started));

    let moved = touch(&mut agg, 2, PHASE_MOVED, p(260.0, 100.0));
    assert_eq!(moved.len(), 1);
    assert!(is_pinch(&moved[0], TouchPhase::Moved));
    if let PlatformInput::Pinch(e) = &moved[0] {
        assert!(f(e.delta) > 0.0, "spreading fingers zooms in (delta>0)");
    }
}

#[test]
fn pinch_delta_negative_when_pinching_together() {
    let mut agg = TouchAggregator::new();
    touch(&mut agg, 1, PHASE_BEGAN, p(100.0, 100.0));
    touch(&mut agg, 2, PHASE_BEGAN, p(300.0, 100.0));
    let moved = touch(&mut agg, 2, PHASE_MOVED, p(200.0, 100.0));
    if let PlatformInput::Pinch(e) = &moved[0] {
        assert!(f(e.delta) < 0.0, "closing fingers zooms out (delta<0)");
    } else {
        panic!("expected pinch move");
    }
}

#[test]
fn lifting_one_finger_ends_pinch_without_mouse_up() {
    let mut agg = TouchAggregator::new();
    touch(&mut agg, 1, PHASE_BEGAN, p(100.0, 100.0));
    touch(&mut agg, 2, PHASE_BEGAN, p(200.0, 100.0));

    let end = touch(&mut agg, 2, PHASE_ENDED, p(200.0, 100.0));
    assert_eq!(end.len(), 1);
    assert!(is_pinch(&end[0], TouchPhase::Ended));

    // The leftover finger does not fling.
    let up = touch(&mut agg, 1, PHASE_ENDED, p(100.0, 100.0));
    assert!(matches!(up.as_slice(), [PlatformInput::MouseUp(_)]));
    assert!(!agg.momentum_open);
}

#[test]
fn cancel_ends_a_one_finger_drag() {
    let mut agg = TouchAggregator::new();
    touch(&mut agg, 1, PHASE_BEGAN, p(10.0, 10.0));
    let out = touch(&mut agg, 1, PHASE_CANCELLED, p(30.0, 10.0));
    assert!(matches!(out.as_slice(), [PlatformInput::MouseUp(_)]));
}

#[test]
fn pump_is_noop_without_a_fling() {
    let mut agg = TouchAggregator::new();
    assert!(pump(&mut agg, Size { width: s(400.0), height: s(800.0) }, 0).is_empty());
}

#[test]
fn clamp_keeps_position_inside_bounds() {
    let b = Size { width: s(400.0), height: s(800.0) };
    let inside = clamp_to_bounds(p(-50.0, 5000.0), b);
    assert!(f(inside.x) >= 0.5 && f(inside.x) <= 399.5);
    assert!(f(inside.y) >= 0.5 && f(inside.y) <= 799.5);
}

#[test]
fn clamp_has_a_half_pixel_margin() {
    assert_eq!(clamp_to_bounds(p(-50.0, 5000.0), screen()), p(0.5, 799.5));
    assert_eq!(clamp_to_bounds(p(17.25, 0.75), screen()), p(17.25, 0.75));
    // A window too small for the margin keeps everything at its corner.
    let tiny = Size { width: s(0.25), height: s(0.0) };
    assert_eq!(clamp_to_bounds(p(3.0, -3.0), tiny), p(0.5, 0.5));
}

#[test]
fn events_carry_position_button_and_delta() {
    let mut agg = TouchAggregator::new();
    assert_eq!(
        touch(&mut agg, 9, PHASE_BEGAN, p(10.0, 20.0)),
        vec![mouse_down(p(10.0, 20.0))]
    );
    assert_eq!(
        touch(&mut agg, 9, PHASE_MOVED, p(13.0, 21.0)),
        vec![
            scroll_wheel(p(13.0, 21.0), p(3.0, 1.0), TouchPhase::Moved),
            mouse_move(p(13.0, 21.0)),
        ]
    );
    assert_eq!(
        touch(&mut agg, 9, PHASE_CANCELLED, p(14.0, 22.0)),
        vec![mouse_up(p(14.0, 22.0))]
    );
    assert!(agg.active.is_empty());
}

#[test]
fn pinch_reports_centre_and_relative_spread() {
    let mut agg = TouchAggregator::new();
    touch(&mut agg, 1, PHASE_BEGAN, p(100.0, 100.0));
    assert_eq!(agg.pinch_geometry(), None);
    assert_eq!(
        touch(&mut agg, 2, PHASE_BEGAN, p(200.0, 100.0)),
        vec![pinch(p(150.0, 100.0), s(0.0), TouchPhase::Started)]
    );
    assert_eq!(agg.pinch_geometry(), Some((p(150.0, 100.0), s(100.0))));
    assert_eq!(
        touch(&mut agg, 2, PHASE_MOVED, p(260.0, 100.0)),
        vec![pinch(p(180.0, 100.0), s((160.0 - 100.0) / 100.0), TouchPhase::Moved)]
    );
    assert_eq!(
        touch(&mut agg, 1, PHASE_MOVED, p(140.0, 190.0)),
        vec![pinch(
            p(200.0, 145.0),
            s(((120.0f32 * 120.0 + 90.0 * 90.0).sqrt() - 160.0) / 160.0),
            TouchPhase::Moved
        )]
    );
}

#[test]
fn unknown_phase_is_ignored() {
    let mut agg = TouchAggregator::new();
    touch(&mut agg, 1, PHASE_BEGAN, p(10.0, 10.0));
    assert!(touch(&mut agg, 1, 4, p(90.0, 90.0)).is_empty());
    assert!(touch(&mut agg, 2, -1, p(90.0, 90.0)).is_empty());
    assert_eq!(agg.active, vec![(1, p(10.0, 10.0))]);
}

#[test]
fn lock_takes_the_horizontal_axis_on_a_tie() {
    let mut lock = AxisLock::default();
    assert_eq!(lock.apply(p(3.0, 3.0)), p(3.0, 3.0));
    assert_eq!(lock.apply(p(5.0, 5.0)), p(5.0, 0.0));
    assert_eq!(lock.locked(), Some(LockedAxis::Horizontal));
    lock.reset();
    assert_eq!(lock.locked(), None);
}

#[test]
fn fast_lift_defers_the_release() {
    let mut agg = TouchAggregator::new();
    touch_at(&mut agg, 1, PHASE_BEGAN, p(100.0, 100.0), 0);
    for i in 1..6u64 {
        touch_at(&mut agg, 1, PHASE_MOVED, p(100.0, 100.0 + 20.0 * i as f32), i * 8 * MS);
    }
    let up = touch_at(&mut agg, 1, PHASE_ENDED, p(100.0, 200.0), 41 * MS);
    assert!(up.is_empty());
    assert!(agg.momentum_open);
    assert_eq!(agg.momentum_axis, Some(LockedAxis::Vertical));
    assert!(f(agg.momentum.vy) > 2400.0 && f(agg.momentum.vy) < 2600.0);

    // The glide only slows down, keeps to the axis, and ends in one release.
    let mut now = 41 * MS;
    let mut last = f32::MAX;
    let mut released = 0;
    for _ in 0..1000 {
        now += 16 * MS;
        let out = pump(&mut agg, screen(), now);
        match out.as_slice() {
            [scroll, PlatformInput::MouseMove(m)] => {
                let d = scroll_delta(scroll, TouchPhase::Moved).unwrap();
                assert_eq!(f(d.x), 0.0);
                assert!(f(d.y) > 0.0 && f(d.y) <= last);
                last = f(d.y);
                assert!(f(m.position.y) <= 799.5);
            }
            [PlatformInput::MouseUp(e)] => {
                assert_eq!(e.position, clamp_to_bounds(agg.momentum_pos, screen()));
                released += 1;
            }
            [] => assert_eq!(released, 1),
            _ => panic!("unexpected events"),
        }
    }
    assert_eq!(released, 1);
}

#[test]
fn release_of_a_glide_is_inside_the_window() {
    // The window shrank after the last step, and the fling has settled since.
    let mut agg = TouchAggregator::new();
    agg.momentum_pos = p(500.0, -20.0);
    agg.momentum_open = true;
    assert_eq!(pump(&mut agg, screen(), 8 * MS), vec![mouse_up(p(399.5, 0.5))]);
    assert!(!agg.momentum_open);
}

#[test]
fn two_ticks_at_one_instant_keep_the_glide() {
    let mut agg = TouchAggregator::new();
    agg.momentum.fling(s(0.0), s(3000.0), 7);
    agg.momentum_pos = p(100.0, 400.0);
    agg.momentum_open = true;
    assert_eq!(
        pump(&mut agg, screen(), 7),
        vec![
            scroll_wheel(p(100.0, 400.0), p(0.0, 0.0), TouchPhase::Moved),
            mouse_move(p(100.0, 400.0)),
        ]
    );
    assert!(agg.momentum_open);
    assert!(agg.momentum.is_active());
}

#[test]
fn new_touch_stops_the_glide() {
    let mut agg = TouchAggregator::new();
    agg.momentum.fling(s(0.0), s(3000.0), 0);
    agg.momentum_pos = p(100.0, 400.0);
    agg.momentum_open = true;
    let out = touch_at(&mut agg, 1, PHASE_BEGAN, p(50.0, 60.0), 8 * MS);
    assert_eq!(out, vec![mouse_up(p(100.0, 400.0)), mouse_down(p(50.0, 60.0))]);
    assert!(!agg.momentum_open);
    assert!(!agg.momentum.is_active());
}

#[test]
fn leftover_finger_does_not_fling() {
    let mut agg = TouchAggregator::new();
    touch_at(&mut agg, 1, PHASE_BEGAN, p(100.0, 100.0), 0);
    touch_at(&mut agg, 2, PHASE_BEGAN, p(200.0, 100.0), MS);
    touch_at(&mut agg, 2, PHASE_ENDED, p(200.0, 100.0), 2 * MS);
    for i in 1..6u64 {
        touch_at(&mut agg, 1, PHASE_MOVED, p(100.0, 100.0 + 40.0 * i as f32), (2 + i * 4) * MS);
    }
    let up = touch_at(&mut agg, 1, PHASE_ENDED, p(100.0, 300.0), 23 * MS);
    assert_eq!(up, vec![mouse_up(p(100.0, 300.0))]);
    assert!(!agg.momentum_open);
    assert!(!agg.pinch_occurred);
}

#[test]
fn presses_and_releases_alternate() {
    let mut agg = TouchAggregator::new();
    let mut seed: u64 = 99;
    let mut pressed = false;
    let mut down: Vec<u64> = Vec::new();
    let mut now: u64 = 0;
    for _ in 0..2000 {
        seed = seed.wrapping_mul(6364136223846793005).wrapping_add(1442695040888963407);
        now += 3 * MS;
        let pos = p((seed >> 54) as f32, ((seed >> 44) & 1023) as f32);
        let out = match (seed >> 33) % 5 {
            0 if down.len() < 3 => {
                let id = seed >> 20;
                down.push(id);
                touch_at(&mut agg, id, PHASE_BEGAN, pos, now)
            }
            1 if !down.is_empty() => {
                let id = down.remove((seed >> 13) as usize % down.len());
                touch_at(&mut agg, id, PHASE_ENDED, pos, now)
            }
            2 => pump(&mut agg, screen(), now),
            _ if !down.is_empty() => {
                let id = down[(seed >> 13) as usize % down.len()];
                touch_at(&mut agg, id, PHASE_MOVED, pos, now)
            }
            _ => Vec::new(),
        };
        for e in &out {
            match e {
                PlatformInput::MouseDown(_) => {
                    assert!(!pressed);
                    pressed = true;
                }
                PlatformInput::MouseUp(_) => {
                    assert!(pressed);
                    pressed = false;
                }
                _ => {}
            }
        }
    }
}
