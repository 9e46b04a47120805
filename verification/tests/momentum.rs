use gpui_ios::ieee::double::Double;
use gpui_ios::ieee::single::Single;
use gpui_ios::momentum::{
    clamp_velocity, seconds, weighted_velocity, Decay, MomentumScroller, MomentumStep,
    RecencyWeights, Sample, VelocityTracker, MAX_VELOCITY,
};

const MS: u64 = 1_000_000;

fn s(v: f32) -> Single {
    Single::from_bits(v.to_bits())
}

fn f(v: Single) -> f32 {
    f32::from_bits(v.to_bits())
}

fn g(v: Double) -> f64 {
    f64::from_bits(v.to_bits())
}

fn weights() -> RecencyWeights {
    let values = RecencyWeights::exponents()
        .iter()
        .map(|e| Double::from_bits(g(*e).exp().to_bits()))
        .collect();
    RecencyWeights::from_values(values).unwrap()
}

fn velocity(t: &VelocityTracker, now: u64) -> (f32, f32) {
    let (vx, vy) = t.velocity(now, &weights());
    (f(vx), f(vy))
}

fn decay(m: &MomentumScroller, now: u64) -> Decay {
    let rate = f(Decay::rate());
    Decay {
        factor: s(rate.powf(f(m.frame_millis(now)))),
        log_rate: s(rate.ln()),
    }
}

fn step(m: &mut MomentumScroller, now: u64) -> Option<MomentumStep> {
    let d = decay(m, now);
    m.step(now, d)
}

#[test]
fn velocity_needs_two_samples() {
    let mut t = VelocityTracker::new();
    assert_eq!(velocity(&t, 0), (0.0, 0.0));
    t.record(s(10.0), s(20.0), 0);
    assert_eq!(velocity(&t, 0), (0.0, 0.0));
}

#[test]
fn velocity_positive_for_downward_drag() {
    let mut t = VelocityTracker::new();
    let mut now: u64 = 0;
    for i in 0..8 {
        t.record(s(100.0), s(100.0 + i as f32 * 6.0), now);
        now += 4 * MS;
    }
    let (_vx, vy) = velocity(&t, now);
    assert!(vy > 50.0, "vy={vy} should be clearly positive");
}

#[test]
fn velocity_is_clamped() {
    let mut t = VelocityTracker::new();
    t.record(s(0.0), s(0.0), 0);
    t.record(s(9000.0), s(9000.0), 0);
    t.record(s(18000.0), s(18000.0), 50_000);
    let (vx, vy) = velocity(&t, 50_000);
    assert!(vx.abs() <= MAX_VELOCITY as f32 && vy.abs() <= MAX_VELOCITY as f32);
}

#[test]
fn reset_clears_samples() {
    let mut t = VelocityTracker::new();
    t.record(s(0.0), s(0.0), 0);
    t.record(s(50.0), s(50.0), 4 * MS);
    t.reset();
    assert_eq!(velocity(&t, 4 * MS), (0.0, 0.0));
}

#[test]
fn slow_fling_does_not_start() {
    let mut m = MomentumScroller::new();
    m.fling(s(5.0), s(5.0), 0);
    assert!(!m.is_active());
    assert!(step(&mut m, 0).is_none());
}

#[test]
fn fling_decelerates_and_settles() {
    let mut m = MomentumScroller::new();
    let mut now: u64 = 0;
    m.fling(s(0.0), s(2000.0), now);
    assert!(m.is_active());

    let mut steps: Vec<f32> = Vec::new();
    for _ in 0..1000 {
        now += 16 * MS;
        match step(&mut m, now) {
            Some(step) => {
                assert!(f(step.dy) >= 0.0);
                steps.push(f(step.dy));
            }
            None => break,
        }
    }
    assert!(!m.is_active());
    assert!(
        steps.len() > 10,
        "expected many glide frames, got {}",
        steps.len()
    );
    let q = steps.len() / 4;
    if q > 0 {
        let head: f32 = steps[..q].iter().sum::<f32>() / q as f32;
        let tail: f32 = steps[steps.len() - q..].iter().sum::<f32>() / q as f32;
        assert!(head > tail, "should decelerate: head={head} tail={tail}");
    }
}

#[test]
fn cancel_stops_glide() {
    let mut m = MomentumScroller::new();
    m.fling(s(0.0), s(3000.0), 0);
    m.cancel();
    assert!(!m.is_active());
    assert!(step(&mut m, 0).is_none());
}

/// The estimate in native arithmetic.
fn native_fit(samples: &[(f32, f32, u64)]) -> (f32, f32) {
    let n = samples.len();
    let (mut w0, mut wt, mut wt2, mut wx, mut wy, mut wtx, mut wty) =
        (0.0f64, 0.0f64, 0.0f64, 0.0f64, 0.0f64, 0.0f64, 0.0f64);
    for (i, &(x, y, time)) in samples.iter().enumerate() {
        let d = time - samples[0].2;
        let t = (d / 1_000_000_000) as f64 + (d % 1_000_000_000) as f64 / 1_000_000_000.0;
        let w = (2.0 * i as f64 / n as f64).exp();
        w0 += w;
        wt += w * t;
        wt2 += w * t * t;
        wx += w * x as f64;
        wy += w * y as f64;
        wtx += w * t * x as f64;
        wty += w * t * y as f64;
    }
    let denom = w0 * wt2 - wt * wt;
    (
        ((w0 * wtx - wt * wx) / denom) as f32,
        ((w0 * wty - wt * wy) / denom) as f32,
    )
}

#[test]
fn fit_agrees_with_native_arithmetic() {
    let mut seed: u64 = 12345;
    for n in 3..17usize {
        let mut raw: Vec<(f32, f32, u64)> = Vec::new();
        let mut time: u64 = 7_000_000;
        for _ in 0..n {
            seed = seed.wrapping_mul(6364136223846793005).wrapping_add(1442695040888963407);
            let x = ((seed >> 40) as f32) / 16384.0 - 300.0;
            let y = ((seed >> 20) as u16 as f32) / 97.0;
            time += 1_000_000 + (seed >> 50);
            raw.push((x, y, time));
        }
        let mut samples: Vec<Sample> = Vec::new();
        for &(x, y, time) in &raw {
            samples.push(Sample { x: s(x), y: s(y), time });
        }
        let (vx, vy) = weighted_velocity(&samples, &weights());
        let (nx, ny) = native_fit(&raw);
        assert_eq!(vx.to_bits(), nx.to_bits());
        assert_eq!(vy.to_bits(), ny.to_bits());
    }
}

#[test]
fn two_samples_give_their_difference() {
    let mut t = VelocityTracker::new();
    t.record(s(10.0), s(40.0), 0);
    t.record(s(14.0), s(20.0), 10 * MS);
    // Four pixels in ten milliseconds, and twenty back.
    assert_eq!(velocity(&t, 10 * MS), (400.0, -2000.0));
}

#[test]
fn coinciding_samples_give_no_velocity() {
    let mut t = VelocityTracker::new();
    t.record(s(10.0), s(10.0), 0);
    t.record(s(90.0), s(90.0), 999);
    assert_eq!(velocity(&t, 999), (0.0, 0.0));
    let mut t = VelocityTracker::new();
    t.record(s(10.0), s(10.0), 0);
    t.record(s(90.0), s(10.0), 1000);
    assert_eq!(velocity(&t, 1000), (16000.0, 0.0));
}

#[test]
fn stale_samples_do_not_count() {
    let mut t = VelocityTracker::new();
    t.record(s(0.0), s(0.0), 0);
    t.record(s(10.0), s(0.0), 100 * MS);
    assert_eq!(velocity(&t, 100 * MS), (100.0, 0.0));
    assert_eq!(velocity(&t, 100 * MS + 1), (0.0, 0.0));
}

#[test]
fn ring_keeps_the_last_sixteen_samples() {
    let mut t = VelocityTracker::new();
    for i in 0..20u64 {
        t.record(s((i * i) as f32 / 8.0), s(0.0), i * MS);
    }
    let mut last: Vec<(f32, f32, u64)> = Vec::new();
    for i in 4..20u64 {
        last.push(((i * i) as f32 / 8.0, 0.0, i * MS));
    }
    assert_eq!(velocity(&t, 19 * MS), native_fit(&last));
}

#[test]
fn degenerate_fit_falls_back_to_the_difference() {
    let mut samples: Vec<Sample> = Vec::new();
    for i in 0..3u64 {
        samples.push(Sample { x: s(i as f32 * 5.0), y: s(1.0), time: i * 10 });
    }
    assert_eq!(weighted_velocity(&samples, &weights()), (s(0.0), s(0.0)));
    // With light weights the sums stay degenerate over a microsecond.
    let mut light: Vec<Double> = Vec::new();
    for _ in 0..256 {
        light.push(Double::from_bits(0.25f64.to_bits()));
    }
    let light = RecencyWeights::from_values(light).unwrap();
    samples.push(Sample { x: s(0.001), y: s(1.0), time: 1000 });
    let (vx, vy) = weighted_velocity(&samples, &light);
    assert_eq!((f(vx), f(vy)), ((0.001f32 as f64 / 0.000001) as f32, 0.0));
}

#[test]
fn velocity_components_are_capped() {
    assert_eq!(f(clamp_velocity(s(20000.0))), 16000.0);
    assert_eq!(f(clamp_velocity(s(-20000.0))), -16000.0);
    assert_eq!(f(clamp_velocity(s(-125.5))), -125.5);
    assert!(f(clamp_velocity(s(f32::NAN))).is_nan());
}

#[test]
fn spans_are_in_seconds() {
    assert_eq!(g(seconds(0)), 0.0);
    assert_eq!(g(seconds(16_600_000)), 0.0166);
    assert_eq!(g(seconds(3_250_000_000)), 3.25);
    assert_eq!(g(seconds(u64::MAX)), 18446744073.0 + 709551615.0 / 1_000_000_000.0);
}

#[test]
fn weight_table_has_its_size() {
    assert!(RecencyWeights::from_values(Vec::new()).is_none());
    for bad in [0.0f64, -1.0, 8.5, f64::INFINITY, f64::NAN] {
        let mut values: Vec<Double> = Vec::new();
        for _ in 0..256 {
            values.push(Double::from_bits(1.0f64.to_bits()));
        }
        // The second of two samples; the third of two is not used.
        values[16 + 2] = Double::from_bits(bad.to_bits());
        assert!(RecencyWeights::from_values(values).is_some());
        let mut values: Vec<Double> = Vec::new();
        for _ in 0..256 {
            values.push(Double::from_bits(1.0f64.to_bits()));
        }
        values[16 + 1] = Double::from_bits(bad.to_bits());
        assert!(RecencyWeights::from_values(values).is_none());
    }
    let exponents = RecencyWeights::exponents();
    assert_eq!(exponents.len(), 256);
    // Sample 3 of 4.
    assert_eq!(g(exponents[3 * 16 + 3]), 1.5);
    assert_eq!(g(exponents[6 * 16 + 5]), 2.0 * 5.0 / 7.0);
}

#[test]
fn step_agrees_with_native_arithmetic() {
    let mut m = MomentumScroller::new();
    m.fling(s(1234.5), s(-987.25), 0);
    let (mut vx, mut vy) = (1234.5f32, -987.25f32);
    let mut now: u64 = 0;
    for k in 0..30u64 {
        now += 9 * MS + k * 312_345;
        let dt = ((9 * MS + k * 312_345) as f64 / 1_000_000_000.0) as f32;
        let factor = 0.998f32.powf(dt * 1000.0);
        let d = (factor - 1.0) / (0.998f32.ln() * 1000.0);
        let moved = step(&mut m, now).unwrap();
        assert_eq!(moved, MomentumStep { dx: s(vx * d), dy: s(vy * d) });
        vx *= factor;
        vy *= factor;
        assert_eq!((m.vx, m.vy), (s(vx), s(vy)));
    }
}

#[test]
fn long_frames_are_cut_short() {
    let mut m = MomentumScroller::new();
    m.fling(s(0.0), s(2000.0), 0);
    assert_eq!(f(m.frame_millis(10_000 * MS)), 0.033f32 * 1000.0);
    assert_eq!(f(m.frame_millis(16 * MS)), 0.016f32 * 1000.0);
}

#[test]
fn frame_at_the_same_instant_moves_nothing() {
    let mut m = MomentumScroller::new();
    m.fling(s(0.0), s(2000.0), 5);
    assert_eq!(step(&mut m, 5), Some(MomentumStep { dx: s(0.0), dy: s(0.0) }));
    assert!(m.is_active());
    assert_eq!((f(m.vx), f(m.vy)), (0.0, 2000.0));
    let moved = step(&mut m, 5 + 16 * MS).unwrap();
    assert!(f(moved.dy) > 0.0);
}

#[test]
fn rate_without_logarithm_moves_by_the_interval() {
    let mut m = MomentumScroller::new();
    m.fling(s(100.0), s(200.0), 0);
    let unit = Decay { factor: s(1.0), log_rate: s(0.0) };
    let moved = m.step(10 * MS, unit).unwrap();
    assert_eq!((f(moved.dx), f(moved.dy)), (100.0 * 0.01f32, 200.0 * 0.01f32));
    assert_eq!((f(m.vx), f(m.vy)), (100.0, 200.0));
}

#[test]
fn sub_pixel_tail_is_dropped() {
    // A speed of 30 still glides; the first frame takes it below.
    let mut m = MomentumScroller::new();
    m.fling(s(0.0), s(30.0), 0);
    assert!(m.is_active());
    assert!(step(&mut m, MS).is_none());
    assert!(!m.is_active());
    // A longer frame moves more than a tenth of a pixel and is still reported.
    let mut m = MomentumScroller::new();
    m.fling(s(0.0), s(30.0), 0);
    assert!(step(&mut m, 16 * MS).is_some());
    assert!(!m.is_active());
}

#[test]
fn decay_rate_is_per_millisecond() {
    assert_eq!(f(Decay::rate()), 0.998);
}

#[test]
fn extreme_samples_have_a_finite_velocity() {
    let xs = [f32::MAX, f32::MIN, 0.0, f32::MAX, -1.0e-40, f32::MIN_POSITIVE];
    for gap in [0, 1, 999, 1000, 12_345, 3 * MS] {
        for n in 2..7usize {
            let mut t = VelocityTracker::new();
            for i in 0..n {
                t.record(s(xs[i]), s(xs[n - 1 - i]), i as u64 * gap);
            }
            let (vx, vy) = velocity(&t, n as u64 * gap);
            assert!(vx.is_finite() && vx.abs() <= 16000.0, "{n} {gap} {vx}");
            assert!(vy.is_finite() && vy.abs() <= 16000.0, "{n} {gap} {vy}");
        }
    }
    // Two that differ by more than there is room for.
    let mut t = VelocityTracker::new();
    t.record(s(f32::MIN), s(f32::MAX), 0);
    t.record(s(f32::MAX), s(f32::MIN), MS);
    assert_eq!(velocity(&t, MS), (16000.0, -16000.0));
}

#[test]
fn glide_of_two_thousand_is_over_in_time() {
    let mut m = MomentumScroller::new();
    m.fling(s(0.0), s(2000.0), 0);
    let mut steps: Vec<f32> = Vec::new();
    let mut now: u64 = 0;
    loop {
        now += 16 * MS;
        match step(&mut m, now) {
            Some(moved) => {
                assert_eq!(f(moved.dx), 0.0);
                assert!(f(moved.dy) >= 0.0);
                if let Some(last) = steps.last() {
                    assert!(f(moved.dy) <= *last);
                }
                steps.push(f(moved.dy));
            }
            None => break,
        }
    }
    assert!(!m.is_active());
    assert!(steps.len() > 10 && steps.len() <= 132, "{}", steps.len());
    assert!(step(&mut m, now + 16 * MS).is_none());
}

#[test]
fn stalled_frame_is_one_of_the_longest() {
    let mut long = MomentumScroller::new();
    long.fling(s(-700.0), s(2000.0), 5);
    let mut short = MomentumScroller::new();
    short.fling(s(-700.0), s(2000.0), 5);
    let a = step(&mut long, 5 + 60_000 * MS).unwrap();
    let b = step(&mut short, 5 + 33 * MS).unwrap();
    assert_eq!(a, b);
    assert_eq!((long.vx, long.vy), (short.vx, short.vy));
    assert_eq!(f(long.frame_millis(u64::MAX)), 0.033f32 * 1000.0);
    assert!(f(a.dx) <= 0.0 && f(a.dx) >= -0.033 * 700.0);
    assert!(f(a.dy) >= 0.0 && f(a.dy) <= 0.033 * 2000.0);
}

#[test]
fn frame_rate_does_not_change_the_path() {
    let mut a = MomentumScroller::new();
    a.fling(s(0.0), s(2000.0), 0);
    let mut b = MomentumScroller::new();
    b.fling(s(0.0), s(2000.0), 0);
    let first = f(step(&mut a, 8 * MS).unwrap().dy);
    let second = f(step(&mut a, 16 * MS).unwrap().dy);
    let whole = f(step(&mut b, 16 * MS).unwrap().dy);
    assert!((first + second - whole).abs() < 0.001 * whole);
    assert!((f(a.vy) - f(b.vy)).abs() < 0.01);
}

#[test]
fn place_in_the_ring_does_not_count() {
    let mut fresh = VelocityTracker::new();
    let mut wrapped = VelocityTracker::new();
    for i in 0..13u64 {
        wrapped.record(s(900.0 - i as f32), s(3.0), i);
    }
    for i in 0..5u64 {
        let now = 500 * MS + i * 7 * MS;
        let x = s((i * i * 3) as f32);
        fresh.record(x, s(i as f32), now);
        wrapped.record(x, s(i as f32), now);
    }
    assert_eq!(velocity(&fresh, 530 * MS), velocity(&wrapped, 530 * MS));
}

#[test]
fn steps_compare_as_numbers() {
    let step = |dx: f32, dy: f32| MomentumStep { dx: s(dx), dy: s(dy) };
    assert_eq!(step(0.0, -0.0), step(-0.0, 0.0));
    assert_eq!(step(1.5, -2.0), step(1.5, -2.0));
    assert_ne!(step(1.5, -2.0), step(1.5, 2.0));
    assert_ne!(step(1.0, -2.0), step(1.5, -2.0));
    assert_ne!(step(f32::NAN, 0.0), step(f32::NAN, 0.0));
    assert_ne!(step(0.0, f32::NAN), step(0.0, f32::NAN));
    assert_eq!(step(f32::INFINITY, 0.0), step(f32::INFINITY, 0.0));
}

#[test]
fn steady_finger_has_its_own_velocity() {
    for n in 3..17u64 {
        let mut t = VelocityTracker::new();
        for i in 0..n {
            // Half a pixel per millisecond across, two up.
            t.record(s(20.0 + i as f32 * 2.0), s(500.0 - i as f32 * 8.0), i * 4 * MS);
        }
        let (vx, vy) = velocity(&t, n * 4 * MS);
        assert!((vx - 500.0).abs() < 0.01, "{n} {vx}");
        assert!((vy + 2000.0).abs() < 0.01, "{n} {vy}");
    }
}

#[test]
fn glide_lasts_as_long_as_its_decay_says() {
    // Each frame of 16 ms keeps 0.9684 of the velocity: after 130 frames 2000 px/s are
    // still more than 30, after 132 they are less.
    let mut m = MomentumScroller::new();
    m.fling(s(1200.0), s(-1600.0), 0);
    let mut now: u64 = 0;
    for _ in 0..130 {
        now += 16 * MS;
        assert!(step(&mut m, now).is_some());
        assert!(m.is_active());
    }
    for _ in 0..2 {
        now += 16 * MS;
        step(&mut m, now);
    }
    assert!(!m.is_active());
}
