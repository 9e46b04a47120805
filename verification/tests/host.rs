use gpui_ios::dispatcher::{IosDispatcher, Priority, QueuePriority, Target};
use gpui_ios::display::{DisplayId, IosDisplay, IOS_DISPLAY_UUID};
use gpui_ios::ffi::{
    boot, boot_params, delete_backward, deliver, done_active, done_edit, done_frame, done_input,
    done_resize, finish_launching, frame_millis, insert_text, keyboard_caret, keyboard_wanted,
    launch, register_window, request_frame, resize, safe_area_insets, set_active, set_boot_params,
    set_root_view, set_safe_area_insets, store_finish_launching, touch, BootParams, Delivery, Host,
    Launch, Step,
};
use gpui_ios::geometry::{Bounds, Edges, Point, Size};
use gpui_ios::ieee::double::Double;
use gpui_ios::ieee::single::Single;
use gpui_ios::input::{
    mouse_down, mouse_move, mouse_up, pinch, scroll_wheel, PlatformInput, TouchPhase,
};
use gpui_ios::momentum::{Decay, RecencyWeights};
use gpui_ios::platform::{IosPlatform, PlatformError};
use gpui_ios::touch::{PHASE_BEGAN, PHASE_ENDED, PHASE_MOVED};
use gpui_ios::window::{
    device_size, logical_size, surface_config, HostTypes, IosWindowState, PresentMode,
    RequestFrameOptions, WindowAppearance, WindowBounds,
};

const MS: u64 = 1_000_000;

struct Plain;

impl HostTypes for Plain {
    type FrameCallback = &'static str;
    type InputCallback = &'static str;
    type ActiveCallback = &'static str;
    type ResizeCallback = &'static str;
    type AppearanceCallback = &'static str;
    type InputHandler = &'static str;
    type FinishLaunching = &'static str;
    type RootView = &'static str;
    type WindowHandle = u32;
}

fn s(v: f32) -> Single {
    Single::from_bits(v.to_bits())
}

fn f(v: Single) -> f32 {
    f32::from_bits(v.to_bits())
}

fn p(x: f32, y: f32) -> Point {
    Point { x: s(x), y: s(y) }
}

fn size(w: f32, h: f32) -> Size {
    Size { width: s(w), height: s(h) }
}

fn weights() -> RecencyWeights {
    let values = RecencyWeights::exponents()
        .iter()
        .map(|e| Double::from_bits(f64::from_bits(e.to_bits()).exp().to_bits()))
        .collect();
    RecencyWeights::from_values(values).unwrap()
}

fn decay(host: &Host<Plain>, now: u64) -> Decay {
    let rate = f(Decay::rate());
    Decay { factor: s(rate.powf(f(frame_millis(host, now)))), log_rate: s(rate.ln()) }
}

fn booted() -> Host<Plain> {
    let mut host: Host<Plain> = Host::new();
    let mut platform = boot(&mut host, 64, 1179, 2556, s(3.0));
    let params = platform.open_window(&host).unwrap();
    platform.window_opened(&mut host, params, 5);
    host
}

fn window(host: &mut Host<Plain>) -> &mut IosWindowState<Plain> {
    host.window.as_mut().unwrap()
}

/// Makes all calls of a delivery, and lists them.
fn run(host: &mut Host<Plain>, d: &mut Delivery) -> (Vec<PlatformInput>, usize) {
    let mut events: Vec<PlatformInput> = Vec::new();
    let mut frames: usize = 0;
    loop {
        match deliver(host, d) {
            Step::Input(cb, event) => {
                assert_eq!(frames, 0);
                assert!(window(host).callbacks.input.is_none());
                events.push(event);
                done_input(host, cb);
            }
            Step::Frame(cb, options) => {
                assert_eq!(
                    options,
                    RequestFrameOptions { require_presentation: true, force_render: true }
                );
                assert!(window(host).callbacks.request_frame.is_none());
                frames += 1;
                done_frame(host, cb);
            }
            Step::Done => break,
        }
    }
    (events, frames)
}

#[test]
fn display_identity_is_fixed() {
    let a = IosDisplay::new(s(393.0), s(852.0));
    let b = IosDisplay::new(s(852.0), s(393.0));
    assert_eq!(a.uuid(), b.uuid());
    assert_eq!(
        a.uuid(),
        [
            0x10, 0x5a, 0xfe, 0x10, 0x10, 0x5a, 0xfe, 0x10, 0x10, 0x5a, 0xfe, 0x10, 0x10, 0x5a,
            0xfe, 0x10
        ]
    );
    assert_eq!(a.uuid(), IOS_DISPLAY_UUID.to_be_bytes());
    assert_eq!(uuid::Uuid::from_bytes(a.uuid()), uuid::Uuid::from_u128(IOS_DISPLAY_UUID));
    assert_eq!(a.id(), DisplayId(1));
    assert_eq!(b.id(), DisplayId(1));
    assert_eq!(a.bounds(), Bounds { origin: p(0.0, 0.0), size: size(393.0, 852.0) });
}

#[test]
fn queues_follow_the_priority() {
    let d = IosDispatcher::new();
    assert_eq!(d.dispatch(Priority::High), Target::Global(QueuePriority::High));
    assert_eq!(d.dispatch(Priority::Medium), Target::Global(QueuePriority::Default));
    assert_eq!(d.dispatch(Priority::Low), Target::Global(QueuePriority::Low));
    assert_eq!(d.dispatch_on_main_thread(Priority::RealtimeAudio), Target::Main);
    assert_eq!(d.dispatch_on_main_thread(Priority::Low), Target::Main);
}

#[test]
fn delays_are_nanoseconds() {
    let d = IosDispatcher::new();
    let after = |n: u128| d.dispatch_after(n);
    assert_eq!(after(0), Target::After(QueuePriority::High, 0));
    assert_eq!(after(1_500_000_000), Target::After(QueuePriority::High, 1_500_000_000));
    let long: u128 = 0x1234_ffff_0000_9999_8888;
    assert_eq!(after(long), Target::After(QueuePriority::High, long as i64));
    assert_eq!(after(u128::MAX), Target::After(QueuePriority::High, -1));
    let top: u128 = 1 << 63;
    assert_eq!(after(top), Target::After(QueuePriority::High, i64::MIN));
}

#[test]
fn window_needs_boot_parameters() {
    let host: Host<Plain> = Host::new();
    let platform: IosPlatform<Plain> = IosPlatform::new(boot_params(&host));
    assert_eq!(platform.open_window(&host), Err(PlatformError::BootParametersNotSet));
    // Before boot the display has a phone's size.
    assert_eq!(platform.primary_display().bounds().size, size(393.0, 852.0));
}

#[test]
fn errors_have_their_messages() {
    assert_eq!(
        PlatformError::BootParametersNotSet.message(),
        "gpui_ios: boot parameters not set before open_window"
    );
    assert_eq!(PlatformError::NoFileDialogs.message(), "file dialogs are not supported on iOS");
    assert_eq!(PlatformError::NoAppPath.message(), "app_path is not available in the PoC");
    assert_eq!(
        PlatformError::NoAuxiliaryExecutables.message(),
        "path_for_auxiliary_executable is not available on iOS"
    );
    assert_eq!(
        PlatformError::NoCredentialStorage.message(),
        "credential storage is not available in the PoC"
    );
}

#[test]
fn boot_sizes_display_and_window() {
    let mut host: Host<Plain> = Host::new();
    let mut platform = boot(&mut host, 64, 1179, 2556, s(3.0));
    let params = BootParams { metal_layer: 64, physical_w: 1179, physical_h: 2556, scale: s(3.0) };
    assert_eq!(boot_params(&host), Some(params));
    assert_eq!(platform.primary_display().bounds().size, size(1179.0 / 3.0, 2556.0 / 3.0));
    assert_eq!(*platform.active_window(), None);
    assert_eq!(platform.open_window(&host), Ok(params));
    platform.window_opened(&mut host, params, 5);
    assert_eq!(*platform.active_window(), Some(5));
    let w = window(&mut host);
    assert_eq!(w.bounds(), Bounds { origin: p(0.0, 0.0), size: size(393.0, 852.0) });
    assert_eq!(w.window_bounds(), WindowBounds::Fullscreen(w.bounds()));
    assert_eq!(w.content_size(), size(393.0, 852.0));
    assert_eq!(w.scale_factor(), s(3.0));
    assert_eq!(w.appearance(), WindowAppearance::Dark);
    assert_eq!(w.mouse_position(), p(0.0, 0.0));
    assert_eq!(platform.window_appearance(), WindowAppearance::Dark);
    assert_eq!(platform.compositor_name(), "iOS");
}

#[test]
fn cursor_only_disappears() {
    let mut platform: IosPlatform<Plain> = IosPlatform::new(None);
    assert!(platform.is_cursor_visible());
    platform.hide_cursor_until_mouse_moves();
    assert!(!platform.is_cursor_visible());
}

#[test]
fn launch_is_parked_and_fired_once() {
    let mut host: Host<Plain> = Host::new();
    set_root_view(&mut host, "root");
    let platform = boot(&mut host, 0, 100, 200, s(2.0));
    platform.run(&mut host, "rest");
    assert!(matches!(launch(&mut host), Launch::Build("root")));
    assert!(matches!(launch(&mut host), Launch::OpenEmptyWindow));
    assert_eq!(finish_launching(&mut host), Some("rest"));
    assert_eq!(finish_launching(&mut host), None);
    store_finish_launching(&mut host, "other");
    assert_eq!(finish_launching(&mut host), Some("other"));
}

#[test]
fn later_boot_parameters_replace_earlier_ones() {
    let mut host: Host<Plain> = Host::new();
    let a = BootParams { metal_layer: 1, physical_w: 2, physical_h: 3, scale: s(1.0) };
    let b = BootParams { metal_layer: 4, physical_w: 5, physical_h: 6, scale: s(2.0) };
    set_boot_params(&mut host, a);
    set_boot_params(&mut host, b);
    assert_eq!(boot_params(&host), Some(b));
}

#[test]
fn entry_points_without_a_window_do_nothing() {
    let mut host: Host<Plain> = Host::new();
    let d = decay(&host, 0);
    let mut frame = request_frame(&mut host, 0, d);
    assert_eq!(run_empty(&mut host, &mut frame), 0);
    let mut t = touch(&mut host, 1, PHASE_BEGAN, s(1.0), s(2.0), s(1.0), 0, &weights());
    assert_eq!(run_empty(&mut host, &mut t), 0);
    assert!(resize(&mut host, 10, 20, s(1.0)).is_none());
    assert!(set_active(&mut host, true).is_none());
    assert!(insert_text(&mut host, "x").is_none());
    assert!(delete_backward(&mut host).is_none());
    assert!(!keyboard_wanted(&host));
    assert_eq!(
        keyboard_caret(&host),
        Bounds { origin: p(0.0, 0.0), size: size(0.0, 0.0) }
    );
    done_input(&mut host, "late");
    done_frame(&mut host, "late");
    done_resize(&mut host, "late");
    done_active(&mut host, "late");
    done_edit(&mut host, "late");
    assert!(host.window.is_none());
}

fn run_empty(host: &mut Host<Plain>, d: &mut Delivery) -> usize {
    let mut calls: usize = 0;
    while !matches!(deliver(host, d), Step::Done) {
        calls += 1;
    }
    calls
}

#[test]
fn touches_are_scaled_and_dispatched() {
    let mut host = booted();
    window(&mut host).on_input("sink");
    let mut d = touch(&mut host, 7, PHASE_BEGAN, s(300.0), s(90.0), s(3.0), 0, &weights());
    assert_eq!(run(&mut host, &mut d), (vec![mouse_down(p(100.0, 30.0))], 0));
    assert_eq!(window(&mut host).mouse_position(), p(100.0, 30.0));
    let mut d = touch(&mut host, 7, PHASE_MOVED, s(330.0), s(90.0), s(3.0), MS, &weights());
    assert_eq!(
        run(&mut host, &mut d),
        (
            vec![
                scroll_wheel(p(110.0, 30.0), p(10.0, 0.0), TouchPhase::Moved),
                mouse_move(p(110.0, 30.0)),
            ],
            0
        )
    );
    assert_eq!(window(&mut host).mouse_position(), p(110.0, 30.0));
    assert_eq!(window(&mut host).callbacks.input, Some("sink"));
}

#[test]
fn bad_scale_counts_as_one() {
    for scale in [0.0, -3.0, -0.0, f32::NAN] {
        let mut host = booted();
        window(&mut host).on_input("sink");
        let mut d = touch(&mut host, 7, PHASE_BEGAN, s(300.0), s(90.0), s(scale), 0, &weights());
        assert_eq!(run(&mut host, &mut d), (vec![mouse_down(p(300.0, 90.0))], 0));
    }
}

#[test]
fn tick_pumps_the_fling_before_it_draws() {
    let mut host = booted();
    window(&mut host).on_input("sink");
    window(&mut host).on_request_frame("draw");
    let w = weights();
    let mut d = touch(&mut host, 1, PHASE_BEGAN, s(300.0), s(300.0), s(3.0), 0, &w);
    run(&mut host, &mut d);
    for i in 1..6u64 {
        let y = s(300.0 + 60.0 * i as f32);
        let mut d = touch(&mut host, 1, PHASE_MOVED, s(300.0), y, s(3.0), i * 8 * MS, &w);
        run(&mut host, &mut d);
    }
    let mut d = touch(&mut host, 1, PHASE_ENDED, s(300.0), s(600.0), s(3.0), 41 * MS, &w);
    assert_eq!(run(&mut host, &mut d), (vec![], 0));

    let mut now = 41 * MS;
    let mut releases: usize = 0;
    for _ in 0..400 {
        now += 16 * MS;
        let step = decay(&host, now);
        let mut d = request_frame(&mut host, now, step);
        let (events, frames) = run(&mut host, &mut d);
        assert_eq!(frames, 1);
        for e in &events {
            if let PlatformInput::MouseUp(_) = e {
                releases += 1;
            }
        }
        // The window's bounds are those of the glide.
        assert!(f(window(&mut host).mouse_position().y) <= 851.5);
    }
    assert_eq!(releases, 1);
    assert!(!window(&mut host).touches.momentum_open);
}

#[test]
fn events_without_a_sink_only_move_the_pointer() {
    let mut host = booted();
    window(&mut host).on_request_frame("draw");
    let mut d = touch(&mut host, 7, PHASE_BEGAN, s(30.0), s(60.0), s(1.0), 0, &weights());
    assert_eq!(run(&mut host, &mut d), (vec![], 0));
    assert_eq!(window(&mut host).mouse_position(), p(30.0, 60.0));
    let step = decay(&host, MS);
    let mut d = request_frame(&mut host, MS, step);
    assert_eq!(run(&mut host, &mut d), (vec![], 1));
    assert_eq!(window(&mut host).callbacks.request_frame, Some("draw"));
}

#[test]
fn events_during_a_callback_find_no_sink() {
    let mut host = booted();
    window(&mut host).on_input("sink");
    let w = weights();
    let mut d = touch(&mut host, 7, PHASE_BEGAN, s(30.0), s(60.0), s(1.0), 0, &w);
    match deliver(&mut host, &mut d) {
        Step::Input(cb, _) => {
            let mut inner = touch(&mut host, 7, PHASE_MOVED, s(31.0), s(60.0), s(1.0), 1, &w);
            assert_eq!(run_empty(&mut host, &mut inner), 0);
            assert_eq!(window(&mut host).mouse_position(), p(31.0, 60.0));
            done_input(&mut host, cb);
        }
        _ => panic!("a call is due"),
    }
    assert!(matches!(deliver(&mut host, &mut d), Step::Done));
    assert_eq!(window(&mut host).callbacks.input, Some("sink"));
}

#[test]
fn only_presses_and_moves_move_the_pointer() {
    let mut w: IosWindowState<Plain> = IosWindowState::new(100, 100, s(1.0));
    w.dispatch_input(&mouse_down(p(1.0, 2.0)));
    assert_eq!(w.mouse_position(), p(1.0, 2.0));
    w.dispatch_input(&mouse_up(p(3.0, 4.0)));
    w.dispatch_input(&scroll_wheel(p(5.0, 6.0), p(1.0, 1.0), TouchPhase::Moved));
    w.dispatch_input(&pinch(p(5.0, 6.0), s(0.5), TouchPhase::Moved));
    assert_eq!(w.mouse_position(), p(1.0, 2.0));
    w.dispatch_input(&mouse_move(p(7.0, 8.0)));
    assert_eq!(w.mouse_position(), p(7.0, 8.0));
}

#[test]
fn resize_reports_logical_and_device_sizes() {
    let mut host = booted();
    window(&mut host).on_resize("resized");
    let r = resize(&mut host, 2556, 1179, s(3.0)).unwrap();
    assert_eq!((r.drawable.width, r.drawable.height), (2556, 1179));
    assert_eq!(r.size, size(852.0, 393.0));
    assert_eq!(r.scale, s(3.0));
    assert_eq!(r.callback, Some("resized"));
    assert_eq!(window(&mut host).content_size(), size(852.0, 393.0));
    assert!(window(&mut host).callbacks.resize.is_none());
    done_resize(&mut host, "resized");
    assert_eq!(window(&mut host).callbacks.resize, Some("resized"));
    let r = resize(&mut host, 1000, 500, s(2.0)).unwrap();
    assert_eq!(r.size, size(500.0, 250.0));
    assert_eq!(window(&mut host).scale_factor(), s(2.0));
}

#[test]
fn sizes_divide_by_the_scale() {
    assert_eq!(logical_size(1179, 2556, s(2.625)), size(1179.0 / 2.625, 2556.0 / 2.625));
    assert_eq!(logical_size(640, 480, s(1.0)), size(640.0, 480.0));
    assert_eq!(f(logical_size(640, 480, s(0.0)).width), f32::INFINITY);
    let d = device_size(u32::MAX, 0x8000_0001);
    assert_eq!((d.width, d.height), (u32::MAX as i32, 0x8000_0001u32 as i32));
}

#[test]
fn surface_is_opaque_and_prefers_the_mailbox() {
    let c = surface_config(1179, 2556);
    assert_eq!((c.size.width, c.size.height), (1179, 2556));
    assert!(!c.transparent);
    assert_eq!(c.preferred_present_mode, Some(PresentMode::Mailbox));
}

#[test]
fn activation_is_reported_and_the_callback_restored() {
    let mut host = booted();
    assert!(set_active(&mut host, true).is_none());
    window(&mut host).on_active_status_change("active");
    assert_eq!(set_active(&mut host, false), Some(("active", false)));
    assert!(set_active(&mut host, true).is_none());
    done_active(&mut host, "active");
    assert_eq!(set_active(&mut host, true), Some(("active", true)));
}

#[test]
fn appearance_callback_is_kept() {
    let mut host = booted();
    window(&mut host).on_appearance_changed("appearance");
    assert_eq!(window(&mut host).callbacks.appearance_changed, Some("appearance"));
}

#[test]
fn insets_are_zero_until_reported() {
    let mut host: Host<Plain> = Host::new();
    assert_eq!(
        safe_area_insets(&host),
        Edges { top: s(0.0), right: s(0.0), bottom: s(0.0), left: s(0.0) }
    );
    set_safe_area_insets(&mut host, s(59.0), s(1.0), s(34.0), s(2.0));
    assert_eq!(
        safe_area_insets(&host),
        Edges { top: s(59.0), right: s(1.0), bottom: s(34.0), left: s(2.0) }
    );
}

#[test]
fn keyboard_follows_the_focused_field() {
    let mut host = booted();
    assert!(!keyboard_wanted(&host));
    window(&mut host).set_input_handler("field");
    assert!(keyboard_wanted(&host));
    let caret = Bounds { origin: p(10.0, 20.0), size: size(2.0, 16.0) };
    window(&mut host).update_ime_position(caret);
    assert_eq!(keyboard_caret(&host), caret);

    let (handler, edit) = insert_text(&mut host, "hi").unwrap();
    assert_eq!((handler, edit.range, edit.text), ("field", None, "hi"));
    assert!(delete_backward(&mut host).is_none());
    done_edit(&mut host, handler);
    assert_eq!(delete_backward(&mut host), Some("field"));
    done_edit(&mut host, "field");

    assert_eq!(window(&mut host).take_input_handler(), Some("field"));
    assert!(!keyboard_wanted(&host));
}

#[test]
fn window_registered_last_is_driven() {
    let mut host = booted();
    let second: IosWindowState<Plain> = IosWindowState::new(50, 60, s(1.0));
    register_window(&mut host, second);
    assert_eq!(window(&mut host).content_size(), size(50.0, 60.0));
    assert_eq!(f(frame_millis(&host, 16 * MS)), 0.016f32 * 1000.0);
}
