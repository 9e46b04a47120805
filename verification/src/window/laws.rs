//! What the window promises.

use vstd::prelude::*;
use crate::geometry::Point;
use crate::ieee::single::Single;
use crate::input::PlatformInput;
use super::{HostTypes, IosWindowState, Resize, WindowAppearance};

verus! {

/// Firing the frame callback and putting it back leaves the window as it was.
pub proof fn law_frame_callback_survives<T: HostTypes>(s: IosWindowState<T>, cb: T::FrameCallback)
    requires
        s.callbacks.request_frame == Some(cb),
    ensures
        s.frame_out().frame_back(cb) == s,
{
}

/// Firing the activation callback and putting it back leaves the window as it was.
pub proof fn law_active_callback_survives<T: HostTypes>(
    s: IosWindowState<T>,
    cb: T::ActiveCallback,
)
    requires
        s.callbacks.active_status_change == Some(cb),
    ensures
        s.active_out().active_back(cb) == s,
{
}

/// Firing the input callback and putting it back keeps every callback.
pub proof fn law_input_callback_survives<T: HostTypes>(
    s: IosWindowState<T>,
    cb: T::InputCallback,
    input: PlatformInput,
)
    requires
        s.callbacks.input == Some(cb),
    ensures
        s.input_out(input).input_back(cb).callbacks == s.callbacks,
{
}

/// Firing the resize callback and putting it back keeps every callback.
pub proof fn law_resize_callback_survives<T: HostTypes>(
    s: IosWindowState<T>,
    cb: T::ResizeCallback,
    w: u32,
    h: u32,
    scale: Single,
)
    requires
        s.callbacks.resize == Some(cb),
    ensures
        s.resize_out(w, h, scale).resize_back(cb).callbacks == s.callbacks,
{
}

/// The pointer is where the last press or move was: releases, scrolls and pinches that
/// follow it do not move it.
pub proof fn law_pointer_follows_presses_and_moves<T: HostTypes>(
    s: IosWindowState<T>,
    inputs: Seq<PlatformInput>,
    last: int,
    at: Point,
)
    requires
        0 <= last < inputs.len(),
        super::pointed_at(inputs[last]) == Some(at),
        forall|i: int|
            last < i < inputs.len() ==> super::pointed_at(#[trigger] inputs[i]) is None,
    ensures
        s.delivered(inputs).mouse_position == at,
    decreases inputs.len(),
{
    if last < inputs.len() - 1 {
        law_pointer_follows_presses_and_moves(s, inputs.drop_last(), last, at);
        assert(super::pointed_at(inputs[inputs.len() - 1]) is None);
    }
}

/// At scale one the logical size is the physical one, as far as it is exact.
pub proof fn law_unit_scale_is_identity(physical: u32)
    requires
        physical <= 0x100_0000,
    ensures
        super::logical(physical, Single::nearest(1real)).value() == physical as real,
{
    reveal(Single::nearest);
    reveal(Single::over);
    let f = Single::format();
    Single::lemma_format();
    Single::law_integer_exact(physical as nat);
    Single::law_integer_exact(1);
    let one = Single::nearest(1real);
    let p = Single::nearest(physical as real);
    f.lemma_zero_value(one.number());
    f.lemma_zero_value(p.number());
    let v = p.value();
    assert(v / 1real == v) by (nonlinear_arith);
    if physical > 0 {
        f.lemma_rounded_exact(false, p.number());
        Single::lemma_number_of(p.number());
    } else {
        f.lemma_value_zero();
    }
}

/// A scale that a screen may have, and far more.
pub open spec fn is_scale(scale: Single) -> bool {
    scale.is_finite() && 1real / 1024real <= scale.value() <= 1024real
}

/// A logical length times the scale is the physical one, but for rounding.
pub open spec fn is_scaled(length: Single, physical: u32, scale: Single) -> bool {
    &&& length.is_finite()
    &&& crate::ieee::error::size(length.value() * scale.value() - physical as real)
        <= physical as real / 4194304real
}

/// The logical size is the physical one divided by the scale.
pub proof fn law_logical_times_scale_is_physical(physical: u32, scale: Single)
    requires
        is_scale(scale),
    ensures
        is_scaled(super::logical(physical, scale), physical, scale),
{
    Single::lemma_least_exactly();
    let x = physical as real;
    let k = scale.value();
    Single::lemma_in_range(x);
    lemma_nearest_is_near(x);
    let p = Single::nearest(x);
    let y = p.value();
    let q = y / k;
    assert(q * k == y) by (nonlinear_arith)
        requires
            q == y / k,
            k > 0real,
    ;
    assert(-10000000000000real <= q <= 10000000000000real) by (nonlinear_arith)
        requires
            q * k == y,
            -5000000000real <= y <= 5000000000real,
            k >= 1real / 1024real,
    ;
    Single::lemma_in_range(q);
    Single::law_quotient_is_near(p, scale);
    let r = super::logical(physical, scale).value();
    let e = crate::ieee::format::Format::exp2(-150);
    if physical == 0 {
        Single::law_integer_exact(0);
        assert(q == 0real) by (nonlinear_arith)
            requires
                q * k == 0real,
                k > 0real,
        ;
        lemma_nothing_scaled(scale);
        assert(0real * k == 0real) by (nonlinear_arith);
    } else {
        let m = crate::ieee::error::size(q);
        let g = r - q;
        let h = crate::ieee::error::size(g);
        assert(r * k - y == g * k) by (nonlinear_arith)
            requires
                g == r - q,
                q * k == y,
        ;
        assert(m * k == y) by (nonlinear_arith)
            requires
                q * k == y,
                m == q || m == -q,
                m >= 0real,
                y > 0real,
                k > 0real,
        ;
        assert(0real <= h * k <= y / 16777216real + e * k) by (nonlinear_arith)
            requires
                0real <= h <= m / 16777216real + e,
                m * k == y,
                k > 0real,
        ;
        assert(e * k <= 1024real * e) by (nonlinear_arith)
            requires
                k <= 1024real,
                e > 0real,
        ;
        assert(g * k == h * k || g * k == -(h * k)) by (nonlinear_arith)
            requires
                g == h || g == -h,
        ;
    }
}

proof fn lemma_nearest_is_near(x: real)
    requires
        crate::ieee::error::size(x) <= crate::ieee::format::Format::exp2(100),
    ensures
        Single::nearest(x).near(x),
{
    reveal(Single::nearest);
    Single::lemma_format();
    Single::law_rounding_error(false, x);
}

/// Nothing is nothing at any scale.
proof fn lemma_nothing_scaled(scale: Single)
    requires
        is_scale(scale),
    ensures
        super::logical(0, scale).value() == 0real,
{
    reveal(Single::over);
    let f = Single::format();
    Single::lemma_format();
    f.lemma_zero_value(scale.number());
    f.lemma_value_zero();
    Single::law_integer_exact(0);
    let p = Single::nearest(0real);
    let k = scale.value();
    let sign = p.number().negative != scale.number().negative;
    assert(0real / k == 0real) by (nonlinear_arith)
        requires
            k > 0real,
    ;
    Single::lemma_number_of(f.rounded(sign, 0real));
}

/// A resize is of the whole window: the bounds start at the origin and have the logical
/// size of the drawable, width for width and height for height; the scale is the new one.
/// The drawable gets the physical size, congruent to it in 32 bits. Nothing else changes,
/// but for the callback, which is out.
pub proof fn law_resize_fills_the_drawable<T: HostTypes>(
    s: IosWindowState<T>,
    resize: Resize<T>,
    w: u32,
    h: u32,
    scale: Single,
)
    requires
        s.is_resize(resize, w, h, scale),
        is_scale(scale),
    ensures
        ({
            let after = s.resize_out(w, h, scale);
            let size = after.bounds.size;
            &&& after.scale_factor == scale
            &&& after.bounds.origin.x.value() == 0real
            &&& after.bounds.origin.y.value() == 0real
            &&& is_scaled(size.width, w, scale)
            &&& is_scaled(size.height, h, scale)
            &&& resize.size == size
            &&& resize.scale == scale
            &&& resize.callback == s.callbacks.resize
            &&& (resize.drawable.width - w) % 0x1_0000_0000 == 0
            &&& (resize.drawable.height - h) % 0x1_0000_0000 == 0
            &&& after.mouse_position == s.mouse_position
            &&& after.appearance == s.appearance
            &&& after.touches == s.touches
            &&& after.text == s.text
            &&& after.callbacks.resize is None
            &&& after.callbacks.request_frame == s.callbacks.request_frame
            &&& after.callbacks.input == s.callbacks.input
            &&& after.callbacks.active_status_change == s.callbacks.active_status_change
            &&& after.callbacks.appearance_changed == s.callbacks.appearance_changed
        }),
{
    law_logical_times_scale_is_physical(w, scale);
    law_logical_times_scale_is_physical(h, scale);
    Single::lemma_format();
    Single::format().lemma_value_zero();
    assert(Single::zero().value() == 0real);
}

/// A window is opened over the whole drawable, with nothing registered, touched or typed.
pub proof fn law_new_window_fills_the_drawable<T: HostTypes>(
    s: IosWindowState<T>,
    w: u32,
    h: u32,
    scale: Single,
)
    requires
        s.is_new(w, h, scale),
        is_scale(scale),
    ensures
        s.scale_factor == scale,
        s.bounds.origin.x.value() == 0real,
        s.bounds.origin.y.value() == 0real,
        is_scaled(s.bounds.size.width, w, scale),
        is_scaled(s.bounds.size.height, h, scale),
        s.mouse_position.x.value() == 0real,
        s.mouse_position.y.value() == 0real,
        s.callbacks.request_frame is None,
        s.callbacks.input is None,
        s.callbacks.active_status_change is None,
        s.callbacks.resize is None,
        s.callbacks.appearance_changed is None,
        s.touches@.active.len() == 0,
        !s.touches@.momentum_open,
        !s.touches@.pinch_occurred,
        s.touches@.pinch_prev_dist is None,
        s.text.handler is None,
        !s.text.wants_keyboard,
        s.text.caret.origin.x.value() == 0real,
        s.text.caret.origin.y.value() == 0real,
        s.text.caret.size.width.value() == 0real,
        s.text.caret.size.height.value() == 0real,
        s.appearance == WindowAppearance::Dark,
{
    law_logical_times_scale_is_physical(w, scale);
    law_logical_times_scale_is_physical(h, scale);
    Single::lemma_format();
    Single::format().lemma_value_zero();
    assert(Single::zero().value() == 0real);
}

/// An event moves the pointer exactly when it is a press or a move, to where that is, and
/// changes nothing else of the window but the callback, which is out.
pub proof fn law_event_moves_only_the_pointer<T: HostTypes>(
    s: IosWindowState<T>,
    input: PlatformInput,
)
    ensures
        ({
            let after = s.input_out(input);
            &&& after.mouse_position == (match input {
                PlatformInput::MouseDown(e) => e.position,
                PlatformInput::MouseMove(e) => e.position,
                PlatformInput::MouseUp(_) => s.mouse_position,
                PlatformInput::ScrollWheel(_) => s.mouse_position,
                PlatformInput::Pinch(_) => s.mouse_position,
            })
            &&& after.bounds == s.bounds
            &&& after.scale_factor == s.scale_factor
            &&& after.appearance == s.appearance
            &&& after.touches == s.touches
            &&& after.text == s.text
            &&& after.callbacks.input is None
            &&& after.callbacks.request_frame == s.callbacks.request_frame
            &&& after.callbacks.resize == s.callbacks.resize
            &&& after.callbacks.active_status_change == s.callbacks.active_status_change
            &&& after.callbacks.appearance_changed == s.callbacks.appearance_changed
        }),
{
}

/// Firing a callback takes it out, so that nothing can fire it meanwhile; every other one
/// stays, and so does the rest of the window.
pub proof fn law_fired_callback_is_out<T: HostTypes>(s: IosWindowState<T>)
    ensures
        s.frame_out().callbacks.request_frame is None,
        s.frame_out().callbacks.input == s.callbacks.input,
        s.frame_out().callbacks.active_status_change == s.callbacks.active_status_change,
        s.frame_out().callbacks.resize == s.callbacks.resize,
        s.frame_out().callbacks.appearance_changed == s.callbacks.appearance_changed,
        s.frame_out() == (IosWindowState { callbacks: s.frame_out().callbacks, ..s }),
        s.active_out().callbacks.active_status_change is None,
        s.active_out().callbacks.request_frame == s.callbacks.request_frame,
        s.active_out().callbacks.input == s.callbacks.input,
        s.active_out().callbacks.resize == s.callbacks.resize,
        s.active_out().callbacks.appearance_changed == s.callbacks.appearance_changed,
        s.active_out() == (IosWindowState { callbacks: s.active_out().callbacks, ..s }),
{
}

/// A callback that is put back or registered is in its own place, whatever was there.
pub proof fn law_callbacks_go_to_their_places<T: HostTypes>(
    s: IosWindowState<T>,
    frame: T::FrameCallback,
    input: T::InputCallback,
    active: T::ActiveCallback,
    resize: T::ResizeCallback,
    appearance: T::AppearanceCallback,
)
    ensures
        ({
            let after = s.frame_back(frame).input_back(input).active_back(active).resize_back(
                resize,
            ).appearance_set(appearance);
            &&& after.callbacks.request_frame == Some(frame)
            &&& after.callbacks.input == Some(input)
            &&& after.callbacks.active_status_change == Some(active)
            &&& after.callbacks.resize == Some(resize)
            &&& after.callbacks.appearance_changed == Some(appearance)
            &&& after == (IosWindowState { callbacks: after.callbacks, ..s })
        }),
{
}

} // verus!
