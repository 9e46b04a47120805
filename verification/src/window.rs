//! The window's state, shared by the application and the host's entry points.
//!
//! The host owns the drawable, the display link and the run loop. What the window keeps
//! of it is here: its logical bounds and scale, the pointer position, the touches in
//! flight, the text-input seam, and the callbacks that the application registered.
//!
//! A callback may re-enter the window. So every callback is taken out for the duration
//! of its call and put back afterwards: the functions that fire one hand it out, and
//! each has a counterpart that restores it.

pub mod laws;

use vstd::prelude::*;
use crate::geometry::{Bounds, Point, Size};
use crate::ieee::single::Single;
use crate::input::PlatformInput;
use crate::momentum::{Decay, RecencyWeights};
use crate::text_seam::TextInputState;
use crate::touch::{Gesture, TouchAggregator};

verus! {

/// What the application registers with the host, carried through unopened.
pub trait HostTypes: Sized {
    /// Called to draw a frame.
    type FrameCallback;

    /// Called with every input event.
    type InputCallback;

    /// Called when the application moves to the foreground or the background.
    type ActiveCallback;

    /// Called when the window is resized.
    type ResizeCallback;

    /// Called when the appearance changes.
    type AppearanceCallback;

    /// Receives the text input of a focused field.
    type InputHandler;

    /// Continues the launch of the application.
    type FinishLaunching;

    /// Builds the root view.
    type RootView;

    /// Identifies a window.
    type WindowHandle;
}

#[derive(Clone, Copy, Debug, PartialEq, Eq, Structural)]
pub enum WindowAppearance {
    Light,
    Dark,
}

/// A window's place on the screen.
#[derive(Clone, Copy, Debug, PartialEq)]
pub enum WindowBounds {
    Windowed(Bounds),
    Fullscreen(Bounds),
}

/// What a frame is asked to do.
#[derive(Clone, Copy, Debug, PartialEq, Eq, Structural)]
pub struct RequestFrameOptions {
    pub require_presentation: bool,
    pub force_render: bool,
}

/// The size of a drawable, in device pixels.
#[derive(Clone, Copy, Debug, PartialEq, Eq, Structural)]
pub struct DeviceSize {
    pub width: i32,
    pub height: i32,
}

/// How frames reach the screen.
#[derive(Clone, Copy, Debug, PartialEq, Eq, Structural)]
pub enum PresentMode {
    Fifo,
    Mailbox,
}

/// What the window's surface is set up with.
#[derive(Clone, Copy, Debug, PartialEq, Eq, Structural)]
pub struct SurfaceConfig {
    pub size: DeviceSize,
    pub transparent: bool,
    pub preferred_present_mode: Option<PresentMode>,
}

/// The callbacks that the application registered.
pub struct Callbacks<T: HostTypes> {
    pub request_frame: Option<T::FrameCallback>,
    pub input: Option<T::InputCallback>,
    pub active_status_change: Option<T::ActiveCallback>,
    pub resize: Option<T::ResizeCallback>,
    pub appearance_changed: Option<T::AppearanceCallback>,
}

/// What a resize asks for: the drawable's new size, and the application's callback, to
/// be called with the new logical size and scale.
pub struct Resize<T: HostTypes> {
    pub drawable: DeviceSize,
    pub size: Size,
    pub scale: Single,
    pub callback: Option<T::ResizeCallback>,
}

/// The signed 32-bit integer that is congruent to `n`.
pub open spec fn wrapped(n: u32) -> int {
    if n < 0x8000_0000 {
        n as int
    } else {
        n - 0x1_0000_0000
    }
}

/// A number of physical pixels in logical ones.
pub open spec fn logical(physical: u32, scale: Single) -> Single {
    Single::nearest(physical as real).over(scale)
}

/// A physical size in logical pixels.
pub open spec fn logical_size_of(w: u32, h: u32, scale: Single) -> Size {
    Size { width: logical(w, scale), height: logical(h, scale) }
}

/// The bounds of a window that fills the screen.
pub open spec fn full_bounds(size: Size) -> Bounds {
    Bounds { origin: Point::origin(), size }
}

pub fn logical_size(physical_w: u32, physical_h: u32, scale: Single) -> (r: Size)
    ensures
        r == logical_size_of(physical_w, physical_h, scale),
{
    Size {
        width: Single::from_integer(physical_w as u64).div(scale),
        height: Single::from_integer(physical_h as u64).div(scale),
    }
}

fn signed(n: u32) -> (r: i32)
    ensures
        r == wrapped(n),
{
    if n < 0x8000_0000 {
        n as i32
    } else {
        (n - 0x8000_0000) as i32 - 0x7fff_ffff - 1
    }
}

/// The drawable size for a physical size; the drawable counts in signed 32 bits.
pub fn device_size(physical_w: u32, physical_h: u32) -> (r: DeviceSize)
    ensures
        r.width == wrapped(physical_w),
        r.height == wrapped(physical_h),
{
    DeviceSize { width: signed(physical_w), height: signed(physical_h) }
}

/// The surface of a drawable with that physical size: opaque, and with the mailbox mode
/// where it can be had, which does not block across lifecycle transitions.
pub fn surface_config(physical_w: u32, physical_h: u32) -> (r: SurfaceConfig)
    ensures
        r.size.width == wrapped(physical_w),
        r.size.height == wrapped(physical_h),
        !r.transparent,
        r.preferred_present_mode == Some(PresentMode::Mailbox),
{
    SurfaceConfig {
        size: device_size(physical_w, physical_h),
        transparent: false,
        preferred_present_mode: Some(PresentMode::Mailbox),
    }
}

/// The position an event moves the pointer to: presses and moves do, nothing else.
pub open spec fn pointed_at(input: PlatformInput) -> Option<Point> {
    match input {
        PlatformInput::MouseMove(e) => Some(e.position),
        PlatformInput::MouseDown(e) => Some(e.position),
        _ => None,
    }
}

/// The window's state.
pub struct IosWindowState<T: HostTypes> {
    pub callbacks: Callbacks<T>,
    pub bounds: Bounds,
    pub scale_factor: Single,
    pub mouse_position: Point,
    pub appearance: WindowAppearance,
    pub touches: TouchAggregator,
    pub text: TextInputState<T::InputHandler>,
}

impl<T: HostTypes> Callbacks<T> {
    pub open spec fn none() -> Self {
        Callbacks {
            request_frame: None,
            input: None,
            active_status_change: None,
            resize: None,
            appearance_changed: None,
        }
    }
}

impl<T: HostTypes> Default for Callbacks<T> {
    fn default() -> (c: Self)
        ensures
            c == Callbacks::<T>::none(),
    {
        Callbacks {
            request_frame: None,
            input: None,
            active_status_change: None,
            resize: None,
            appearance_changed: None,
        }
    }
}

impl<T: HostTypes> IosWindowState<T> {
    pub open spec fn wf(self) -> bool {
        self.touches@.wf()
    }

    /// A window as it is opened: no callback, no touch, no text field; the pointer at the
    /// origin.
    pub open spec fn is_new(self, w: u32, h: u32, scale: Single) -> bool {
        &&& self.callbacks == Callbacks::<T>::none()
        &&& self.bounds == full_bounds(logical_size_of(w, h, scale))
        &&& self.scale_factor == scale
        &&& self.mouse_position == Point::origin()
        &&& self.appearance == WindowAppearance::Dark
        &&& self.touches@ == Gesture::fresh()
        &&& self.text == TextInputState::<T::InputHandler>::empty()
    }

    // The states of firing a callback: with it out, and with it back.

    pub open spec fn frame_out(self) -> Self {
        IosWindowState { callbacks: Callbacks { request_frame: None, ..self.callbacks }, ..self }
    }

    pub open spec fn frame_back(self, cb: T::FrameCallback) -> Self {
        IosWindowState {
            callbacks: Callbacks { request_frame: Some(cb), ..self.callbacks },
            ..self
        }
    }

    pub open spec fn input_out(self, input: PlatformInput) -> Self {
        IosWindowState {
            callbacks: Callbacks { input: None, ..self.callbacks },
            mouse_position: match pointed_at(input) {
                Some(p) => p,
                None => self.mouse_position,
            },
            ..self
        }
    }

    pub open spec fn input_back(self, cb: T::InputCallback) -> Self {
        IosWindowState { callbacks: Callbacks { input: Some(cb), ..self.callbacks }, ..self }
    }

    pub open spec fn active_out(self) -> Self {
        IosWindowState {
            callbacks: Callbacks { active_status_change: None, ..self.callbacks },
            ..self
        }
    }

    pub open spec fn active_back(self, cb: T::ActiveCallback) -> Self {
        IosWindowState {
            callbacks: Callbacks { active_status_change: Some(cb), ..self.callbacks },
            ..self
        }
    }

    pub open spec fn resize_out(self, w: u32, h: u32, scale: Single) -> Self {
        IosWindowState {
            callbacks: Callbacks { resize: None, ..self.callbacks },
            bounds: full_bounds(logical_size_of(w, h, scale)),
            scale_factor: scale,
            ..self
        }
    }

    /// What that resize asks for.
    pub open spec fn is_resize(self, r: Resize<T>, w: u32, h: u32, scale: Single) -> bool {
        &&& r.drawable.width == wrapped(w)
        &&& r.drawable.height == wrapped(h)
        &&& r.size == logical_size_of(w, h, scale)
        &&& r.scale == scale
        &&& r.callback == self.callbacks.resize
    }

    pub open spec fn resize_back(self, cb: T::ResizeCallback) -> Self {
        IosWindowState { callbacks: Callbacks { resize: Some(cb), ..self.callbacks }, ..self }
    }

    pub open spec fn appearance_set(self, cb: T::AppearanceCallback) -> Self {
        IosWindowState {
            callbacks: Callbacks { appearance_changed: Some(cb), ..self.callbacks },
            ..self
        }
    }

    /// The window after events were delivered, one after the other.
    pub open spec fn delivered(self, inputs: Seq<PlatformInput>) -> Self
        decreases inputs.len(),
    {
        if inputs.len() == 0 {
            self
        } else {
            self.delivered(inputs.drop_last()).input_out(inputs.last())
        }
    }

    /// The window of a drawable with that physical size and scale: logical bounds are
    /// the physical size divided by the scale.
    pub fn new(physical_w: u32, physical_h: u32, scale: Single) -> (s: Self)
        ensures
            s.is_new(physical_w, physical_h, scale),
            s.wf(),
    {
        IosWindowState {
            callbacks: Callbacks::default(),
            bounds: Bounds {
                origin: Point::at_origin(),
                size: logical_size(physical_w, physical_h, scale),
            },
            scale_factor: scale,
            mouse_position: Point::at_origin(),
            appearance: WindowAppearance::Dark,
            touches: TouchAggregator::new(),
            text: TextInputState::new(),
        }
    }

    /// Fires the frame callback: hands it out with what to call it with. Called once
    /// per tick of the display link; every tick forces a redraw.
    pub fn request_frame(&mut self) -> (r: Option<(T::FrameCallback, RequestFrameOptions)>)
        ensures
            *final(self) == old(self).frame_out(),
            match old(self).callbacks.request_frame {
                Some(cb) => r == Some(
                    (cb, (RequestFrameOptions { require_presentation: true, force_render: true })),
                ),
                None => r is None,
            },
    {
        match self.callbacks.request_frame.take() {
            Some(cb) => Some(
                (cb, RequestFrameOptions { require_presentation: true, force_render: true }),
            ),
            None => None,
        }
    }

    /// Puts the frame callback back after its call.
    pub fn frame_requested(&mut self, cb: T::FrameCallback)
        ensures
            *final(self) == old(self).frame_back(cb),
    {
        self.callbacks.request_frame = Some(cb);
    }

    /// Delivers an event to the input sink: notes where it points, and hands out the
    /// callback to call with it.
    pub fn dispatch_input(&mut self, input: &PlatformInput) -> (r: Option<T::InputCallback>)
        ensures
            *final(self) == old(self).input_out(*input),
            r == old(self).callbacks.input,
    {
        match input {
            PlatformInput::MouseMove(e) => {
                self.mouse_position = e.position;
            },
            PlatformInput::MouseDown(e) => {
                self.mouse_position = e.position;
            },
            _ => {},
        }
        self.callbacks.input.take()
    }

    /// Puts the input callback back after its call.
    pub fn input_dispatched(&mut self, cb: T::InputCallback)
        ensures
            *final(self) == old(self).input_back(cb),
    {
        self.callbacks.input = Some(cb);
    }

    /// Takes over a new physical size on rotation or layout change.
    pub fn handle_resize(&mut self, physical_w: u32, physical_h: u32, scale: Single) -> (r: Resize<
        T,
    >)
        ensures
            *final(self) == old(self).resize_out(physical_w, physical_h, scale),
            old(self).is_resize(r, physical_w, physical_h, scale),
    {
        self.scale_factor = scale;
        let size = logical_size(physical_w, physical_h, scale);
        self.bounds = Bounds { origin: Point::at_origin(), size };
        Resize {
            drawable: device_size(physical_w, physical_h),
            size,
            scale,
            callback: self.callbacks.resize.take(),
        }
    }

    /// Puts the resize callback back after its call.
    pub fn resize_handled(&mut self, cb: T::ResizeCallback)
        ensures
            *final(self) == old(self).resize_back(cb),
    {
        self.callbacks.resize = Some(cb);
    }

    /// Tells the application that it moved to the foreground or the background: hands
    /// out the callback to call.
    pub fn notify_active(&mut self) -> (r: Option<T::ActiveCallback>)
        ensures
            *final(self) == old(self).active_out(),
            r == old(self).callbacks.active_status_change,
    {
        self.callbacks.active_status_change.take()
    }

    /// Puts the callback back after its call.
    pub fn active_notified(&mut self, cb: T::ActiveCallback)
        ensures
            *final(self) == old(self).active_back(cb),
    {
        self.callbacks.active_status_change = Some(cb);
    }

    /// Feeds a touch, in logical pixels, to the aggregator; returns the events to
    /// dispatch.
    pub fn dispatch_touch(
        &mut self,
        id: u64,
        phase: i32,
        pos: Point,
        now: u64,
        weights: &RecencyWeights,
    ) -> (out: Vec<PlatformInput>)
        requires
            old(self).wf(),
            weights.wf(),
        ensures
            final(self).touches@ == old(self).touches@.touched(id, phase, pos, now, *weights),
            out@ == old(self).touches@.touched_events(id, phase, pos, now, *weights),
            *final(self) == (IosWindowState { touches: final(self).touches, ..*old(self) }),
            final(self).wf(),
    {
        self.touches.on_touch(id, phase, pos, now, weights)
    }

    /// Advances a fling by one frame within the window; returns the events to dispatch.
    pub fn pump_momentum(&mut self, now: u64, decay: Decay) -> (out: Vec<PlatformInput>)
        requires
            old(self).wf(),
        ensures
            final(self).touches@ == old(self).touches@.pumped(old(self).bounds.size, now, decay),
            out@ == old(self).touches@.pumped_events(old(self).bounds.size, now, decay),
            *final(self) == (IosWindowState { touches: final(self).touches, ..*old(self) }),
            final(self).wf(),
    {
        self.touches.pump_momentum(self.bounds.size, now, decay)
    }

    /// The milliseconds that the next step of the fling covers at `now`.
    pub fn frame_millis(&self, now: u64) -> (r: Single)
        ensures
            r == self.touches@.momentum.millis(now),
    {
        self.touches.momentum.frame_millis(now)
    }

    pub fn on_request_frame(&mut self, cb: T::FrameCallback)
        ensures
            *final(self) == old(self).frame_back(cb),
    {
        self.callbacks.request_frame = Some(cb);
    }

    pub fn on_input(&mut self, cb: T::InputCallback)
        ensures
            *final(self) == old(self).input_back(cb),
    {
        self.callbacks.input = Some(cb);
    }

    pub fn on_active_status_change(&mut self, cb: T::ActiveCallback)
        ensures
            *final(self) == old(self).active_back(cb),
    {
        self.callbacks.active_status_change = Some(cb);
    }

    pub fn on_resize(&mut self, cb: T::ResizeCallback)
        ensures
            *final(self) == old(self).resize_back(cb),
    {
        self.callbacks.resize = Some(cb);
    }

    pub fn on_appearance_changed(&mut self, cb: T::AppearanceCallback)
        ensures
            *final(self) == old(self).appearance_set(cb),
    {
        self.callbacks.appearance_changed = Some(cb);
    }

    /// Installs the input handler of a newly focused text field.
    pub fn set_input_handler(&mut self, handler: T::InputHandler)
        ensures
            *final(self) == (IosWindowState { text: old(self).text.focused(handler), ..*old(self) }),
    {
        self.text.set_handler(handler);
    }

    /// Takes the input handler back.
    pub fn take_input_handler(&mut self) -> (r: Option<T::InputHandler>)
        ensures
            *final(self) == (IosWindowState { text: old(self).text.blurred(), ..*old(self) }),
            r == old(self).text.handler,
    {
        self.text.take_handler()
    }

    /// Notes where the caret is (logical pixels).
    pub fn update_ime_position(&mut self, caret: Bounds)
        ensures
            *final(self) == (IosWindowState {
                text: (TextInputState { caret, ..old(self).text }),
                ..*old(self)
            }),
    {
        self.text.set_caret(caret);
    }

    pub fn bounds(&self) -> (r: Bounds)
        ensures
            r == self.bounds,
    {
        self.bounds
    }

    /// The window always fills the screen.
    pub fn window_bounds(&self) -> (r: WindowBounds)
        ensures
            r == WindowBounds::Fullscreen(self.bounds),
    {
        WindowBounds::Fullscreen(self.bounds)
    }

    pub fn content_size(&self) -> (r: Size)
        ensures
            r == self.bounds.size,
    {
        self.bounds.size
    }

    pub fn scale_factor(&self) -> (r: Single)
        ensures
            r == self.scale_factor,
    {
        self.scale_factor
    }

    pub fn appearance(&self) -> (r: WindowAppearance)
        ensures
            r == self.appearance,
    {
        self.appearance
    }

    pub fn mouse_position(&self) -> (r: Point)
        ensures
            r == self.mouse_position,
    {
        self.mouse_position
    }
}

} // verus!
