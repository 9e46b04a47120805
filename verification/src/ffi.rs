//! The seam between the host application and the backend.
//!
//! Every entry point runs on the main thread. The host drives four things: boot (once),
//! per-frame ticks, touches, and resize and lifecycle. What it shares with the platform
//! is the [`Host`].
//!
//! # Callbacks
//!
//! An entry point that has to call back into the application hands the callback out
//! instead, so that the host state is free while the application runs. [`deliver`] does
//! so for everything that a tick or a touch has left to do, one [`Step`] at a time;
//! after each call the callback goes back with [`done_input`] or [`done_frame`].
//!
//! # Touch
//!
//! [`touch`] carries a pointer, a phase and a position. The phase is a convention of
//! this library's own (began, moved, ended, cancelled), which [`crate::touch`] spells
//! out. The pointer is a stable identity per finger, so that two fingers can be tracked
//! for a pinch.

pub mod laws;

use vstd::prelude::*;
use crate::geometry::{Bounds, Edges, Point, Size};
use crate::ieee::single::Single;
use crate::input::PlatformInput;
use crate::momentum::{Decay, RecencyWeights};
use crate::platform::IosPlatform;
use crate::text_seam::Edit;
use crate::window::{HostTypes, IosWindowState, RequestFrameOptions, Resize};

verus! {

/// What the host hands over at boot: the address of its drawable layer, the physical
/// size and the scale.
#[derive(Clone, Copy, Debug, PartialEq)]
pub struct BootParams {
    pub metal_layer: usize,
    pub physical_w: u32,
    pub physical_h: u32,
    pub scale: Single,
}

/// The state that the host's entry points share with the platform.
pub struct Host<T: HostTypes> {
    /// Boot parameters, read when the window is opened.
    pub boot_params: Option<BootParams>,
    /// The continuation of the launch, parked until the host is ready.
    pub finish_launching: Option<T::FinishLaunching>,
    /// The one window's state.
    pub window: Option<IosWindowState<T>>,
    /// The application's root-view builder.
    pub root_view: Option<T::RootView>,
    /// The latest safe-area insets (logical points).
    pub safe_area: Edges,
}

/// What the application is launched with.
pub enum Launch<V> {
    /// The root view that was registered.
    Build(V),
    /// None was registered: an empty window.
    OpenEmptyWindow,
}

/// What an entry point has left to do: events to dispatch, and a frame to draw.
pub struct Delivery {
    pub inputs: Vec<PlatformInput>,
    pub next: usize,
    pub frame: bool,
}

/// What is left of a [`Delivery`].
#[verifier::ext_equal]
pub ghost struct Work {
    pub inputs: Seq<PlatformInput>,
    pub frame: bool,
}

/// The next call to make into the application.
pub enum Step<T: HostTypes> {
    Input(T::InputCallback, PlatformInput),
    Frame(T::FrameCallback, RequestFrameOptions),
    Done,
}

impl View for Delivery {
    type V = Work;

    open spec fn view(&self) -> Work {
        Work {
            inputs: self.inputs@.subrange(self.next as int, self.inputs@.len() as int),
            frame: self.frame,
        }
    }
}

impl Delivery {
    pub open spec fn wf(self) -> bool {
        self.next <= self.inputs@.len()
    }
}

impl Work {
    pub open spec fn none() -> Work {
        Work { inputs: Seq::empty(), frame: false }
    }

    /// How many calls there are at most.
    pub open spec fn size(self) -> nat {
        self.inputs.len() + if self.frame {
            1nat
        } else {
            0
        }
    }

    /// Only events.
    pub open spec fn events(inputs: Seq<PlatformInput>) -> Work {
        Work { inputs, frame: false }
    }

    /// What is left after one step in that window.
    pub open spec fn remaining<T: HostTypes>(self, window: Option<IosWindowState<T>>) -> Work {
        match window {
            Some(w) => if self.inputs.len() > 0 && w.callbacks.input is Some {
                Work { inputs: self.inputs.drop_first(), frame: self.frame }
            } else {
                Work::none()
            },
            None => Work::none(),
        }
    }

    /// The next call: with the first event while there is a sink for it; else, all
    /// events being noted, for the frame.
    pub open spec fn step<T: HostTypes>(self, window: Option<IosWindowState<T>>) -> Step<T> {
        match window {
            None => Step::Done,
            Some(w) => match w.callbacks.input {
                Some(cb) if self.inputs.len() > 0 => Step::Input(cb, self.inputs[0]),
                _ => match w.callbacks.request_frame {
                    Some(cb) if self.frame => Step::Frame(
                        cb,
                        RequestFrameOptions { require_presentation: true, force_render: true },
                    ),
                    _ => Step::Done,
                },
            },
        }
    }

    /// The window while that call runs.
    pub open spec fn during<T: HostTypes>(self, window: Option<IosWindowState<T>>) -> Option<
        IosWindowState<T>,
    > {
        match window {
            None => None,
            Some(w) => if self.inputs.len() > 0 && w.callbacks.input is Some {
                Some(w.input_out(self.inputs[0]))
            } else if self.frame {
                Some(w.delivered(self.inputs).frame_out())
            } else {
                Some(w.delivered(self.inputs))
            },
        }
    }
}

/// The scale that a touch is divided by: the host's, where it is positive.
pub open spec fn touch_scale(scale: Single) -> Single {
    if Single::zero().less(scale) {
        scale
    } else {
        Single::nearest(1real)
    }
}

/// A touch in logical pixels.
pub open spec fn touch_position(x: Single, y: Single, scale: Single) -> Point {
    Point { x: x.over(touch_scale(scale)), y: y.over(touch_scale(scale)) }
}

/// The rectangle of nothing at the origin.
pub open spec fn no_bounds() -> Bounds {
    Bounds {
        origin: Point::origin(),
        size: Size { width: Single::zero(), height: Single::zero() },
    }
}

impl<T: HostTypes> Host<T> {
    /// Nothing booted, registered or reported.
    pub open spec fn idle() -> Self {
        Host {
            boot_params: None,
            finish_launching: None,
            window: None,
            root_view: None,
            safe_area: Edges::zero(),
        }
    }

    pub open spec fn wf(self) -> bool {
        self.window matches Some(w) ==> w.wf()
    }

    pub fn new() -> (h: Self)
        ensures
            h == Self::idle(),
            h.wf(),
    {
        Host {
            boot_params: None,
            finish_launching: None,
            window: None,
            root_view: None,
            safe_area: Edges::default(),
        }
    }
}

/// Registers the root-view builder. To be called before [`boot`].
pub fn set_root_view<T: HostTypes>(host: &mut Host<T>, builder: T::RootView)
    ensures
        *final(host) == (Host { root_view: Some(builder), ..*old(host) }),
{
    host.root_view = Some(builder);
}

/// Stores the boot parameters.
pub fn set_boot_params<T: HostTypes>(host: &mut Host<T>, params: BootParams)
    ensures
        *final(host) == (Host { boot_params: Some(params), ..*old(host) }),
{
    host.boot_params = Some(params);
}

/// Reads the boot parameters.
pub fn boot_params<T: HostTypes>(host: &Host<T>) -> (r: Option<BootParams>)
    ensures
        r == host.boot_params,
{
    host.boot_params
}

/// Parks the continuation of the launch.
pub fn store_finish_launching<T: HostTypes>(host: &mut Host<T>, cb: T::FinishLaunching)
    ensures
        *final(host) == (Host { finish_launching: Some(cb), ..*old(host) }),
{
    host.finish_launching = Some(cb);
}

/// Registers the window, so that frames, touches and resizes reach it.
pub fn register_window<T: HostTypes>(host: &mut Host<T>, window: IosWindowState<T>)
    ensures
        *final(host) == (Host { window: Some(window), ..*old(host) }),
{
    host.window = Some(window);
}

/// Boots the backend under the host's run loop: stores the drawable's parameters and
/// builds the platform to run the application with. Running it asks [`launch`] what to
/// show and parks the rest; [`finish_launching`] then hands that out, so that the
/// window opens.
pub fn boot<T: HostTypes>(
    host: &mut Host<T>,
    metal_layer: usize,
    physical_w: u32,
    physical_h: u32,
    scale: Single,
) -> (platform: IosPlatform<T>)
    ensures
        *final(host) == (Host {
            boot_params: Some(BootParams { metal_layer, physical_w, physical_h, scale }),
            ..*old(host)
        }),
        platform.is_fresh(Some(BootParams { metal_layer, physical_w, physical_h, scale })),
{
    set_boot_params(host, BootParams { metal_layer, physical_w, physical_h, scale });
    IosPlatform::new(boot_params(host))
}

/// What the application is launched with. A root view is handed out once.
pub fn launch<T: HostTypes>(host: &mut Host<T>) -> (r: Launch<T::RootView>)
    ensures
        *final(host) == (Host { root_view: None, ..*old(host) }),
        match old(host).root_view {
            Some(view) => r == Launch::Build(view),
            None => r == Launch::<T::RootView>::OpenEmptyWindow,
        },
{
    match host.root_view.take() {
        Some(view) => Launch::Build(view),
        None => Launch::OpenEmptyWindow,
    }
}

/// Hands out the parked continuation of the launch, once.
pub fn finish_launching<T: HostTypes>(host: &mut Host<T>) -> (r: Option<T::FinishLaunching>)
    ensures
        *final(host) == (Host { finish_launching: None, ..*old(host) }),
        r == old(host).finish_launching,
{
    host.finish_launching.take()
}

/// The milliseconds that the fling's next step covers at `now`; zero without a window.
pub fn frame_millis<T: HostTypes>(host: &Host<T>, now: u64) -> (r: Single)
    ensures
        r == match host.window {
            Some(w) => w.touches@.momentum.millis(now),
            None => Single::zero(),
        },
{
    match &host.window {
        Some(w) => w.frame_millis(now),
        None => Single::from_bits(0),
    }
}

/// Display-link tick. Pumps any fling in flight first, so that its move is applied
/// before the frame draws; then the frame.
pub fn request_frame<T: HostTypes>(host: &mut Host<T>, now: u64, decay: Decay) -> (d: Delivery)
    requires
        old(host).wf(),
    ensures
        final(host).wf(),
        d.wf(),
        match old(host).window {
            Some(w) => {
                &&& final(host).window matches Some(v)
                &&& v.touches@ == w.touches@.pumped(w.bounds.size, now, decay)
                &&& v == (IosWindowState { touches: v.touches, ..w })
                &&& d@ == (Work {
                    inputs: w.touches@.pumped_events(w.bounds.size, now, decay),
                    frame: true,
                })
            },
            None => final(host).window is None && d@ == Work::none(),
        },
        *final(host) == (Host { window: final(host).window, ..*old(host) }),
{
    let mut inputs: Vec<PlatformInput> = Vec::new();
    let mut frame: bool = false;
    match host.window.take() {
        Some(w) => {
            let mut w = w;
            inputs = w.pump_momentum(now, decay);
            frame = true;
            host.window = Some(w);
        },
        None => {},
    }
    let d = Delivery { inputs, next: 0, frame };
    assert(d@.inputs == inputs@);
    d
}

/// Touch event, in physical pixels.
///
/// The aggregator turns the multi-touch stream into events: a one-finger mouse
/// sequence, a two-finger pinch, a fling.
pub fn touch<T: HostTypes>(
    host: &mut Host<T>,
    pointer_id: u64,
    phase: i32,
    x: Single,
    y: Single,
    scale: Single,
    now: u64,
    weights: &RecencyWeights,
) -> (d: Delivery)
    requires
        old(host).wf(),
        weights.wf(),
    ensures
        final(host).wf(),
        d.wf(),
        match old(host).window {
            Some(w) => {
                let pos = touch_position(x, y, scale);
                &&& final(host).window matches Some(v)
                &&& v.touches@ == w.touches@.touched(pointer_id, phase, pos, now, *weights)
                &&& v == (IosWindowState { touches: v.touches, ..w })
                &&& d@ == Work::events(
                    w.touches@.touched_events(pointer_id, phase, pos, now, *weights),
                )
            },
            None => final(host).window is None && d@ == Work::none(),
        },
        *final(host) == (Host { window: final(host).window, ..*old(host) }),
{
    let scale = if Single::from_bits(0).lt(scale) {
        scale
    } else {
        Single::from_integer(1)
    };
    // The window works in logical pixels; the host sends physical ones.
    let position = Point { x: x.div(scale), y: y.div(scale) };
    let mut inputs: Vec<PlatformInput> = Vec::new();
    match host.window.take() {
        Some(w) => {
            let mut w = w;
            inputs = w.dispatch_touch(pointer_id, phase, position, now, weights);
            host.window = Some(w);
        },
        None => {},
    }
    let d = Delivery { inputs, next: 0, frame: false };
    assert(d@.inputs == inputs@);
    d
}

/// Makes the next call of a delivery: notes where the events point, and hands out the
/// callback to call. Events that find no callback are noted and dropped.
pub fn deliver<T: HostTypes>(host: &mut Host<T>, d: &mut Delivery) -> (step: Step<T>)
    requires
        old(d).wf(),
    ensures
        final(d).wf(),
        step == old(d)@.step(old(host).window),
        final(d)@ == old(d)@.remaining(old(host).window),
        *final(host) == (Host { window: old(d)@.during(old(host).window), ..*old(host) }),
        old(host).wf() ==> final(host).wf(),
{
    let ghost work = d@;
    match host.window.take() {
        None => {
            d.next = d.inputs.len();
            d.frame = false;
            Step::Done
        },
        Some(w) => {
            let mut w = w;
            let ghost before = w;
            let ghost start = d.next as int;
            assert(work.inputs.take(0) == Seq::<PlatformInput>::empty());
            while d.next < d.inputs.len()
                invariant
                    d.wf(),
                    0 <= start <= d.next,
                    d.inputs@ == old(d).inputs@,
                    d.frame == old(d).frame,
                    work == old(d)@,
                    start == old(d).next,
                    w == before.delivered(work.inputs.take(d.next - start)),
                    w.touches == before.touches,
                    d.next == start || before.callbacks.input is None,
                    before.callbacks.input is None ==> w.callbacks.input is None,
                    host.window is None,
                    *host == (Host { window: None, ..*old(host) }),
                    old(host).window == Some(before),
                decreases d.inputs.len() - d.next,
            {
                let input = d.inputs[d.next];
                let ghost k = d.next - start;
                proof {
                    assert(work.inputs.take(k + 1).drop_last() == work.inputs.take(k));
                    assert(work.inputs.take(k + 1).last() == input);
                }
                let cb = w.dispatch_input(&input);
                d.next = d.next + 1;
                match cb {
                    Some(cb) => {
                        assert(work.inputs.take(0) == Seq::<PlatformInput>::empty());
                        assert(d@.inputs == work.inputs.drop_first());
                        host.window = Some(w);
                        return Step::Input(cb, input);
                    },
                    None => {},
                }
            }
            proof {
                assert(work.inputs.take(d.next - start) == work.inputs);
            }
            let frame = d.frame;
            d.frame = false;
            assert(d@.inputs == Seq::<PlatformInput>::empty());
            let mut step: Step<T> = Step::Done;
            proof {
                lemma_delivery_keeps_frame_callback(before, work.inputs);
            }
            if frame {
                match w.request_frame() {
                    Some((cb, options)) => {
                        step = Step::Frame(cb, options);
                    },
                    None => {},
                }
            }
            host.window = Some(w);
            step
        },
    }
}

proof fn lemma_delivery_keeps_frame_callback<T: HostTypes>(
    w: IosWindowState<T>,
    inputs: Seq<PlatformInput>,
)
    ensures
        w.delivered(inputs).callbacks.request_frame == w.callbacks.request_frame,
    decreases inputs.len(),
{
    if inputs.len() > 0 {
        lemma_delivery_keeps_frame_callback(w, inputs.drop_last());
    }
}

/// Puts the input callback back after its call.
pub fn done_input<T: HostTypes>(host: &mut Host<T>, cb: T::InputCallback)
    ensures
        *final(host) == (Host {
            window: match old(host).window {
                Some(w) => Some(w.input_back(cb)),
                None => None,
            },
            ..*old(host)
        }),
{
    match host.window.take() {
        Some(w) => {
            let mut w = w;
            w.input_dispatched(cb);
            host.window = Some(w);
        },
        None => {},
    }
}

/// Puts the frame callback back after its call.
pub fn done_frame<T: HostTypes>(host: &mut Host<T>, cb: T::FrameCallback)
    ensures
        *final(host) == (Host {
            window: match old(host).window {
                Some(w) => Some(w.frame_back(cb)),
                None => None,
            },
            ..*old(host)
        }),
{
    match host.window.take() {
        Some(w) => {
            let mut w = w;
            w.frame_requested(cb);
            host.window = Some(w);
        },
        None => {},
    }
}

/// Layout change (rotation or split screen).
pub fn resize<T: HostTypes>(host: &mut Host<T>, physical_w: u32, physical_h: u32, scale: Single) -> (r:
    Option<Resize<T>>)
    ensures
        *final(host) == (Host {
            window: match old(host).window {
                Some(w) => Some(w.resize_out(physical_w, physical_h, scale)),
                None => None,
            },
            ..*old(host)
        }),
        match old(host).window {
            Some(w) => r matches Some(resize) && w.is_resize(resize, physical_w, physical_h, scale),
            None => r is None,
        },
{
    match host.window.take() {
        Some(w) => {
            let mut w = w;
            let resize = w.handle_resize(physical_w, physical_h, scale);
            host.window = Some(w);
            Some(resize)
        },
        None => None,
    }
}

/// Puts the resize callback back after its call.
pub fn done_resize<T: HostTypes>(host: &mut Host<T>, cb: T::ResizeCallback)
    ensures
        *final(host) == (Host {
            window: match old(host).window {
                Some(w) => Some(w.resize_back(cb)),
                None => None,
            },
            ..*old(host)
        }),
{
    match host.window.take() {
        Some(w) => {
            let mut w = w;
            w.resize_handled(cb);
            host.window = Some(w);
        },
        None => {},
    }
}

/// Foreground and background lifecycle: the callback to call, and what to call it with.
pub fn set_active<T: HostTypes>(host: &mut Host<T>, active: bool) -> (r: Option<
    (T::ActiveCallback, bool),
>)
    ensures
        *final(host) == (Host {
            window: match old(host).window {
                Some(w) => Some(w.active_out()),
                None => None,
            },
            ..*old(host)
        }),
        match old(host).window {
            Some(w) => match w.callbacks.active_status_change {
                Some(cb) => r == Some((cb, active)),
                None => r is None,
            },
            None => r is None,
        },
{
    match host.window.take() {
        Some(w) => {
            let mut w = w;
            let cb = w.notify_active();
            host.window = Some(w);
            match cb {
                Some(cb) => Some((cb, active)),
                None => None,
            }
        },
        None => None,
    }
}

/// Puts the activation callback back after its call.
pub fn done_active<T: HostTypes>(host: &mut Host<T>, cb: T::ActiveCallback)
    ensures
        *final(host) == (Host {
            window: match old(host).window {
                Some(w) => Some(w.active_back(cb)),
                None => None,
            },
            ..*old(host)
        }),
{
    match host.window.take() {
        Some(w) => {
            let mut w = w;
            w.active_notified(cb);
            host.window = Some(w);
        },
        None => {},
    }
}

/// Takes over the current safe-area insets (logical points). The host reports them in
/// points, so they need no scale.
pub fn set_safe_area_insets<T: HostTypes>(
    host: &mut Host<T>,
    top: Single,
    right: Single,
    bottom: Single,
    left: Single,
)
    ensures
        *final(host) == (Host {
            safe_area: Edges { top, right, bottom, left },
            ..*old(host)
        }),
{
    host.safe_area = Edges { top, right, bottom, left };
}

/// The safe-area insets last reported (logical points), or zero before the first
/// report.
pub fn safe_area_insets<T: HostTypes>(host: &Host<T>) -> (r: Edges)
    ensures
        r == host.safe_area,
{
    host.safe_area
}

/// Inserts text at the caret: hands out the input handler with the edit to make.
/// Nothing where no field has focus.
pub fn insert_text<'a, T: HostTypes>(host: &mut Host<T>, text: &'a str) -> (r: Option<
    (T::InputHandler, Edit<'a>),
>)
    ensures
        *final(host) == (Host {
            window: match old(host).window {
                Some(w) => Some(IosWindowState { text: w.text.lent(), ..w }),
                None => None,
            },
            ..*old(host)
        }),
        match old(host).window {
            Some(w) => match w.text.handler {
                Some(h) => r == Some((h, (Edit { range: None, text }))),
                None => r is None,
            },
            None => r is None,
        },
{
    match host.window.take() {
        Some(w) => {
            let mut w = w;
            let edit = w.text.insert(text);
            host.window = Some(w);
            edit
        },
        None => None,
    }
}

/// Backspace: hands out the input handler, whose selection decides the edit, see
/// [`crate::text_seam::delete_backward`]. Nothing where no field has focus.
pub fn delete_backward<T: HostTypes>(host: &mut Host<T>) -> (r: Option<T::InputHandler>)
    ensures
        *final(host) == (Host {
            window: match old(host).window {
                Some(w) => Some(IosWindowState { text: w.text.lent(), ..w }),
                None => None,
            },
            ..*old(host)
        }),
        r == match old(host).window {
            Some(w) => w.text.handler,
            None => None,
        },
{
    match host.window.take() {
        Some(w) => {
            let mut w = w;
            let handler = w.text.check_out();
            host.window = Some(w);
            handler
        },
        None => None,
    }
}

/// Puts the input handler back after an edit.
pub fn done_edit<T: HostTypes>(host: &mut Host<T>, handler: T::InputHandler)
    ensures
        *final(host) == (Host {
            window: match old(host).window {
                Some(w) => Some(IosWindowState { text: w.text.restored(handler), ..w }),
                None => None,
            },
            ..*old(host)
        }),
{
    match host.window.take() {
        Some(w) => {
            let mut w = w;
            w.text.give_back(handler);
            host.window = Some(w);
        },
        None => {},
    }
}

/// Whether a text field wants the soft keyboard. Polled by the host once per tick.
pub fn keyboard_wanted<T: HostTypes>(host: &Host<T>) -> (r: bool)
    ensures
        r == match host.window {
            Some(w) => w.text.wants_keyboard,
            None => false,
        },
{
    match &host.window {
        Some(w) => w.text.wants_keyboard(),
        None => false,
    }
}

/// The caret rectangle last reported (logical pixels), or nothing at the origin.
pub fn keyboard_caret<T: HostTypes>(host: &Host<T>) -> (r: Bounds)
    ensures
        r == match host.window {
            Some(w) => w.text.caret,
            None => no_bounds(),
        },
{
    match &host.window {
        Some(w) => w.text.caret(),
        None => {
            let zero = Single::from_bits(0);
            Bounds { origin: Point::at_origin(), size: Size { width: zero, height: zero } }
        },
    }
}

} // verus!
