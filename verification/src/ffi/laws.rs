//! What the entry points promise.

use vstd::prelude::*;
use crate::ffi::{BootParams, Step, Work};
use crate::ieee::single::Single;
use crate::input::PlatformInput;
use crate::platform::IosPlatform;
use crate::window::{HostTypes, IosWindowState, RequestFrameOptions};

verus! {

/// The window once the callback of a step is back.
pub open spec fn settled<T: HostTypes>(
    window: Option<IosWindowState<T>>,
    step: Step<T>,
) -> Option<IosWindowState<T>> {
    match window {
        None => None,
        Some(w) => match step {
            Step::Input(cb, _) => Some(w.input_back(cb)),
            Step::Frame(cb, _) => Some(w.frame_back(cb)),
            Step::Done => Some(w),
        },
    }
}

/// The calls that a delivery makes, the callbacks leaving the window alone.
pub open spec fn calls<T: HostTypes>(window: Option<IosWindowState<T>>, work: Work) -> Seq<Step<T>>
    decreases work.size(),
{
    let step = work.step(window);
    if step is Done {
        Seq::empty()
    } else {
        seq![step] + calls(settled(work.during(window), step), work.remaining(window))
    }
}

/// The window once a delivery is through, the callbacks leaving it alone.
pub open spec fn outcome<T: HostTypes>(
    window: Option<IosWindowState<T>>,
    work: Work,
) -> Option<IosWindowState<T>>
    decreases work.size(),
{
    let step = work.step(window);
    if step is Done {
        work.during(window)
    } else {
        outcome(settled(work.during(window), step), work.remaining(window))
    }
}

/// What every frame is asked to do.
pub open spec fn forced() -> RequestFrameOptions {
    RequestFrameOptions { require_presentation: true, force_render: true }
}

/// A tick delivers the fling's events first, each once and in order, and then draws the
/// frame, once.
pub proof fn law_events_come_before_the_frame<T: HostTypes>(
    w: IosWindowState<T>,
    sink: T::InputCallback,
    draw: T::FrameCallback,
    inputs: Seq<PlatformInput>,
)
    requires
        w.callbacks.input == Some(sink),
        w.callbacks.request_frame == Some(draw),
    ensures
        calls(Some(w), Work { inputs, frame: true }) == inputs.map_values(
            |e: PlatformInput| Step::<T>::Input(sink, e),
        ).push(Step::Frame(draw, forced())),
    decreases inputs.len(),
{
    let work = Work { inputs, frame: true };
    let step = work.step(Some(w));
    let after = settled(work.during(Some(w)), step);
    let f = |e: PlatformInput| Step::<T>::Input(sink, e);
    if inputs.len() > 0 {
        let next = w.input_out(inputs[0]).input_back(sink);
        assert(after == Some(next));
        law_events_come_before_the_frame(next, sink, draw, inputs.drop_first());
        assert(seq![step] + inputs.drop_first().map_values(f).push(Step::Frame(draw, forced()))
            == inputs.map_values(f).push(Step::Frame(draw, forced())));
    } else {
        assert(work.remaining(Some(w)) == Work::none());
        assert(calls(after, Work::none()) == Seq::<Step<T>>::empty());
        assert(seq![step] + Seq::<Step<T>>::empty() == inputs.map_values(f).push(
            Step::Frame(draw, forced()),
        ));
    }
}

/// A touch delivers its events, each once and in order, and draws nothing.
pub proof fn law_touches_draw_nothing<T: HostTypes>(
    w: IosWindowState<T>,
    sink: T::InputCallback,
    inputs: Seq<PlatformInput>,
)
    requires
        w.callbacks.input == Some(sink),
    ensures
        calls(Some(w), Work::events(inputs)) == inputs.map_values(
            |e: PlatformInput| Step::<T>::Input(sink, e),
        ),
    decreases inputs.len(),
{
    let work = Work::events(inputs);
    let step = work.step(Some(w));
    let f = |e: PlatformInput| Step::<T>::Input(sink, e);
    if inputs.len() > 0 {
        let next = w.input_out(inputs[0]).input_back(sink);
        assert(settled(work.during(Some(w)), step) == Some(next));
        law_touches_draw_nothing(next, sink, inputs.drop_first());
        assert(work.remaining(Some(w)) == Work::events(inputs.drop_first()));
        assert(seq![step] + inputs.drop_first().map_values(f) == inputs.map_values(f));
    } else {
        assert(calls(Some(w), work) == inputs.map_values(f));
    }
}

/// Events that find no sink are dropped, and the frame is still drawn.
pub proof fn law_events_need_a_sink<T: HostTypes>(
    w: IosWindowState<T>,
    draw: T::FrameCallback,
    inputs: Seq<PlatformInput>,
)
    requires
        w.callbacks.input is None,
        w.callbacks.request_frame == Some(draw),
    ensures
        calls(Some(w), Work { inputs, frame: true }) == seq![
            Step::<T>::Frame(draw, forced()),
        ],
{
    let work = Work { inputs, frame: true };
    let step = work.step(Some(w));
    let after = settled(work.during(Some(w)), step);
    assert(work.remaining(Some(w)) == Work::none());
    assert(calls(after, Work::none()) == Seq::<Step<T>>::empty());
}

/// A delivery leaves the window as it was, every callback in place, but for the pointer,
/// which is where the events put it.
pub proof fn law_deliveries_keep_the_window<T: HostTypes>(w: IosWindowState<T>, work: Work)
    ensures
        outcome(Some(w), work) == Some(
            IosWindowState { mouse_position: w.delivered(work.inputs).mouse_position, ..w },
        ),
    decreases work.inputs.len(),
{
    let inputs = work.inputs;
    let step = work.step(Some(w));
    let after = settled(work.during(Some(w)), step);
    let rest = work.remaining(Some(w));
    match w.callbacks.input {
        Some(sink) if inputs.len() > 0 => {
            let next = w.input_out(inputs[0]).input_back(sink);
            assert(after == Some(next));
            law_deliveries_keep_the_window(next, rest);
            lemma_pointer_after_first(w, next, inputs);
        },
        _ => {
            lemma_delivery_moves_only_the_pointer(w, inputs);
            assert(rest == Work::none());
            if !(step is Done) {
                assert(outcome(after, Work::none()) == Work::none().during(after));
                assert(Work::none().step(after) is Done);
                assert(after->0.delivered(Work::none().inputs) == after->0);
            }
        },
    }
}

proof fn lemma_delivery_moves_only_the_pointer<T: HostTypes>(
    w: IosWindowState<T>,
    inputs: Seq<PlatformInput>,
)
    requires
        w.callbacks.input is None || inputs.len() == 0,
    ensures
        w.delivered(inputs) == (IosWindowState {
            mouse_position: w.delivered(inputs).mouse_position,
            ..w
        }),
    decreases inputs.len(),
{
    if inputs.len() > 0 {
        lemma_delivery_moves_only_the_pointer(w, inputs.drop_last());
    }
}

proof fn lemma_pointer_after_first<T: HostTypes>(
    w: IosWindowState<T>,
    next: IosWindowState<T>,
    inputs: Seq<PlatformInput>,
)
    requires
        inputs.len() > 0,
        next.mouse_position == w.input_out(inputs[0]).mouse_position,
    ensures
        next.delivered(inputs.drop_first()).mouse_position == w.delivered(inputs).mouse_position,
    decreases inputs.len(),
{
    if inputs.len() > 1 {
        lemma_pointer_after_first(w, next, inputs.drop_last());
        assert(inputs.drop_first().drop_last() == inputs.drop_last().drop_first());
        assert(inputs.drop_first().last() == inputs.last());
    } else {
        assert(inputs.drop_last() == Seq::<PlatformInput>::empty());
        assert(w.delivered(inputs.drop_last()) == w);
        assert(inputs.drop_first() == Seq::<PlatformInput>::empty());
    }
}

/// A scale that is not positive counts as one.
pub proof fn law_bad_scale_counts_as_one(x: Single, y: Single, scale: Single)
    requires
        !Single::zero().less(scale),
    ensures
        super::touch_position(x, y, scale) == super::touch_position(
            x,
            y,
            Single::nearest(1real),
        ),
{
}

/// The window that is opened with the parameters of a boot fills the display of the
/// platform that the boot built.
pub proof fn law_window_fills_the_display<T: HostTypes>(
    platform: IosPlatform<T>,
    window: IosWindowState<T>,
    params: BootParams,
)
    requires
        platform.is_fresh(Some(params)),
        window.is_new(params.physical_w, params.physical_h, params.scale),
    ensures
        window.bounds.size == platform.active_display.extent(),
{
}

/// A touch is in logical pixels: each coordinate times the scale is the physical one, but
/// for rounding. Where the scale is zero, negative or no number it counts as one, and the
/// coordinates are taken as they are.
pub proof fn law_touch_is_scaled(x: Single, y: Single, scale: Single)
    requires
        x.is_finite(),
        y.is_finite(),
        crate::ieee::error::size(x.value()) <= 1000000000real,
        crate::ieee::error::size(y.value()) <= 1000000000real,
        scale.is_nan() || scale.value() <= 0real || crate::window::laws::is_scale(scale),
    ensures
        ({
            let p = super::touch_position(x, y, scale);
            let k = if scale.is_nan() || scale.value() <= 0real {
                1real
            } else {
                scale.value()
            };
            &&& is_divided(p.x, x.value(), k)
            &&& is_divided(p.y, y.value(), k)
        }),
{
    reveal(Single::less);
    Single::lemma_format();
    Single::format().lemma_value_zero();
    assert(Single::zero().value() == 0real && !Single::zero().is_nan());
    Single::law_integer_exact(1);
    let k = super::touch_scale(scale);
    lemma_divided(x, k);
    lemma_divided(y, k);
}

/// A coordinate times a scale is another, but for rounding.
pub open spec fn is_divided(q: Single, x: real, k: real) -> bool {
    &&& q.is_finite()
    &&& crate::ieee::error::size(q.value() * k - x) <= crate::ieee::error::size(x) / 16777216real
        + 1real / 1152921504606846976real
}

proof fn lemma_divided(a: Single, scale: Single)
    requires
        a.is_finite(),
        crate::ieee::error::size(a.value()) <= 1000000000real,
        crate::window::laws::is_scale(scale),
    ensures
        is_divided(a.over(scale), a.value(), scale.value()),
{
    Single::lemma_least_exactly();
    let e = crate::ieee::format::Format::exp2(-150);
    let y = a.value();
    let k = scale.value();
    let q = y / k;
    assert(q * k == y) by (nonlinear_arith)
        requires
            q == y / k,
            k > 0real,
    ;
    assert(-10000000000000real <= q <= 10000000000000real) by (nonlinear_arith)
        requires
            q * k == y,
            -1000000000real <= y <= 1000000000real,
            k >= 1real / 1024real,
    ;
    Single::lemma_in_range(q);
    Single::law_quotient_is_near(a, scale);
    let r = a.over(scale).value();
    let m = crate::ieee::error::size(q);
    let n = crate::ieee::error::size(y);
    let g = r - q;
    let h = crate::ieee::error::size(g);
    assert(r * k - y == g * k) by (nonlinear_arith)
        requires
            g == r - q,
            q * k == y,
    ;
    assert(m * k == n) by (nonlinear_arith)
        requires
            q * k == y,
            m == q || m == -q,
            m >= 0real,
            n == y || n == -y,
            n >= 0real,
            k > 0real,
    ;
    assert(0real <= h * k <= n / 16777216real + e * k) by (nonlinear_arith)
        requires
            0real <= h <= m / 16777216real + e,
            m * k == n,
            k > 0real,
    ;
    assert(e * k <= 1024real * e) by (nonlinear_arith)
        requires
            k <= 1024real,
            e > 0real,
    ;
    assert(g * k == h * k || g * k == -(h * k)) by (nonlinear_arith)
        requires
            g == h || g == -h,
    ;
}

} // verus!
