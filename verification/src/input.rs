//! The cooked input events that the backend hands to its input sink.

use vstd::prelude::*;
use crate::geometry::Point;
use crate::ieee::single::Single;

verus! {

#[derive(Clone, Copy, Debug, PartialEq, Eq, Structural)]
pub enum MouseButton {
    Left,
    Right,
    Middle,
}

/// The keyboard modifiers held during an event.
#[derive(Clone, Copy, Debug, PartialEq, Eq, Structural)]
pub struct Modifiers {
    pub control: bool,
    pub alt: bool,
    pub shift: bool,
    pub platform: bool,
    pub function: bool,
}

impl Modifiers {
    /// A touch screen holds no modifiers.
    pub open spec fn nothing() -> Modifiers {
        Modifiers { control: false, alt: false, shift: false, platform: false, function: false }
    }
}

impl Default for Modifiers {
    fn default() -> (m: Modifiers)
        ensures
            m == Modifiers::nothing(),
    {
        Modifiers { control: false, alt: false, shift: false, platform: false, function: false }
    }
}

#[derive(Clone, Copy, Debug, PartialEq, Eq, Structural)]
pub enum TouchPhase {
    Started,
    Moved,
    Ended,
}

#[derive(Clone, Copy, Debug, PartialEq)]
pub enum ScrollDelta {
    Pixels(Point),
    Lines(Point),
}

#[derive(Clone, Copy, Debug, PartialEq)]
pub struct MouseDownEvent {
    pub button: MouseButton,
    pub position: Point,
    pub modifiers: Modifiers,
    pub click_count: usize,
    pub first_mouse: bool,
}

#[derive(Clone, Copy, Debug, PartialEq)]
pub struct MouseMoveEvent {
    pub position: Point,
    pub pressed_button: Option<MouseButton>,
    pub modifiers: Modifiers,
    pub is_touch: bool,
}

#[derive(Clone, Copy, Debug, PartialEq)]
pub struct MouseUpEvent {
    pub button: MouseButton,
    pub position: Point,
    pub modifiers: Modifiers,
    pub click_count: usize,
}

#[derive(Clone, Copy, Debug, PartialEq)]
pub struct ScrollWheelEvent {
    pub position: Point,
    pub delta: ScrollDelta,
    pub modifiers: Modifiers,
    pub touch_phase: TouchPhase,
    pub is_touch: bool,
}

#[derive(Clone, Copy, Debug, PartialEq)]
pub struct PinchEvent {
    pub position: Point,
    /// The change of the finger separation, relative to the previous one.
    pub delta: Single,
    pub modifiers: Modifiers,
    pub phase: TouchPhase,
}

#[derive(Clone, Copy, Debug, PartialEq)]
pub enum PlatformInput {
    MouseDown(MouseDownEvent),
    MouseMove(MouseMoveEvent),
    MouseUp(MouseUpEvent),
    ScrollWheel(ScrollWheelEvent),
    Pinch(PinchEvent),
}

impl PlatformInput {
    /// A one-finger press.
    pub open spec fn press(position: Point) -> PlatformInput {
        PlatformInput::MouseDown(
            MouseDownEvent {
                button: MouseButton::Left,
                position,
                modifiers: Modifiers::nothing(),
                click_count: 1,
                first_mouse: true,
            },
        )
    }

    /// A one-finger drag, or its continuation by a fling.
    pub open spec fn drag(position: Point) -> PlatformInput {
        PlatformInput::MouseMove(
            MouseMoveEvent {
                position,
                pressed_button: Some(MouseButton::Left),
                modifiers: Modifiers::nothing(),
                is_touch: true,
            },
        )
    }

    /// The end of a one-finger press.
    pub open spec fn release(position: Point) -> PlatformInput {
        PlatformInput::MouseUp(
            MouseUpEvent {
                button: MouseButton::Left,
                position,
                modifiers: Modifiers::nothing(),
                click_count: 1,
            },
        )
    }

    /// A pixel-precise scroll from a touch.
    pub open spec fn scroll(position: Point, delta: Point, phase: TouchPhase) -> PlatformInput {
        PlatformInput::ScrollWheel(
            ScrollWheelEvent {
                position,
                delta: ScrollDelta::Pixels(delta),
                modifiers: Modifiers::nothing(),
                touch_phase: phase,
                is_touch: true,
            },
        )
    }

    /// A two-finger pinch.
    pub open spec fn zoom(position: Point, delta: Single, phase: TouchPhase) -> PlatformInput {
        PlatformInput::Pinch(
            PinchEvent { position, delta, modifiers: Modifiers::nothing(), phase },
        )
    }
}

pub fn mouse_down(position: Point) -> (r: PlatformInput)
    ensures
        r == PlatformInput::press(position),
{
    PlatformInput::MouseDown(
        MouseDownEvent {
            button: MouseButton::Left,
            position,
            modifiers: Modifiers::default(),
            click_count: 1,
            first_mouse: true,
        },
    )
}

pub fn mouse_move(position: Point) -> (r: PlatformInput)
    ensures
        r == PlatformInput::drag(position),
{
    PlatformInput::MouseMove(
        MouseMoveEvent {
            position,
            pressed_button: Some(MouseButton::Left),
            modifiers: Modifiers::default(),
            is_touch: true,
        },
    )
}

pub fn mouse_up(position: Point) -> (r: PlatformInput)
    ensures
        r == PlatformInput::release(position),
{
    PlatformInput::MouseUp(
        MouseUpEvent {
            button: MouseButton::Left,
            position,
            modifiers: Modifiers::default(),
            click_count: 1,
        },
    )
}

/// A pixel-precise, touch-sourced scroll, so a consumer that maps device scroll to
/// zoom can ignore finger-drag scrolls while scroll containers still consume them.
/// The phase alone cannot express this: a device wheel also reports `Moved`.
pub fn scroll_wheel(position: Point, delta: Point, phase: TouchPhase) -> (r: PlatformInput)
    ensures
        r == PlatformInput::scroll(position, delta, phase),
{
    PlatformInput::ScrollWheel(
        ScrollWheelEvent {
            position,
            delta: ScrollDelta::Pixels(delta),
            modifiers: Modifiers::default(),
            touch_phase: phase,
            is_touch: true,
        },
    )
}

pub fn pinch(position: Point, delta: Single, phase: TouchPhase) -> (r: PlatformInput)
    ensures
        r == PlatformInput::zoom(position, delta, phase),
{
    PlatformInput::Pinch(PinchEvent { position, delta, modifiers: Modifiers::default(), phase })
}

} // verus!
