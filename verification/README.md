# gpui_ios

A backend that runs a GPU-drawn application under an iOS host, verified with Verus.

The host owns the run loop, the drawable layer and the display link. It boots the backend
once and then drives it with frame ticks, touches, resizes and lifecycle changes. The
backend turns multi-touch into cooked input events, lets a drag glide on with a decaying
velocity, and forwards keystrokes to the focused text field.

## Layout

- `src/`: the verified library.
  - `ffi`, `platform`, `window`, `display`, `dispatcher`: the state that the host and the
    application share, and what each entry point does to it.
  - `touch`, `momentum`, `text_seam`: gestures, inertia and text input.
  - `ieee`: binary floating point on bits, proved to round to nearest.
  - `laws` modules: what holds across several functions, as proof functions.
- `app/`: the system around the library: the clock, the queues, the renderer, and the
  traits of the application framework.
- `tests/`: the library run on concrete values; its arithmetic against the machine's.

## What is handed in

The library reads no clock and calls no application code. Times are nanoseconds of the
caller's monotonic clock. A callback that is due is handed out with its arguments and given
back after the call. The exponential, the power and the logarithm of the momentum model
come in as `RecencyWeights` and `Decay`.
