//! A backend that runs a GPU-drawn application under an iOS host.
//!
//! The host owns the run loop, the drawable and the display link. It boots the backend
//! once and then drives it: a tick per frame, every touch of every finger, resizes and
//! lifecycle changes. The application registers callbacks and receives cooked input.
//!
//! - [`ffi`] is what the host calls; [`platform`] and [`window`] are what the
//!   application is given, with [`display`] and [`dispatcher`].
//! - [`touch`] turns raw multi-touch into events, [`momentum`] lets a drag glide on, and
//!   [`text_seam`] forwards keystrokes to the focused text field.
//! - [`geometry`] and [`input`] are the values they speak of. Every coordinate is a
//!   binary floating-point number of [`ieee`], whose arithmetic is proved to round to
//!   nearest.
//!
//! The library makes no call into the application. Where one is due, the callback is
//! handed out together with what to call it with, and given back afterwards. Nor does it
//! read a clock: every function that depends on the time takes it as an argument.

pub mod dispatcher;
pub mod display;
pub mod ffi;
pub mod geometry;
pub mod ieee;
pub mod input;
pub mod momentum;
pub mod platform;
pub mod text_seam;
pub mod touch;
pub mod window;
