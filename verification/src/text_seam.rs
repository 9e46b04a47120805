//! The text-input seam: soft-keyboard toggle and keystroke forwarding.
//!
//! A focused text field installs an input handler; when focus leaves, the handler is
//! taken back. This module owns that handler and turns host keystrokes into edits of
//! it.
//!
//! # The keyboard is pulled, not pushed
//!
//! The handler is taken and set again on every frame that is drawn. Toggling the
//! keyboard on each of those would thrash it once per frame. Instead
//! [`TextInputState::set_handler`] and [`TextInputState::take_handler`] only flip a
//! [`wants_keyboard`](TextInputState::wants_keyboard) flag, which the host polls once
//! per tick. A field that stays focused re-installs its handler in the same frame it
//! was taken, before the host next polls, so a steady focus never flickers the
//! keyboard.
//!
//! # Forwarding
//!
//! An edit re-enters the application, which may set or take the handler meanwhile. So
//! the handler is checked out for the duration of an edit and given back afterwards:
//! [`TextInputState::insert`] and [`TextInputState::check_out`] hand it out,
//! [`TextInputState::give_back`] restores it, unless a fresh one was installed in
//! between.

pub mod laws;

use std::ops::Range;
use vstd::prelude::*;
use crate::geometry::{Bounds, Point, Size};
use crate::ieee::single::Single;

verus! {

/// A selection in UTF-16 code units.
#[derive(Debug)]
pub struct UTF16Selection {
    pub range: Range<usize>,
    pub reversed: bool,
}

/// A replacement of a range of a text field, or of its selection where there is no
/// range.
#[derive(Debug)]
pub struct Edit<'a> {
    pub range: Option<Range<usize>>,
    pub text: &'a str,
}

/// Owns the active input handler and the derived soft-keyboard state of the window.
#[derive(Debug)]
pub struct TextInputState<H> {
    /// The handler installed for the focused text field, if any.
    pub handler: Option<H>,
    /// Whether a text field currently wants the soft keyboard.
    pub wants_keyboard: bool,
    /// The last caret rectangle reported (logical pixels).
    pub caret: Bounds,
}

impl<H> TextInputState<H> {
    /// No handler, keyboard hidden, caret at the origin.
    pub open spec fn empty() -> Self {
        let zero = Single::zero();
        TextInputState {
            handler: None,
            wants_keyboard: false,
            caret: Bounds {
                origin: Point::origin(),
                size: Size { width: zero, height: zero },
            },
        }
    }

    /// The state once a field has focus.
    pub open spec fn focused(self, handler: H) -> Self {
        TextInputState { handler: Some(handler), wants_keyboard: true, ..self }
    }

    /// The state once the handler has been taken.
    pub open spec fn blurred(self) -> Self {
        TextInputState { handler: None, wants_keyboard: false, ..self }
    }

    /// The state while an edit has the handler.
    pub open spec fn lent(self) -> Self {
        TextInputState { handler: None, ..self }
    }

    /// The state once an edit has handed the handler back.
    pub open spec fn restored(self, handler: H) -> Self {
        if self.handler is None {
            TextInputState { handler: Some(handler), ..self }
        } else {
            self
        }
    }

    /// An empty seam.
    pub fn new() -> (s: Self)
        ensures
            s == Self::empty(),
    {
        let zero = Single::from_bits(0);
        TextInputState {
            handler: None,
            wants_keyboard: false,
            caret: Bounds {
                origin: Point::at_origin(),
                size: Size { width: zero, height: zero },
            },
        }
    }

    /// Installs the handler for a newly focused text field and requests the keyboard.
    pub fn set_handler(&mut self, handler: H)
        ensures
            *final(self) == old(self).focused(handler),
    {
        self.handler = Some(handler);
        self.wants_keyboard = true;
    }

    /// Takes the handler back and drops the keyboard request.
    pub fn take_handler(&mut self) -> (r: Option<H>)
        ensures
            *final(self) == old(self).blurred(),
            r == old(self).handler,
    {
        self.wants_keyboard = false;
        self.handler.take()
    }

    /// Whether a text field currently wants the soft keyboard shown.
    pub fn wants_keyboard(&self) -> (r: bool)
        ensures
            r == self.wants_keyboard,
    {
        self.wants_keyboard
    }

    /// Records the caret rectangle (logical pixels).
    pub fn set_caret(&mut self, caret: Bounds)
        ensures
            *final(self) == (TextInputState { caret, ..*old(self) }),
    {
        self.caret = caret;
    }

    /// The last caret rectangle reported (logical pixels), or the origin if none.
    pub fn caret(&self) -> (r: Bounds)
        ensures
            r == self.caret,
    {
        self.caret
    }

    /// Hands the handler out for an edit. Nothing where no field has one installed.
    pub fn check_out(&mut self) -> (r: Option<H>)
        ensures
            *final(self) == old(self).lent(),
            r == old(self).handler,
    {
        self.handler.take()
    }

    /// Restores a handler after an edit. One installed meanwhile wins, and the old one
    /// is dropped.
    pub fn give_back(&mut self, handler: H)
        ensures
            *final(self) == old(self).restored(handler),
    {
        if self.handler.is_none() {
            self.handler = Some(handler);
        }
    }

    /// Inserts host-provided text at the caret: hands the handler out with the edit to
    /// make. Nothing where no field has one installed.
    pub fn insert<'a>(&mut self, text: &'a str) -> (r: Option<(H, Edit<'a>)>)
        ensures
            *final(self) == old(self).lent(),
            match old(self).handler {
                Some(h) => r == Some((h, (Edit { range: None, text }))),
                None => r is None,
            },
    {
        match self.check_out() {
            Some(handler) => Some((handler, Edit { range: None, text })),
            None => None,
        }
    }
}

/// Deletes the selection, or one UTF-16 unit before the caret: the edit to make of a
/// handler with that selection. Nothing where nothing precedes the caret.
pub fn delete_backward(selection: Option<UTF16Selection>) -> (r: Option<Edit<'static>>)
    ensures
        match backspaced(selection) {
            Some(range) => r matches Some(edit) && edit.range == Some(range) && edit.text@ == ""@,
            None => r is None,
        },
{
    match backspace_range(selection) {
        Some(range) => Some(Edit { range: Some(range), text: "" }),
        None => None,
    }
}

/// The range a backspace deletes: a selection that is not empty, else the unit before
/// the caret, else nothing.
pub open spec fn backspaced(selection: Option<UTF16Selection>) -> Option<Range<usize>> {
    match selection {
        None => None,
        Some(s) => if s.range.start < s.range.end {
            Some(s.range)
        } else if s.range.start > 0 {
            Some(Range { start: (s.range.start - 1) as usize, end: s.range.start })
        } else {
            None
        },
    }
}

/// The UTF-16 range a backspace should delete, or `None` when nothing precedes the
/// caret.
///
/// A non-empty selection is deleted whole; otherwise one UTF-16 code unit before the
/// caret is removed.
pub fn backspace_range(selection: Option<UTF16Selection>) -> (r: Option<Range<usize>>)
    ensures
        r == backspaced(selection),
{
    match selection {
        None => None,
        Some(s) => {
            let range = s.range;
            if range.start < range.end {
                Some(range)
            } else if range.start > 0 {
                Some(Range { start: range.start - 1, end: range.start })
            } else {
                None
            }
        },
    }
}

} // verus!
