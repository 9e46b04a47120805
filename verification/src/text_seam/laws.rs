//! What the text-input seam promises.

use std::ops::Range;
use vstd::prelude::*;
use super::{TextInputState, UTF16Selection};

verus! {

/// A steady focus never flickers the keyboard: a handler that is taken and set again
/// within a frame leaves the seam as it was.
pub proof fn law_steady_focus_keeps_the_keyboard<H>(s: TextInputState<H>, handler: H)
    requires
        s.handler == Some(handler),
        s.wants_keyboard,
    ensures
        s.blurred().focused(handler) == s,
        s.blurred().focused(handler).wants_keyboard,
{
}

/// A focus asks for the keyboard, a blur drops it and leaves no handler.
pub proof fn law_focus_and_blur<H>(s: TextInputState<H>, handler: H)
    ensures
        s.focused(handler).wants_keyboard,
        s.focused(handler).handler == Some(handler),
        !s.focused(handler).blurred().wants_keyboard,
        s.focused(handler).blurred().handler is None,
{
}

/// What happens to the focus.
pub enum Focus<H> {
    Gained(H),
    Lost,
}

/// The seam after some sets and takes.
pub open spec fn after<H>(history: Seq<Focus<H>>) -> TextInputState<H>
    decreases history.len(),
{
    if history.len() == 0 {
        TextInputState::empty()
    } else {
        let before = after(history.drop_last());
        match history.last() {
            Focus::Gained(handler) => before.focused(handler),
            Focus::Lost => before.blurred(),
        }
    }
}

/// Whatever was set and taken, the keyboard is wanted exactly while a handler is
/// installed.
pub proof fn law_keyboard_follows_the_handler<H>(history: Seq<Focus<H>>)
    ensures
        after(history).wants_keyboard <==> after(history).handler is Some,
    decreases history.len(),
{
    if history.len() > 0 {
        law_keyboard_follows_the_handler(history.drop_last());
    }
}

/// An edit that changes no focus leaves the seam as it was.
pub proof fn law_forwarding_restores<H>(s: TextInputState<H>, handler: H)
    requires
        s.handler == Some(handler),
    ensures
        s.lent().restored(handler) == s,
{
}

/// A handler installed while another was lent out wins.
pub proof fn law_fresh_handler_wins<H>(s: TextInputState<H>, lent: H, fresh: H)
    ensures
        s.lent().focused(fresh).restored(lent) == s.lent().focused(fresh),
        s.lent().focused(fresh).restored(lent).handler == Some(fresh),
{
}

/// The caret is where it was last reported, whatever happens to the focus.
pub proof fn law_caret_is_kept<H>(s: TextInputState<H>, handler: H)
    ensures
        s.focused(handler).caret == s.caret,
        s.blurred().caret == s.caret,
        s.lent().caret == s.caret,
        s.restored(handler).caret == s.caret,
{
}

/// An edit has the handler to itself: while it is lent out there is none, and the keyboard
/// stays as it was. A handler that is given back is installed exactly where none is, which
/// asks for no keyboard.
pub proof fn law_lending_keeps_the_keyboard<H>(s: TextInputState<H>, handler: H)
    ensures
        s.lent().handler is None,
        s.lent().wants_keyboard == s.wants_keyboard,
        s.restored(handler).wants_keyboard == s.wants_keyboard,
        s.handler is None ==> s.restored(handler).handler == Some(handler),
        s.handler is Some ==> s.restored(handler).handler == s.handler,
{
}

/// A backspace deletes a whole selection, or exactly the one unit before the caret,
/// and at the start of the document nothing.
pub proof fn law_backspace(selection: UTF16Selection)
    ensures
        selection.range.start < selection.range.end ==> super::backspaced(Some(selection)) == Some(
            selection.range,
        ),
        selection.range.start >= selection.range.end && selection.range.start > 0 ==> (
        super::backspaced(Some(selection)) matches Some(r) && r.end == selection.range.start
            && r.end - r.start == 1),
        selection.range.start == 0 && selection.range.end == 0 ==> super::backspaced(
            Some(selection),
        ) is None,
        super::backspaced(None) is None,
{
}

/// A text field: UTF-16 code units, and what is selected of them.
#[verifier::ext_equal]
pub ghost struct Field {
    pub units: Seq<u16>,
    pub selection: Range<usize>,
}

/// The field once an edit has replaced a range, or the selection where there is none;
/// the caret stands behind what was put in.
pub open spec fn edited(field: Field, range: Option<Range<usize>>, units: Seq<u16>) -> Field {
    let r = match range {
        Some(r) => r,
        None => field.selection,
    };
    let caret = (r.start + units.len()) as usize;
    Field {
        units: field.units.take(r.start as int) + units + field.units.skip(r.end as int),
        selection: Range { start: caret, end: caret },
    }
}

/// A backspace takes back the keystroke before it: a field with a caret that gets one
/// unit typed and then makes the edit of a backspace is as it was.
pub proof fn law_backspace_undoes_a_keystroke(field: Field, unit: u16)
    requires
        field.selection.start == field.selection.end,
        field.selection.start <= field.units.len(),
        field.selection.start < usize::MAX,
    ensures
        ({
            let typed = edited(field, None, seq![unit]);
            let range = super::backspaced(
                Some(UTF16Selection { range: typed.selection, reversed: false }),
            );
            range is Some && edited(typed, range, Seq::empty()) == field
        }),
{
    let c = field.selection.start as int;
    let typed = edited(field, None, seq![unit]);
    assert(typed.units.take(c) == field.units.take(c));
    assert(typed.units.skip(c + 1) == field.units.skip(c));
    assert(field.units.take(c) + Seq::<u16>::empty() + field.units.skip(c) == field.units);
}

} // verus!
