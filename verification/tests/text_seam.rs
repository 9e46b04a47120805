use gpui_ios::geometry::{Bounds, Point, Size};
use gpui_ios::ieee::single::Single;
use gpui_ios::text_seam::{
    backspace_range, delete_backward, Edit, TextInputState, UTF16Selection,
};
use std::ops::Range;

fn s(v: f32) -> Single {
    Single::from_bits(v.to_bits())
}

fn caret_at(pos: usize) -> UTF16Selection {
    UTF16Selection { range: pos..pos, reversed: false }
}

#[test]
fn backspace_deletes_one_unit_before_caret() {
    assert_eq!(backspace_range(Some(caret_at(3))), Some(2..3));
}

#[test]
fn backspace_at_document_start_is_noop() {
    assert_eq!(backspace_range(Some(caret_at(0))), None);
}

#[test]
fn backspace_deletes_a_whole_selection() {
    let sel = UTF16Selection { range: 1..4, reversed: false };
    assert_eq!(backspace_range(Some(sel)), Some(1..4));
}

#[test]
fn backspace_without_a_handler_selection_is_noop() {
    assert_eq!(backspace_range(None), None);
}

/// A text field: a buffer with a selection. The input is ASCII, so UTF-16 offsets equal
/// byte offsets.
struct TestField {
    text: String,
    selection: Range<usize>,
}

impl TestField {
    fn selected_text_range(&self) -> Option<UTF16Selection> {
        Some(UTF16Selection { range: self.selection.clone(), reversed: false })
    }

    fn replace_text_in_range(&mut self, edit: Edit) {
        let range = match edit.range {
            Some(range) => range,
            None => self.selection.clone(),
        };
        self.text.replace_range(range.clone(), edit.text);
        let caret = range.start + edit.text.len();
        self.selection = caret..caret;
    }
}

fn insert(state: &mut TextInputState<TestField>, text: &str) {
    if let Some((mut handler, edit)) = state.insert(text) {
        handler.replace_text_in_range(edit);
        state.give_back(handler);
    }
}

fn backspace(state: &mut TextInputState<TestField>) {
    if let Some(mut handler) = state.check_out() {
        if let Some(edit) = delete_backward(handler.selected_text_range()) {
            handler.replace_text_in_range(edit);
        }
        state.give_back(handler);
    }
}

#[test]
fn keystrokes_reach_the_installed_input_handler() {
    let field = TestField { text: String::new(), selection: 0..0 };

    let mut state = TextInputState::new();
    assert!(!state.wants_keyboard(), "no field focused yet");

    state.set_handler(field);
    assert!(state.wants_keyboard(), "focus requests the keyboard");

    let caret = Bounds {
        origin: Point { x: s(10.0), y: s(20.0) },
        size: Size { width: s(2.0), height: s(16.0) },
    };
    state.set_caret(caret);
    assert_eq!(state.caret(), caret, "caret rect round-trips");

    // Type "hi!", then backspace the "!".
    insert(&mut state, "hi");
    insert(&mut state, "!");
    backspace(&mut state);

    let typed = state.handler.as_ref().map(|field| field.text.clone());
    assert_eq!(
        typed,
        Some(String::from("hi")),
        "insert + delete flowed to the input handler"
    );

    // Blur: the handler is returned and the keyboard is no longer wanted.
    let returned = state.take_handler();
    assert!(returned.is_some(), "blur hands the handler back");
    assert!(!state.wants_keyboard(), "blur drops the keyboard request");
}

#[test]
fn keystrokes_without_a_field_are_dropped() {
    let mut state: TextInputState<TestField> = TextInputState::new();
    assert!(state.insert("x").is_none());
    assert!(state.check_out().is_none());
    assert!(state.take_handler().is_none());
    assert_eq!(state.caret().origin, Point { x: s(0.0), y: s(0.0) });
}

#[test]
fn backspace_deletes_a_selection_first() {
    let mut state = TextInputState::new();
    state.set_handler(TestField { text: String::from("abcdef"), selection: 1..4 });
    backspace(&mut state);
    assert_eq!(state.handler.as_ref().unwrap().text, "aef");
    backspace(&mut state);
    assert_eq!(state.handler.as_ref().unwrap().text, "ef");
    backspace(&mut state);
    assert_eq!(state.handler.as_ref().unwrap().text, "ef");
}

#[test]
fn steady_focus_keeps_the_keyboard() {
    let mut state = TextInputState::new();
    state.set_handler(7u32);
    for _ in 0..3 {
        let handler = state.take_handler().unwrap();
        state.set_handler(handler);
        assert!(state.wants_keyboard());
    }
    assert_eq!(state.take_handler(), Some(7));
}

#[test]
fn handler_installed_during_an_edit_wins() {
    let mut state = TextInputState::new();
    state.set_handler(1u32);
    let lent = state.check_out().unwrap();
    assert!(state.wants_keyboard());
    state.set_handler(2u32);
    state.give_back(lent);
    assert_eq!(state.take_handler(), Some(2));
}

#[test]
fn handler_comes_back_after_an_edit() {
    let mut state = TextInputState::new();
    state.set_handler(1u32);
    let (lent, edit) = state.insert("ab").unwrap();
    assert_eq!((edit.range, edit.text), (None, "ab"));
    assert_eq!(state.handler, None);
    state.give_back(lent);
    assert_eq!(state.handler, Some(1));
}

#[test]
fn backspace_edit_replaces_with_nothing() {
    let edit = delete_backward(Some(caret_at(3))).unwrap();
    assert_eq!((edit.range, edit.text), (Some(2..3), ""));
    assert!(delete_backward(Some(caret_at(0))).is_none());
    assert!(delete_backward(None).is_none());
}

#[test]
fn reversed_range_counts_as_a_caret() {
    let sel = UTF16Selection { range: Range { start: 4, end: 1 }, reversed: true };
    assert_eq!(backspace_range(Some(sel)), Some(3..4));
}

#[test]
fn backspace_takes_back_a_keystroke() {
    for caret in 0..4usize {
        let mut state = TextInputState::new();
        state.set_handler(TestField { text: String::from("abc"), selection: caret..caret });
        insert(&mut state, "x");
        backspace(&mut state);
        let field = state.take_handler().unwrap();
        assert_eq!((field.text.as_str(), field.selection), ("abc", caret..caret));
    }
}
