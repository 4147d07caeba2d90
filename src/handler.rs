use vstd::prelude::*;

use crate::atext::{replaced, unstyled, AText, StyledChar};
use crate::buffer::{clamp, line_end_after, line_start_before};
use crate::document::Document;

verus! {

/// A key of the keyboard, as far as line editing cares.
#[derive(Debug, Clone, Copy, PartialEq, Eq, Structural)]
pub enum KeyCode {
    Char(char),
    Backspace,
    Left,
    Right,
    Enter,
    Other,
}

/// An input event: a key press, with whether Control was held, pasted text,
/// or anything else.
pub enum InputEvent {
    Key { code: KeyCode, control: bool },
    Paste(String),
    Other,
}

/// Edits one line of text: keys insert and delete characters and move the
/// cursor, Enter finishes the line and Control-C gives up.
pub struct SimpleLineHandler;

/// How line editing ended.
#[derive(Debug, Clone, Copy, PartialEq, Eq, Structural)]
pub enum SimpleLineHandlerResult {
    LineDone,
    Abort,
}

/// The event needs no room beyond the cursor but what it inserts.
pub open spec fn fits_at_cursor(ev: &InputEvent, cursor: int) -> bool {
    match ev {
        InputEvent::Paste(t) => cursor + t@.len() <= usize::MAX,
        _ => cursor < usize::MAX,
    }
}

impl SimpleLineHandler {
    /// Applies `ev` to the view and its document, and says whether editing
    /// has ended.
    pub fn handle(&mut self, ev: &InputEvent, view: &mut crate::buffer::View, doc: &mut Document) -> (r: Option<
        SimpleLineHandlerResult,
    >)
        requires
            old(doc).wf(),
            fits_at_cursor(ev, old(view).cursor.0 as int),
        ensures
            final(doc).wf(),
            final(view).same_but_cursor(old(view)),
            ({
                let c = old(view).cursor.0 as int;
                let len = old(doc)@.len() as int;
                let unchanged = final(doc)@ == old(doc)@ && final(view).cursor == old(view).cursor;
                match *ev {
                    InputEvent::Key { code: KeyCode::Char('c'), control: true } => r == Some(
                        SimpleLineHandlerResult::Abort,
                    ) && unchanged,
                    InputEvent::Key { code: KeyCode::Char('a'), control: true } => r is None
                        && final(doc)@ == old(doc)@ && final(view).cursor.0 == line_start_before(
                        old(doc).chars(),
                        clamp(c, 0, len),
                    ),
                    InputEvent::Key { code: KeyCode::Char('e'), control: true } => r is None
                        && final(doc)@ == old(doc)@ && final(view).cursor.0 == line_end_after(
                        old(doc).chars(),
                        clamp(c, 0, len),
                    ),
                    InputEvent::Key { code: KeyCode::Char(ch), control: _ } => r is None
                        && final(doc)@ == replaced(old(doc)@, c, c, unstyled(seq![ch]))
                        && final(view).cursor.0 == c + 1,
                    InputEvent::Key { code: KeyCode::Backspace, control: _ } => r is None && (c
                        == 0 ==> unchanged) && (c > 0 ==> final(doc)@ == replaced(
                        old(doc)@,
                        c - 1,
                        c,
                        Seq::<StyledChar>::empty(),
                    ) && final(view).cursor.0 == c - 1),
                    InputEvent::Key { code: KeyCode::Left, control: _ } => r is None && final(doc)@
                        == old(doc)@ && final(view).cursor.0 == clamp(c - 1, 0, len),
                    InputEvent::Key { code: KeyCode::Right, control: _ } => r is None && final(doc)@
                        == old(doc)@ && final(view).cursor.0 == clamp(c + 1, 0, len),
                    InputEvent::Key { code: KeyCode::Enter, control: _ } => r == Some(
                        SimpleLineHandlerResult::LineDone,
                    ) && unchanged,
                    InputEvent::Paste(t) => r is None && final(doc)@ == replaced(
                        old(doc)@,
                        c,
                        c,
                        unstyled(t@),
                    ) && final(view).cursor.0 == c + t@.len(),
                    _ => r is None && unchanged,
                }
            }),
    {
        match ev {
            InputEvent::Key { code, control } => {
                let code = *code;
                let control = *control;
                match code {
                    KeyCode::Char(ch) => {
                        if control && ch == 'c' {
                            return Some(SimpleLineHandlerResult::Abort);
                        } else if control && ch == 'a' {
                            view.move_cursor_to_line_start(doc);
                        } else if control && ch == 'e' {
                            view.move_cursor_to_line_end(doc);
                        } else {
                            view.insert_char_at_cursor(ch, doc);
                        }
                    },
                    KeyCode::Backspace => view.delete_char_before_cursor(doc),
                    KeyCode::Left => view.move_cursor_by(-1, doc),
                    KeyCode::Right => view.move_cursor_by(1, doc),
                    KeyCode::Enter => {
                        return Some(SimpleLineHandlerResult::LineDone);
                    },
                    KeyCode::Other => {},
                }
            },
            InputEvent::Paste(text) => {
                let t = AText::plain(text.as_str());
                view.insert_text_at_cursor(t, doc);
            },
            InputEvent::Other => {},
        }
        None
    }
}

} // verus!
