//! What a key press means to the overlay.

use crate::state::AppEvent;
use crate::text::{to_uppercase, upper_first};
use vstd::prelude::*;

verus! {

/// The keys the overlay tells apart.
#[derive(Clone, Copy, Debug, PartialEq, Eq)]
pub enum KeyInput {
    Esc,
    Backspace,
    Tab,
    BackTab,
    Enter,
    Char(char),
    /// Any other key.
    Other,
}

/// What a key press does: close the overlay, feed an event to the selection, or nothing.
#[derive(Clone, Copy, Debug, PartialEq, Eq)]
pub enum KeyOutcome {
    Quit,
    Event(AppEvent),
    Ignore,
}

/// The character a typed character stands for with Shift held: the first character of its
/// uppercase form.
pub open spec fn shifted_char(c: char) -> char {
    upper_first(c)
}

/// What a press of `key` does, with Shift or Control held or not: Esc and Control-C close the
/// overlay; Backspace, Tab (forwards or backwards) and Enter are events; a character is typed,
/// in uppercase when Shift is held; other keys do nothing.
pub open spec fn key_meaning(key: KeyInput, shift: bool, control: bool) -> KeyOutcome {
    match key {
        KeyInput::Esc => KeyOutcome::Quit,
        KeyInput::Char(c) => if c == 'c' && control {
            KeyOutcome::Quit
        } else if shift {
            KeyOutcome::Event(AppEvent::Char(shifted_char(c)))
        } else {
            KeyOutcome::Event(AppEvent::Char(c))
        },
        KeyInput::Backspace => KeyOutcome::Event(AppEvent::Backspace),
        KeyInput::Tab | KeyInput::BackTab => KeyOutcome::Event(AppEvent::Tab),
        KeyInput::Enter => KeyOutcome::Event(AppEvent::Enter),
        KeyInput::Other => KeyOutcome::Ignore,
    }
}

/// What a press of `key` does.
pub fn key_outcome(key: KeyInput, shift: bool, control: bool) -> (res: KeyOutcome)
    ensures
        res == key_meaning(key, shift, control),
{
    match key {
        KeyInput::Esc => KeyOutcome::Quit,
        KeyInput::Char(c) => {
            if c == 'c' && control {
                KeyOutcome::Quit
            } else if shift {
                let upper = to_uppercase(c);
                let first = if upper.len() > 0 {
                    upper[0]
                } else {
                    c
                };
                KeyOutcome::Event(AppEvent::Char(first))
            } else {
                KeyOutcome::Event(AppEvent::Char(c))
            }
        },
        KeyInput::Backspace => KeyOutcome::Event(AppEvent::Backspace),
        KeyInput::Tab | KeyInput::BackTab => KeyOutcome::Event(AppEvent::Tab),
        KeyInput::Enter => KeyOutcome::Event(AppEvent::Enter),
        KeyInput::Other => KeyOutcome::Ignore,
    }
}

/// What each key does, whatever modifiers are held: Esc and Control-C close the overlay; Tab
/// and Shift-Tab, Enter and Backspace are those events whatever modifiers are held; a
/// character without Control is typed as itself, or, with Shift, as the first character of
/// its uppercase form; other keys do nothing.
pub proof fn lemma_keys_mean(shift: bool, control: bool, c: char)
    ensures
        key_meaning(KeyInput::Esc, shift, control) == KeyOutcome::Quit,
        key_meaning(KeyInput::Char('c'), shift, true) == KeyOutcome::Quit,
        key_meaning(KeyInput::Tab, shift, control) == KeyOutcome::Event(AppEvent::Tab),
        key_meaning(KeyInput::BackTab, shift, control) == KeyOutcome::Event(AppEvent::Tab),
        key_meaning(KeyInput::Enter, shift, control) == KeyOutcome::Event(AppEvent::Enter),
        key_meaning(KeyInput::Backspace, shift, control) == KeyOutcome::Event(AppEvent::Backspace),
        key_meaning(KeyInput::Other, shift, control) == KeyOutcome::Ignore,
        !(c == 'c' && control) && !shift ==> key_meaning(KeyInput::Char(c), shift, control)
            == KeyOutcome::Event(AppEvent::Char(c)),
        !(c == 'c' && control) && shift && 'a' <= c && c <= 'z' ==> key_meaning(
            KeyInput::Char(c),
            shift,
            control,
        ) == KeyOutcome::Event(AppEvent::Char(((c as u32) - 32) as char)),
        !(c == 'c' && control) && shift && (c as u32) < 128 && !('a' <= c && c <= 'z')
            ==> key_meaning(KeyInput::Char(c), shift, control) == KeyOutcome::Event(
            AppEvent::Char(c),
        ),
{
}

} // verus!
