//! What the terminal's answers mean.

use vstd::prelude::*;

use crate::text::{chars_of, same, trim, trimmed};

verus! {

/// The keys that the reader knows.
#[derive(Clone, Copy, Debug, PartialEq, Eq, Structural)]
pub enum Key {
    Char(char),
    Enter,
    Esc,
    Backspace,
    Up,
    Down,
    Left,
    Right,
    PageUp,
    PageDown,
    Home,
    End,
    /// Any other key.
    Other,
}

/// A key, and whether the control key was held with it.
#[derive(Clone, Copy, Debug, PartialEq, Eq, Structural)]
pub struct KeyPress {
    pub key: Key,
    pub control: bool,
}

impl KeyPress {
    /// Ctrl-C.
    pub open spec fn interrupts(self) -> bool {
        self.control && self.key == Key::Char('c')
    }

    /// Whether the key is Ctrl-C.
    pub fn is_interrupt(&self) -> (r: bool)
        ensures
            r == self.interrupts(),
    {
        self.control && self.key == Key::Char('c')
    }

    /// Whether a key press agrees to a yes/no question: y/Y agrees, anything
    /// else (Ctrl-C included) declines.
    pub fn agrees(&self) -> (r: bool)
        ensures
            r == (self.key == Key::Char('y') || self.key == Key::Char('Y')),
    {
        self.key == Key::Char('y') || self.key == Key::Char('Y')
    }
}

/// The terminal size as it was read, with a sane default when it cannot be.
pub fn screen_size(read: Option<(u16, u16)>) -> (r: (u16, u16))
    ensures
        r == match read {
            Some(size) => size,
            None => (80, 24),
        },
{
    match read {
        Some(size) => size,
        None => (80, 24),
    }
}

/// Whether a typed line agrees to a yes/no question: `y` or `Y`, with any
/// white space around it.
pub fn confirm_line(answer: &str) -> (r: bool)
    ensures
        r == (trim(answer@) == "y"@ || trim(answer@) == "Y"@),
{
    let given = trimmed(&chars_of(answer));
    same(&given, &chars_of("y")) || same(&given, &chars_of("Y"))
}

} // verus!
