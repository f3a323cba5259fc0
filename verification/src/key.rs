//! Key presses.

use vstd::prelude::*;

verus! {

/// The keys that the editor and the colour picker know.
#[derive(Clone, Copy, Debug, PartialEq, Eq, Structural)]
pub enum KeyCode {
    /// Enter.
    Enter,
    /// Escape.
    Esc,
    /// Backspace.
    Backspace,
    /// Arrow up.
    Up,
    /// Arrow down.
    Down,
    /// Arrow left.
    Left,
    /// Arrow right.
    Right,
    /// Page up.
    PageUp,
    /// Page down.
    PageDown,
    /// Home.
    Home,
    /// End.
    End,
    /// A key that types a character.
    Char(char),
    /// Any other key.
    Other,
}

/// A key press.
#[derive(Clone, Copy, Debug, PartialEq, Eq, Structural)]
pub struct KeyEvent {
    /// The key.
    pub code: KeyCode,
    /// Whether the control key was held.
    pub control: bool,
}

impl KeyEvent {
    /// A press of `code`, with or without the control key.
    pub fn new(code: KeyCode, control: bool) -> (r: Self)
        ensures
            r == (KeyEvent { code, control }),
    {
        KeyEvent { code, control }
    }
}

} // verus!
