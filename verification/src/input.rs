//! Keys the editor reacts to, and cursor movement.
use vstd::prelude::*;

verus! {

/// A key press, as the terminal reports it.
#[derive(Copy, Clone, Debug, PartialEq, Eq, Structural)]
pub enum Key {
    Left,
    Right,
    Up,
    Down,
    Backspace,
    /// A printable character, tab or enter (`'\n'`).
    Char(char),
    /// A character typed with Ctrl held.
    Ctrl(char),
    /// Any other key or event.
    Other,
}

/// The cursor position after an arrow key, before it is kept inside its area.
pub open spec fn step_cursor(x: int, y: int, key: Key) -> (int, int) {
    match key {
        Key::Left => (x - 1, y),
        Key::Right => (x + 1, y),
        Key::Up => (x, y - 1),
        Key::Down => (x, y + 1),
        _ => (x, y),
    }
}

/// `v` raised to at least 1, then lowered to at most `hi`.
pub open spec fn clamp(v: int, hi: int) -> int {
    let a = if v < 1 { 1 } else { v };
    if a > hi { hi } else { a }
}

/// An arrow key can move the cursor from here without leaving the `u16` range.
pub open spec fn can_step(x: u16, y: u16, key: Key) -> bool {
    &&& key == Key::Left ==> x >= 1
    &&& key == Key::Right ==> x < u16::MAX
    &&& key == Key::Up ==> y >= 1
    &&& key == Key::Down ==> y < u16::MAX
}

/// Tests whether an arrow key can move the cursor from here within the `u16` range.
pub fn can_step_exec(x: u16, y: u16, key: Key) -> (res: bool)
    ensures
        res == can_step(x, y, key),
{
    match key {
        Key::Left => x >= 1,
        Key::Right => x < u16::MAX,
        Key::Up => y >= 1,
        Key::Down => y < u16::MAX,
        _ => true,
    }
}

/// `clamp` on machine integers: `v` raised to at least 1, then lowered to at most `hi`.
pub fn clamp_exec(v: u16, hi: u16) -> (res: u16)
    ensures
        res as int == clamp(v as int, hi as int),
{
    let a = if v < 1 { 1 } else { v };
    if a > hi { hi } else { a }
}

/// Moves the cursor by an arrow key; other keys leave it.
pub fn step_cursor_exec(x: u16, y: u16, key: Key) -> (res: (u16, u16))
    requires
        can_step(x, y, key),
    ensures
        (res.0 as int, res.1 as int) == step_cursor(x as int, y as int, key),
{
    match key {
        Key::Left => (x - 1, y),
        Key::Right => (x + 1, y),
        Key::Up => (x, y - 1),
        Key::Down => (x, y + 1),
        _ => (x, y),
    }
}

} // verus!
