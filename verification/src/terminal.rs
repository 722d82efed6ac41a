//! The ANSI control sequences that termion writes, as the library uses them.
use vstd::prelude::*;
use crate::text::decimal;

verus! {

/// A control sequence: ESC, `[`, then `body`.
pub open spec fn csi(body: Seq<char>) -> Seq<char> {
    seq!['\u{1b}', '['] + body
}

/// `;r;g;b` of a true colour, each component in decimal.
pub open spec fn rgb_params(r: u8, g: u8, b: u8) -> Seq<char> {
    seq![';'] + decimal(r as nat) + seq![';'] + decimal(g as nat) + seq![';'] + decimal(b as nat)
}

/// The sequence that sets the foreground to a true colour.
pub open spec fn fg_rgb_seq(r: u8, g: u8, b: u8) -> Seq<char> {
    csi(seq!['3', '8', ';', '2'] + rgb_params(r, g, b) + seq!['m'])
}

/// The sequence that sets the background to a true colour.
pub open spec fn bg_rgb_seq(r: u8, g: u8, b: u8) -> Seq<char> {
    csi(seq!['4', '8', ';', '2'] + rgb_params(r, g, b) + seq!['m'])
}

/// The sequence that resets the foreground colour.
pub open spec fn fg_reset_seq() -> Seq<char> {
    csi(seq!['3', '9', 'm'])
}

/// The sequence that resets the background colour.
pub open spec fn bg_reset_seq() -> Seq<char> {
    csi(seq!['4', '9', 'm'])
}

/// The sequence that moves the cursor to column `x`, row `y` (one-based).
pub open spec fn goto_seq(x: u16, y: u16) -> Seq<char> {
    csi(decimal(y as nat) + seq![';'] + decimal(x as nat) + seq!['H'])
}

/// The sequence that clears the screen.
pub open spec fn clear_all_seq() -> Seq<char> {
    csi(seq!['2', 'J'])
}

/// termion's `Display` of `color::Fg(color::Rgb(r, g, b))`: `Rgb::write_fg` writes
/// `Rgb::fg_string`, which is `ESC [ 38;2;` and the three components in decimal (numtoa,
/// base 10) separated by `;`, then `m`.
#[verifier::external_body]
pub(crate) fn fg_rgb_code(r: u8, g: u8, b: u8) -> (s: String)
    ensures
        s@ == fg_rgb_seq(r, g, b),
{
    termion::color::Fg(termion::color::Rgb(r, g, b)).to_string()
}

/// termion's `Display` of `color::Bg(color::Rgb(r, g, b))`: `Rgb::bg_string`, which is
/// `ESC [ 48;2;` and the three components in decimal separated by `;`, then `m`.
#[verifier::external_body]
pub(crate) fn bg_rgb_code(r: u8, g: u8, b: u8) -> (s: String)
    ensures
        s@ == bg_rgb_seq(r, g, b),
{
    termion::color::Bg(termion::color::Rgb(r, g, b)).to_string()
}

/// termion's `Display` of `color::Fg(color::Reset)`: the constant `RESET_FG`, `ESC [ 39m`.
#[verifier::external_body]
pub(crate) fn fg_reset_code() -> (s: String)
    ensures
        s@ == fg_reset_seq(),
{
    termion::color::Fg(termion::color::Reset).to_string()
}

/// termion's `Display` of `color::Bg(color::Reset)`: the constant `RESET_BG`, `ESC [ 49m`.
#[verifier::external_body]
pub(crate) fn bg_reset_code() -> (s: String)
    ensures
        s@ == bg_reset_seq(),
{
    termion::color::Bg(termion::color::Reset).to_string()
}

/// termion's `Display` of `cursor::Goto(x, y)`: `ESC [ y ; x H` with both in decimal. Its
/// `fmt` debug-asserts that the position is not `(0, 0)`, so that position is left out.
#[verifier::external_body]
pub(crate) fn goto_code(x: u16, y: u16) -> (s: String)
    requires
        x != 0 || y != 0,
    ensures
        s@ == goto_seq(x, y),
{
    termion::cursor::Goto(x, y).to_string()
}

/// termion's `Display` of `clear::All`: `ESC [ 2J`.
#[verifier::external_body]
pub(crate) fn clear_all_code() -> (s: String)
    ensures
        s@ == clear_all_seq(),
{
    termion::clear::All.to_string()
}

} // verus!
