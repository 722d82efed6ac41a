//! A coloured character cell.
use vstd::prelude::*;
use crate::rgb::RGB;

verus! {

/// One character of the picture with its foreground and background colour.
#[derive(Copy, Clone, Debug)]
pub struct FmtChar {
    pub ch: char,
    pub fg: RGB,
    pub bg: RGB,
}

} // verus!
