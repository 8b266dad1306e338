//! The font families shipped with the program: pre-baked atlas bytes for
//! each style cut a family has.

use vstd::prelude::*;

verus! {

/// One packed family: its name, the upright atlas and the optional bold and
/// italic cuts (absent ones fall back to the upright glyphs).
pub struct PackedFamily {
    pub name: &'static str,
    pub regular: &'static [u8],
    pub bold: Option<&'static [u8]>,
    pub italic: Option<&'static [u8]>,
}

} // verus!
