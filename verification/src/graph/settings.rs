//! Geometry of the settings button and dialog, and the font picker's roster.

use crate::fonts::PackedFamily;
use crate::strings::{sb, to_string, utf8};
use vstd::prelude::*;
use vstd::slice::slice_to_vec;

verus! {

/// Settings button size and top edge (screen space, top-right corner).
pub const SETTINGS_BUTTON_W: i32 = 96;
pub const SETTINGS_BUTTON_H: i32 = 32;
pub const SETTINGS_BUTTON_Y: i32 = 10;

/// Settings dialog geometry before text zoom, and rows shown at once.
pub const SETTINGS_PANEL_W: i32 = 440;
pub const SETTINGS_PANEL_H: i32 = 500;
pub const SETTINGS_TITLE_H: i32 = 40;
pub const SETTINGS_ROW_H: i32 = 26;
pub const SETTINGS_VISIBLE_ROWS: usize = 16;

/// Left edge of the settings button: `scaled_button_w` (the zoomed button
/// width) plus a 10 px margin in from the right edge of a `screen_w` window.
pub fn settings_button_x(screen_w: i32, scaled_button_w: i32) -> (r: i32)
    requires
        i32::MIN <= screen_w - scaled_button_w - 10 <= i32::MAX,
    ensures
        r == screen_w - scaled_button_w - 10,
{
    let x: i64 = screen_w as i64 - scaled_button_w as i64 - 10;
    x as i32
}

/// Left edge of a `panel_w` wide dialog centred in a `screen_w` window
/// (integer halving, rounding toward zero).
pub fn panel_x(screen_w: i32, panel_w: i32) -> (r: i32)
    requires
        i32::MIN <= screen_w - panel_w <= i32::MAX,
    ensures
        ({
            let d = screen_w - panel_w;
            r == (if d >= 0 {
                d / 2
            } else {
                -((-d) / 2)
            })
        }),
{
    let d = screen_w - panel_w;
    if d >= 0 {
        d / 2
    } else {
        let half = (-(d as i64)) / 2;
        -(half as i32)
    }
}

/// Top edge of the settings dialog.
pub fn panel_y() -> (r: i32)
    ensures
        r == 70,
{
    70
}

/// One selectable style cut: its serialized atlas bytes.
#[derive(Clone)]
pub struct FontStyleSource {
    pub data: Option<Vec<u8>>,
}

/// One entry of the font list: a family and the style cuts it ships.
#[derive(Clone)]
pub struct FontFamily {
    pub name: String,
    pub data: Option<Vec<u8>>,
    pub bold: Option<FontStyleSource>,
    pub italic: Option<FontStyleSource>,
}

/// The font picker: the families listed, the row pointed at, and the family
/// whose loading is requested from the drawing side.
pub struct FontPicker {
    pub fonts: Vec<FontFamily>,
    pub selected: Option<usize>,
    pub request_load: Option<usize>,
}

impl FontPicker {
    /// A picker with no families listed yet.
    pub fn new() -> (r: FontPicker)
        ensures
            r.fonts@.len() == 0,
            r.selected is None,
            r.request_load is None,
    {
        FontPicker { fonts: Vec::new(), selected: None, request_load: None }
    }
}

/// A style cut holds exactly the atlas bytes `bytes`.
pub open spec fn cut_holds(cut: Option<FontStyleSource>, bytes: Option<&'static [u8]>) -> bool {
    match (cut, bytes) {
        (Some(c), Some(b)) => c.data matches Some(d) && d@ == b@,
        (None, None) => true,
        _ => false,
    }
}

/// A listed family carries the packed family's name and cuts.
pub open spec fn family_of(f: FontFamily, p: PackedFamily) -> bool {
    &&& utf8(f.name@) == sb(p.name)
    &&& f.data matches Some(d) && d@ == p.regular@
    &&& cut_holds(f.bold, p.bold)
    &&& cut_holds(f.italic, p.italic)
}

fn cut_from(bytes: Option<&'static [u8]>) -> (r: Option<FontStyleSource>)
    ensures
        cut_holds(r, bytes),
{
    match bytes {
        Some(b) => Some(FontStyleSource { data: Some(slice_to_vec(b)) }),
        None => None,
    }
}

/// Lists the packed families in order (row 0 is the default font) and points
/// the picker at row 0. Every family carries its pre-baked atlas bytes, so
/// the list is the same on every machine.
pub fn build_font_list(picker: &mut FontPicker, packed: &[PackedFamily])
    ensures
        final(picker).fonts@.len() == packed@.len(),
        forall|i: int|
            0 <= i < packed@.len() ==> family_of(#[trigger] final(picker).fonts@[i], packed@[i]),
        final(picker).selected == Some(0usize),
        final(picker).request_load == old(picker).request_load,
{
    let mut families: Vec<FontFamily> = Vec::new();
    let mut k: usize = 0;
    while k < packed.len()
        invariant
            k <= packed@.len(),
            families@.len() == k,
            forall|i: int| 0 <= i < k ==> family_of(#[trigger] families@[i], packed@[i]),
        decreases packed@.len() - k,
    {
        let p = &packed[k];
        let f = FontFamily {
            name: to_string(p.name),
            data: Some(slice_to_vec(p.regular)),
            bold: cut_from(p.bold),
            italic: cut_from(p.italic),
        };
        families.push(f);
        k = k + 1;
    }
    picker.fonts = families;
    picker.selected = Some(0);
}

} // verus!
