//! Colours of labels drawn over orbit colours.

use vstd::prelude::*;

verus! {

/// Whether the relative luminance `(0.299 r + 0.587 g + 0.114 b) / 255` of a
/// colour, computed in double precision, is above one half, so that black
/// text reads best on it. The exact value is above one half, except that
/// among the colours whose exact value is one half, double precision rounds
/// (218, 58, 248) alone to just above it.
pub open spec fn is_light(r: u8, g: u8, b: u8) -> bool {
    299 * (r as int) + 587 * (g as int) + 114 * (b as int) > 127500 || (r == 218 && g == 58 && b
        == 248)
}

/// Black (`#000000`) on light colours, white (`#ffffff`) on dark ones.
pub fn get_contrast_color(r: u8, g: u8, b: u8) -> (s: String)
    ensures
        s@ == if is_light(r, g, b) {
            "#000000"@
        } else {
            "#ffffff"@
        },
{
    // Relative luminance scaled by 255 000; the one tie that double
    // precision puts above one half is taken as light.
    let luminance: u32 = 299 * (r as u32) + 587 * (g as u32) + 114 * (b as u32);
    if luminance > 127500 || (r == 218 && g == 58 && b == 248) {
        String::from_str("#000000")
    } else {
        String::from_str("#ffffff")
    }
}

} // verus!
