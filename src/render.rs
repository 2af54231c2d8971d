//! The arithmetic that a drawing layer needs: where an atom lands on a
//! pixel buffer, and a colour as one integer.

use vstd::prelude::*;
use crate::geometry::MAX_EXTENT;

verus! {

/// Largest pixel buffer extent on either axis.
pub const MAX_PIXELS: usize = 65536;

/// The pixel that the coordinate `v` of an axis of `size` units lands on,
/// on an axis of `extent` pixels.
pub fn to_pixel(v: i64, size: i64, extent: usize) -> (r: usize)
    requires
        0 <= v < size <= MAX_EXTENT,
        extent <= MAX_PIXELS,
    ensures
        r == (v as int) * (extent as int) / (size as int),
        extent > 0 ==> r < extent,
{
    assert(0 <= (v as int) * (extent as int) <= 0x1000_0000 * 0x1_0000) by (nonlinear_arith)
        requires 0 <= v <= 0x1000_0000, 0 <= extent <= 0x1_0000;
    assert(extent > 0 ==> (v as int) * (extent as int) / (size as int) < extent) by (nonlinear_arith)
        requires 0 <= v < size, 0 <= extent;
    ((v * extent as i64) / size) as usize
}

/// A colour of red, green and blue bytes as one `0xRRGGBB` integer.
pub fn color_code(red: u8, green: u8, blue: u8) -> (r: usize)
    ensures
        r == red * 65536 + green * 256 + blue,
{
    red as usize * 65536 + green as usize * 256 + blue as usize
}

} // verus!
