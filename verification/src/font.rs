//! The bitmap font the framebuffer console draws with: Noto Sans Mono,
//! regular weight, 16 pixels high, as the `noto_sans_mono_bitmap` crate
//! ships it.
use noto_sans_mono_bitmap::{get_raster, get_raster_width, FontWeight, RasterHeight};
use vstd::prelude::*;

verus! {

/// Height in pixels of every glyph of the font.
pub const FONT_HEIGHT: usize = 16;

/// Width in pixels of every glyph of the font.
pub const FONT_WIDTH: usize = 7;

/// The glyph of `c`, as `get_raster(c, FontWeight::Regular,
/// RasterHeight::Size16)` returns it: the pixel intensities (0 background
/// to 255 foreground) row by row, or `None` when the font lacks the
/// character.
pub uninterp spec fn font_glyph(c: char) -> Option<Seq<Seq<u8>>>;

/// Calls `noto_sans_mono_bitmap::get_raster` for `c` in the regular weight
/// at raster height 16 and copies the raster out row by row.  Claimed: the
/// result is `font_glyph(c)`; a glyph has 16 rows of 7 pixels (the crate
/// documents the raster as `height` times `width` bytes; its source sets
/// the height of `Size16` to 16 and the regular 16-pixel width to 7).
#[verifier::external_body]
pub(crate) fn glyph(c: char) -> (r: Option<Vec<Vec<u8>>>)
    ensures
        r.deep_view() == font_glyph(c),
        r matches Some(g) ==> g@.len() == FONT_HEIGHT && forall|i: int|
            0 <= i < FONT_HEIGHT ==> (#[trigger] g@[i])@.len() == FONT_WIDTH,
{
    get_raster(c, FontWeight::Regular, RasterHeight::Size16).map(
        |raster| raster.raster().iter().map(|row| row.to_vec()).collect(),
    )
}

/// Calls `noto_sans_mono_bitmap::get_raster_width` for the regular weight
/// at raster height 16.  Claimed: 7, the width the crate's source sets.
#[verifier::external_body]
pub(crate) fn raster_width() -> (r: usize)
    ensures
        r == FONT_WIDTH,
{
    get_raster_width(FontWeight::Regular, RasterHeight::Size16)
}

/// Calls `RasterHeight::val` on `RasterHeight::Size16`.  Claimed: 16, the
/// value the crate's source gives that variant.
#[verifier::external_body]
pub(crate) fn raster_height() -> (r: usize)
    ensures
        r == FONT_HEIGHT,
{
    RasterHeight::Size16.val()
}

} // verus!
