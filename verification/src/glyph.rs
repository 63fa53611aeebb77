use vstd::prelude::*;
use ab_glyph::Font;

verus! {

/// Largest cell edge the compositor accepts; keeps the glyph layout's pixel
/// width inside `u32` for every font (see `draw_text_cell`).
pub const MAX_CELL_DIM: usize = 0x10001;

/// Returned when the supplied font bytes do not parse as a usable font.
#[derive(Clone, Copy, Debug, PartialEq, Eq, Structural)]
pub struct FontError;

/// Whether `ab_glyph` accepts these bytes as a font whose resolved ascender
/// exceeds its descender. Both are determined by the bytes alone; the glyph
/// layout divides by their difference, so a face without that margin cannot
/// be drawn with.
pub uninterp spec fn font_ok(font: Seq<u8>) -> bool;

/// The bytes a `w` by `h` cell holds after the single character `text` is
/// drawn over its prior bytes `base` (row-major, three per pixel) at the
/// cell's origin, in color `(fr, fg, fb)`, at a pixel scale of `(sw, sh)`,
/// with the given font. The rendering is a pure function of these arguments.
pub uninterp spec fn drawn_cell(
    text: Seq<char>,
    w: int,
    h: int,
    base: Seq<u8>,
    sw: int,
    sh: int,
    fr: u8,
    fg: u8,
    fb: u8,
    font: Seq<u8>,
) -> Seq<u8>;

/// Relies on `ab_glyph::FontRef::try_from_slice`, whose success depends on
/// the font bytes alone, and on `imageproc::drawing::draw_text_mut`, which
/// blends the glyph color into the canvas pixel by pixel, clips to the canvas
/// bounds, and depends only on the canvas, color, position, scale, font and
/// text. Fonts whose resolved ascender does not exceed their descender are
/// refused here: the layout divides the scale by that difference and asserts
/// a non-negative text width, which holds for a single character exactly when
/// the difference is positive (its advance widths are unsigned). The layout
/// also computes its pixel width as `1 + width as u32`: with one glyph, the
/// scale at most `2^16`, a `u16` advance, and that metric difference at least
/// one font unit, the width stays under `2^32 - 1`, so neither the cast nor
/// the increment can overflow — hence the bound on `sw` and `sh` below.
/// `image::RgbImage::{from_raw, into_raw}` carry the cell's bytes through
/// unchanged, in the same row-major layout; `from_raw` returns `Some` because
/// the buffer's length is exactly `3 * w * h`.
#[verifier::external_body]
pub(crate) fn draw_text_cell(
    text: &str,
    w: usize,
    h: usize,
    base: Vec<u8>,
    sw: usize,
    sh: usize,
    fr: u8,
    fg: u8,
    fb: u8,
    font: &[u8],
) -> (res: Result<Vec<u8>, FontError>)
    requires
        text@.len() == 1,
        1 <= w <= crate::grid::MAX_DIM,
        1 <= h <= crate::grid::MAX_DIM,
        sw < MAX_CELL_DIM,
        sh < MAX_CELL_DIM,
        base@.len() == 3 * (w * h),
    ensures
        res matches Ok(cell) ==> {
            &&& font_ok(font@)
            &&& cell@ == drawn_cell(
                text@,
                w as int,
                h as int,
                base@,
                sw as int,
                sh as int,
                fr,
                fg,
                fb,
                font@,
            )
            &&& cell@.len() == base@.len()
        },
        res matches Err(_) ==> !font_ok(font@),
{
    let f = match ab_glyph::FontRef::try_from_slice(font) {
        Ok(f) => f,
        Err(_) => {
            return Err(FontError);
        },
    };
    if !(f.ascent_unscaled() > f.descent_unscaled()) {
        return Err(FontError);
    }
    let mut img = image::RgbImage::from_raw(w as u32, h as u32, base).unwrap();
    let scale = ab_glyph::PxScale { x: (sw as u32) as _, y: (sh as u32) as _ };
    imageproc::drawing::draw_text_mut(&mut img, image::Rgb([fr, fg, fb]), 0, 0, scale, &f, text);
    Ok(img.into_raw())
}

/// Relies on `char::to_string` (std): the `Display` of a `char` is that one
/// character, so the result is the one-character string.
#[verifier::external_body]
pub(crate) fn char_to_string(c: char) -> (s: String)
    ensures
        s@ == seq![c],
{
    c.to_string()
}

} // verus!
