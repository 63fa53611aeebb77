use vstd::prelude::*;
use vstd::arithmetic::div_mod::lemma_basic_div;
use vstd::arithmetic::mul::lemma_mul_inequality;
use crate::grid::PixelGrid;
use crate::glyph::{FontError, font_ok, drawn_cell, char_to_string, MAX_CELL_DIM};
use crate::utils::{
    rect_sum_all, char_index_spec, solid_seq, glyph_color, sub_image_mean, get_blocks_num,
    get_char, write_text, lemma_rect_seq_solid, lemma_blocks_fit, lemma_block_of_pixel,
    lemma_uniform_rect_sum_all, MAX_CHAR_SET_LEN,
};

verus! {

broadcast use crate::grid::lemma_wf_dims;

/// The block width in force: the given one, else the 12-pixel default.
pub open spec fn eff_bw(block_size: Option<[usize; 2]>) -> int {
    match block_size {
        Some(bs) => bs[0] as int,
        None => 12,
    }
}

/// The block height in force: the given one, else the 12-pixel default.
pub open spec fn eff_bh(block_size: Option<[usize; 2]>) -> int {
    match block_size {
        Some(bs) => bs[1] as int,
        None => 12,
    }
}

/// One channel of an RGB triple.
pub open spec fn chan_of(rgb: (u8, u8, u8), c: int) -> u8 {
    if c == 0 {
        rgb.0
    } else if c == 1 {
        rgb.1
    } else {
        rgb.2
    }
}

/// The background the monochrome pipeline fills with: black in dark mode,
/// white in light mode.
pub open spec fn mono_bg(dark_mode: bool) -> (u8, u8, u8) {
    if dark_mode {
        (0u8, 0u8, 0u8)
    } else {
        (255u8, 255u8, 255u8)
    }
}

/// Block `(i, j)` of `out` holds exactly the cell bytes `cell` (row-major,
/// three per pixel).
pub open spec fn block_holds(out: PixelGrid, bw: int, bh: int, i: int, j: int, cell: Seq<u8>) -> bool {
    forall|dx: int, dy: int, c: int| 0 <= dx < bw && 0 <= dy < bh && 0 <= c < 3
        ==> #[trigger] out.chan(i * bw + dx, j * bh + dy, c) == cell[3 * (dy * bw + dx) + c]
}

/// The finished bytes of block `(i, j)`'s cell in monochrome mode: the
/// character the set assigns to the block's mean luminance, drawn over the
/// mode's background in the mode's glyph color, at a scale one pixel short
/// of the block on each axis.
pub open spec fn mono_cell(
    img: PixelGrid,
    set: Seq<char>,
    bw: int,
    bh: int,
    dark_mode: bool,
    font: Seq<u8>,
    i: int,
    j: int,
) -> Seq<u8> {
    let sum = rect_sum_all(img, i * bw, j * bh, bw, bh);
    let idx = char_index_spec(set.len() as int, sum, 3 * (bw * bh));
    let bg = mono_bg(dark_mode);
    let fg = glyph_color(dark_mode, Option::None);
    drawn_cell(
        seq![set[idx]],
        bw,
        bh,
        solid_seq(bw, bh, bg.0, bg.1, bg.2),
        bw - 1,
        bh - 1,
        fg.0,
        fg.1,
        fg.2,
        font,
    )
}

/// On an image of one uniform color, every block of the monochrome rendering
/// is the same cell: the character the set assigns to the uniform mean,
/// drawn in the mode's glyph color over the mode's background.
pub proof fn lemma_uniform_mono_cell(
    img: PixelGrid,
    set: Seq<char>,
    bw: int,
    bh: int,
    dark_mode: bool,
    font: Seq<u8>,
    i: int,
    j: int,
    r: u8,
    g: u8,
    b: u8,
)
    requires
        1 <= bw,
        1 <= bh,
        forall|xx: int, yy: int|
            i * bw <= xx < i * bw + bw && j * bh <= yy < j * bh + bh ==> {
                &&& #[trigger] img.chan(xx, yy, 0) == r
                &&& img.chan(xx, yy, 1) == g
                &&& img.chan(xx, yy, 2) == b
            },
    ensures
        mono_cell(img, set, bw, bh, dark_mode, font, i, j) == drawn_cell(
            seq![set[char_index_spec(set.len() as int, (r + g + b) * (bw * bh), 3 * (bw * bh))]],
            bw,
            bh,
            solid_seq(bw, bh, mono_bg(dark_mode).0, mono_bg(dark_mode).1, mono_bg(dark_mode).2),
            bw - 1,
            bh - 1,
            glyph_color(dark_mode, Option::None).0,
            glyph_color(dark_mode, Option::None).1,
            glyph_color(dark_mode, Option::None).2,
            font,
        ),
{
    let x = i * bw;
    let y = j * bh;
    assert forall|xx: int, yy: int| x <= xx < x + bw && y <= yy < y + bh implies {
        &&& #[trigger] img.chan(xx, yy, 0) == r
        &&& img.chan(xx, yy, 1) == g
        &&& img.chan(xx, yy, 2) == b
    } by {
        assert(img.chan(xx, yy, 0) == r);
    }
    lemma_uniform_rect_sum_all(img, x, y, bw, bh, r, g, b);
}

/// What the monochrome pipeline promises of its output: every whole block of
/// the input is rendered as its cell, and every pixel outside the block grid
/// keeps the background fill.
pub open spec fn mono_output(
    img: PixelGrid,
    set: Seq<char>,
    bw: int,
    bh: int,
    dark_mode: bool,
    font: Seq<u8>,
    out: PixelGrid,
) -> bool {
    let cols = img.w() / bw;
    let rows = img.h() / bh;
    &&& out.wf()
    &&& out.w() == img.w()
    &&& out.h() == img.h()
    &&& forall|px: int, py: int, c: int|
        0 <= px < out.w() && 0 <= py < out.h() && 0 <= c < 3 ==> #[trigger] out.chan(px, py, c)
            == if px < cols * bw && py < rows * bh {
            mono_cell(img, set, bw, bh, dark_mode, font, px / bw, py / bh)[3 * ((py % bh) * bw + (px
                % bw)) + c]
        } else {
            chan_of(mono_bg(dark_mode), c)
        }
}

/// Render `img` as monochrome character art: walk the block grid, sample each
/// block's mean luminance, quantize it to a character of `char_set`, and draw
/// that character over the background; block-grid truncation leaves any right
/// or bottom border pixels holding the background. Fails exactly when the
/// font bytes are unusable and at least one block must be drawn.
#[verifier::rlimit(50)]
pub fn img_to_img(
    img: &PixelGrid,
    char_set: &str,
    block_size: Option<[usize; 2]>,
    dark_mode: bool,
    font: &[u8],
) -> (res: Result<PixelGrid, FontError>)
    requires
        img.wf(),
        1 <= char_set@.len() <= MAX_CHAR_SET_LEN,
        block_size matches Some(bs) ==> 1 <= bs[0] <= MAX_CELL_DIM && 1 <= bs[1]
            <= MAX_CELL_DIM,
    ensures
        res matches Ok(out) ==> mono_output(
            *img,
            char_set@,
            eff_bw(block_size),
            eff_bh(block_size),
            dark_mode,
            font@,
            out,
        ),
        res is Ok <==> (font_ok(font@) || img.w() / eff_bw(block_size) == 0 || img.h() / eff_bh(
            block_size,
        ) == 0),
{
    let (bw, bh): (usize, usize) = match block_size {
        Some(bsz) => (bsz[0], bsz[1]),
        None => (12, 12),
    };
    let blocks = get_blocks_num(img, [bw, bh]);
    let cols = blocks.0;
    let rows = blocks.1;
    let (bgr, bgg, bgb): (u8, u8, u8) = if dark_mode {
        (0, 0, 0)
    } else {
        (255, 255, 255)
    };
    let mut out = PixelGrid::new(img.width(), img.height(), bgr, bgg, bgb);
    if cols == 0 || rows == 0 {
        proof {
            assert(cols == 0 ==> cols * bw == 0) by (nonlinear_arith);
            assert(rows == 0 ==> rows * bh == 0) by (nonlinear_arith);
        }
        return Ok(out);
    }
    proof {
        if bw > img.w() {
            lemma_basic_div(img.w(), bw as int);
        }
        if bh > img.h() {
            lemma_basic_div(img.h(), bh as int);
        }
    }
    let mut i: u32 = 0;
    while i < cols
        invariant
            i <= cols,
            img.wf(),
            out.wf(),
            out.w() == img.w(),
            out.h() == img.h(),
            1 <= bw <= img.w(),
            1 <= bh <= img.h(),
            bw <= MAX_CELL_DIM,
            bh <= MAX_CELL_DIM,
            cols == img.w() / bw as int,
            rows == img.h() / bh as int,
            1 <= cols,
            1 <= rows,
            1 <= char_set@.len() <= MAX_CHAR_SET_LEN,
            bw as int == eff_bw(block_size),
            bh as int == eff_bh(block_size),
            (bgr, bgg, bgb) == mono_bg(dark_mode),
            i >= 1 ==> font_ok(font@),
            forall|bi: int, bj: int| 0 <= bi < i && 0 <= bj < rows ==> #[trigger] block_holds(
                out,
                bw as int,
                bh as int,
                bi,
                bj,
                mono_cell(*img, char_set@, bw as int, bh as int, dark_mode, font@, bi, bj),
            ),
            forall|px: int, py: int, c: int|
                0 <= px < out.w() && 0 <= py < out.h() && 0 <= c < 3 && !(px < i * bw && py < rows
                    * bh) ==> #[trigger] out.chan(px, py, c) == chan_of(mono_bg(dark_mode), c),
        decreases cols - i,
    {
        let mut j: u32 = 0;
        while j < rows
            invariant
                j <= rows,
                i < cols,
                img.wf(),
                out.wf(),
                out.w() == img.w(),
                out.h() == img.h(),
                1 <= bw <= img.w(),
                1 <= bh <= img.h(),
                bw <= MAX_CELL_DIM,
                bh <= MAX_CELL_DIM,
                cols == img.w() / bw as int,
                rows == img.h() / bh as int,
                1 <= cols,
                1 <= rows,
                1 <= char_set@.len() <= MAX_CHAR_SET_LEN,
                bw as int == eff_bw(block_size),
                bh as int == eff_bh(block_size),
                (bgr, bgg, bgb) == mono_bg(dark_mode),
                i >= 1 || j >= 1 ==> font_ok(font@),
                forall|bi: int, bj: int|
                    0 <= bi < i && 0 <= bj < rows || bi == i && 0 <= bj < j
                        ==> #[trigger] block_holds(
                        out,
                        bw as int,
                        bh as int,
                        bi,
                        bj,
                        mono_cell(*img, char_set@, bw as int, bh as int, dark_mode, font@, bi, bj),
                    ),
                forall|px: int, py: int, c: int|
                    0 <= px < out.w() && 0 <= py < out.h() && 0 <= c < 3 && !(px < i * bw && py
                        < rows * bh) && !(i * bw <= px < i * bw + bw && py < j * bh)
                        ==> #[trigger] out.chan(px, py, c) == chan_of(mono_bg(dark_mode), c),
            decreases rows - j,
        {
            proof {
                lemma_blocks_fit(img.w(), bw as int);
                lemma_blocks_fit(img.h(), bh as int);
                lemma_mul_inequality(i as int + 1, cols as int, bw as int);
                lemma_mul_inequality(j as int + 1, rows as int, bh as int);
                assert((i as int + 1) * (bw as int) == i as int * (bw as int) + bw as int && (
                j as int + 1) * (bh as int) == j as int * (bh as int) + bh as int)
                    by (nonlinear_arith);
            }
            let x: u32 = i * (bw as u32);
            let y: u32 = j * (bh as u32);
            let mean = sub_image_mean(img, x, y, bw as u32, bh as u32);
            let ch = get_char(char_set, mean);
            let s = char_to_string(ch);
            let ghost snap = out;
            let r = write_text(s.as_str(), &mut out, x as i32, y as i32, font, dark_mode, [bw, bh], None);
            match r {
                Ok(_) => {},
                Err(e) => {
                    return Err(e);
                },
            }
            proof {
                let bwi = bw as int;
                let bhi = bh as int;
                let ii = i as int;
                let jj = j as int;
                let cell = mono_cell(*img, char_set@, bwi, bhi, dark_mode, font@, ii, jj);
                assert forall|px: int, py: int|
                    ii * bwi <= px < ii * bwi + bwi && jj * bhi <= py < jj * bhi + bhi implies {
                    &&& #[trigger] snap.chan(px, py, 0) == bgr
                    &&& snap.chan(px, py, 1) == bgg
                    &&& snap.chan(px, py, 2) == bgb
                } by {
                    assert(snap.chan(px, py, 0) == chan_of(mono_bg(dark_mode), 0));
                    assert(snap.chan(px, py, 1) == chan_of(mono_bg(dark_mode), 1));
                    assert(snap.chan(px, py, 2) == chan_of(mono_bg(dark_mode), 2));
                }
                lemma_rect_seq_solid(snap, ii * bwi, jj * bhi, bwi, bhi, bgr, bgg, bgb);
                assert(block_holds(out, bwi, bhi, ii, jj, cell));
                assert forall|bi: int, bj: int|
                    0 <= bi < ii && 0 <= bj < rows || bi == ii && 0 <= bj < jj
                        implies #[trigger] block_holds(
                    out,
                    bwi,
                    bhi,
                    bi,
                    bj,
                    mono_cell(*img, char_set@, bwi, bhi, dark_mode, font@, bi, bj),
                ) by {
                    let bcell = mono_cell(*img, char_set@, bwi, bhi, dark_mode, font@, bi, bj);
                    assert(block_holds(snap, bwi, bhi, bi, bj, bcell));
                    assert forall|dx: int, dy: int, c: int|
                        0 <= dx < bwi && 0 <= dy < bhi && 0 <= c < 3 implies #[trigger] out.chan(
                        bi * bwi + dx,
                        bj * bhi + dy,
                        c,
                    ) == bcell[3 * (dy * bwi + dx) + c] by {
                        lemma_blocks_fit(img.w(), bwi);
                        lemma_blocks_fit(img.h(), bhi);
                        lemma_mul_inequality(bi + 1, cols as int, bwi);
                        lemma_mul_inequality(bj + 1, rows as int, bhi);
                        assert((bi + 1) * bwi == bi * bwi + bwi && 0 <= bi * bwi && (bj + 1) * bhi
                            == bj * bhi + bhi && 0 <= bj * bhi) by (nonlinear_arith)
                            requires
                                0 <= bi,
                                0 <= bj,
                                1 <= bwi,
                                1 <= bhi,
                        ;
                        assert(snap.chan(bi * bwi + dx, bj * bhi + dy, c) == bcell[3 * (dy * bwi
                            + dx) + c]);
                        if bi < ii {
                            lemma_mul_inequality(bi + 1, ii, bwi);
                        } else {
                            lemma_mul_inequality(bj + 1, jj, bhi);
                        }
                    }
                }
            }
            j = j + 1;
        }
        proof {
            assert((i as int + 1) * (bw as int) == i as int * (bw as int) + bw as int)
                by (nonlinear_arith);
        }
        i = i + 1;
    }
    proof {
        let bwi = bw as int;
        let bhi = bh as int;
        assert forall|px: int, py: int, c: int|
            0 <= px < out.w() && 0 <= py < out.h() && 0 <= c < 3 && px < cols * bwi && py < rows
                * bhi implies #[trigger] out.chan(px, py, c) == mono_cell(
            *img,
            char_set@,
            bwi,
            bhi,
            dark_mode,
            font@,
            px / bwi,
            py / bhi,
        )[3 * ((py % bhi) * bwi + (px % bwi)) + c] by {
            lemma_block_of_pixel(bwi, cols as int, px);
            lemma_block_of_pixel(bhi, rows as int, py);
            let bi = px / bwi;
            let bj = py / bhi;
            assert(block_holds(
                out,
                bwi,
                bhi,
                bi,
                bj,
                mono_cell(*img, char_set@, bwi, bhi, dark_mode, font@, bi, bj),
            ));
            assert(out.chan(bi * bwi + (px % bwi), bj * bhi + (py % bhi), c) == mono_cell(
                *img,
                char_set@,
                bwi,
                bhi,
                dark_mode,
                font@,
                bi,
                bj,
            )[3 * ((py % bhi) * bwi + (px % bwi)) + c]);
        }
    }
    Ok(out)
}

} // verus!
