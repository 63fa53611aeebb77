use vstd::prelude::*;
use vstd::arithmetic::div_mod::{lemma_basic_div, lemma_div_is_ordered, lemma_div_by_multiple, lemma_div_pos_is_pos};
use vstd::arithmetic::mul::lemma_mul_inequality;
use crate::grid::PixelGrid;
use crate::glyph::{FontError, font_ok, drawn_cell, char_to_string, MAX_CELL_DIM};
use crate::utils::{
    Mean, rect_sum, rect_sum_all, char_index_spec, solid_seq, sub_image_mean_rgb, get_blocks_num,
    get_char, write_text, lemma_rect_seq_solid, lemma_blocks_fit, lemma_block_of_pixel,
    lemma_uniform_rect_sum_all, rect_seq, MAX_CHAR_SET_LEN,
};
use crate::img_to_img::{eff_bw, eff_bh, block_holds};

verus! {

broadcast use crate::grid::lemma_wf_dims;

/// The flat color a block is filled with in colorful mode: each channel's
/// mean over the block, rounded down as the byte cast does.
pub open spec fn colorful_fill(img: PixelGrid, x: int, y: int, bw: int, bh: int) -> (u8, u8, u8) {
    (
        (rect_sum(img, x, y, bw, bh, 0) / (bw * bh)) as u8,
        (rect_sum(img, x, y, bw, bh, 1) / (bw * bh)) as u8,
        (rect_sum(img, x, y, bw, bh, 2) / (bw * bh)) as u8,
    )
}

/// Mean computation is exact on uniform blocks: a block filled entirely with
/// `(r, g, b)` is painted exactly `(r, g, b)` in colorful mode, and its
/// channel total is `(r + g + b)` times its pixel count, so its mean
/// luminance is exactly `(r + g + b) / 3`.
pub proof fn lemma_uniform_block_fill(
    img: PixelGrid,
    x: int,
    y: int,
    bw: int,
    bh: int,
    r: u8,
    g: u8,
    b: u8,
)
    requires
        1 <= bw,
        1 <= bh,
        forall|xx: int, yy: int| x <= xx < x + bw && y <= yy < y + bh ==> {
            &&& #[trigger] img.chan(xx, yy, 0) == r
            &&& img.chan(xx, yy, 1) == g
            &&& img.chan(xx, yy, 2) == b
        },
    ensures
        colorful_fill(img, x, y, bw, bh) == (r, g, b),
        rect_sum_all(img, x, y, bw, bh) == (r + g + b) * (bw * bh),
{
    lemma_uniform_rect_sum_all(img, x, y, bw, bh, r, g, b);
    assert(1 <= bw * bh) by (nonlinear_arith)
        requires
            1 <= bw,
            1 <= bh,
    ;
    lemma_div_by_multiple(r as int, bw * bh);
    lemma_div_by_multiple(g as int, bw * bh);
    lemma_div_by_multiple(b as int, bw * bh);
}

/// On an image of one uniform color, every block of the colorful rendering
/// is the same cell: the character the set assigns to the uniform mean,
/// drawn in black over a cell of exactly that color.
pub proof fn lemma_uniform_colorful_cell(
    img: PixelGrid,
    set: Seq<char>,
    bw: int,
    bh: int,
    font: Seq<u8>,
    i: int,
    j: int,
    r: u8,
    g: u8,
    b: u8,
)
    requires
        1 <= bw,
        1 <= bh,
        forall|xx: int, yy: int|
            i * bw <= xx < i * bw + bw && j * bh <= yy < j * bh + bh ==> {
                &&& #[trigger] img.chan(xx, yy, 0) == r
                &&& img.chan(xx, yy, 1) == g
                &&& img.chan(xx, yy, 2) == b
            },
    ensures
        colorful_cell(img, set, bw, bh, font, i, j) == drawn_cell(
            seq![set[char_index_spec(set.len() as int, (r + g + b) * (bw * bh), 3 * (bw * bh))]],
            bw,
            bh,
            solid_seq(bw, bh, r, g, b),
            bw - 1,
            bh - 1,
            0,
            0,
            0,
            font,
        ),
{
    lemma_uniform_block_fill(img, i * bw, j * bh, bw, bh, r, g, b);
}

/// The finished bytes of block `(i, j)`'s cell in colorful mode: the
/// character the set assigns to the block's mean luminance, drawn in black
/// over the block's mean color, at a scale one pixel short of the block on
/// each axis.
pub open spec fn colorful_cell(
    img: PixelGrid,
    set: Seq<char>,
    bw: int,
    bh: int,
    font: Seq<u8>,
    i: int,
    j: int,
) -> Seq<u8> {
    let sum = rect_sum_all(img, i * bw, j * bh, bw, bh);
    let idx = char_index_spec(set.len() as int, sum, 3 * (bw * bh));
    let fill = colorful_fill(img, i * bw, j * bh, bw, bh);
    drawn_cell(
        seq![set[idx]],
        bw,
        bh,
        solid_seq(bw, bh, fill.0, fill.1, fill.2),
        bw - 1,
        bh - 1,
        0,
        0,
        0,
        font,
    )
}

/// What the colorful pipeline promises of its output: every whole block of
/// the input is rendered as its cell, and every pixel outside the block grid
/// keeps the black background fill.
pub open spec fn colorful_output(
    img: PixelGrid,
    set: Seq<char>,
    bw: int,
    bh: int,
    font: Seq<u8>,
    out: PixelGrid,
) -> bool {
    let cols = img.w() / bw;
    let rows = img.h() / bh;
    &&& out.wf()
    &&& out.w() == img.w()
    &&& out.h() == img.h()
    &&& forall|px: int, py: int, c: int|
        0 <= px < out.w() && 0 <= py < out.h() && 0 <= c < 3 ==> #[trigger] out.chan(px, py, c)
            == if px < cols * bw && py < rows * bh {
            colorful_cell(img, set, bw, bh, font, px / bw, py / bh)[3 * ((py % bh) * bw + (px % bw))
                + c]
        } else {
            0u8
        }
}

/// Render `img` as colorful character art: walk the block grid, fill each
/// block with its mean color, and draw the character its mean luminance
/// quantizes to in black over the fill; block-grid truncation leaves any
/// right or bottom border pixels black. Fails exactly when the font bytes
/// are unusable and at least one block must be drawn.
#[verifier::rlimit(50)]
pub fn img_to_colorful_img(
    img: &PixelGrid,
    char_set: &str,
    block_size: Option<[usize; 2]>,
    font: &[u8],
) -> (res: Result<PixelGrid, FontError>)
    requires
        img.wf(),
        1 <= char_set@.len() <= MAX_CHAR_SET_LEN,
        block_size matches Some(bs) ==> 1 <= bs[0] <= MAX_CELL_DIM && 1 <= bs[1]
            <= MAX_CELL_DIM,
    ensures
        res matches Ok(out) ==> colorful_output(
            *img,
            char_set@,
            eff_bw(block_size),
            eff_bh(block_size),
            font@,
            out,
        ),
        res is Ok <==> (font_ok(font@) || img.w() / eff_bw(block_size) == 0 || img.h() / eff_bh(
            block_size,
        ) == 0),
{
    let (bw, bh): (usize, usize) = match block_size {
        Some(bsz) => (bsz[0], bsz[1]),
        None => (12, 12),
    };
    let blocks = get_blocks_num(img, [bw, bh]);
    let cols = blocks.0;
    let rows = blocks.1;
    let mut out = PixelGrid::new(img.width(), img.height(), 0, 0, 0);
    if cols == 0 || rows == 0 {
        proof {
            assert(cols == 0 ==> cols * bw == 0) by (nonlinear_arith);
            assert(rows == 0 ==> rows * bh == 0) by (nonlinear_arith);
        }
        return Ok(out);
    }
    proof {
        if bw > img.w() {
            lemma_basic_div(img.w(), bw as int);
        }
        if bh > img.h() {
            lemma_basic_div(img.h(), bh as int);
        }
    }
    let mut i: u32 = 0;
    while i < cols
        invariant
            i <= cols,
            img.wf(),
            out.wf(),
            out.w() == img.w(),
            out.h() == img.h(),
            1 <= bw <= img.w(),
            1 <= bh <= img.h(),
            bw <= MAX_CELL_DIM,
            bh <= MAX_CELL_DIM,
            cols == img.w() / bw as int,
            rows == img.h() / bh as int,
            1 <= cols,
            1 <= rows,
            1 <= char_set@.len() <= MAX_CHAR_SET_LEN,
            bw as int == eff_bw(block_size),
            bh as int == eff_bh(block_size),
            i >= 1 ==> font_ok(font@),
            forall|bi: int, bj: int| 0 <= bi < i && 0 <= bj < rows ==> #[trigger] block_holds(
                out,
                bw as int,
                bh as int,
                bi,
                bj,
                colorful_cell(*img, char_set@, bw as int, bh as int, font@, bi, bj),
            ),
            forall|px: int, py: int, c: int|
                0 <= px < out.w() && 0 <= py < out.h() && 0 <= c < 3 && !(px < i * bw && py < rows
                    * bh) ==> #[trigger] out.chan(px, py, c) == 0u8,
        decreases cols - i,
    {
        let mut j: u32 = 0;
        while j < rows
            invariant
                j <= rows,
                i < cols,
                img.wf(),
                out.wf(),
                out.w() == img.w(),
                out.h() == img.h(),
                1 <= bw <= img.w(),
                1 <= bh <= img.h(),
                bw <= MAX_CELL_DIM,
                bh <= MAX_CELL_DIM,
                cols == img.w() / bw as int,
                rows == img.h() / bh as int,
                1 <= cols,
                1 <= rows,
                1 <= char_set@.len() <= MAX_CHAR_SET_LEN,
                bw as int == eff_bw(block_size),
                bh as int == eff_bh(block_size),
                i >= 1 || j >= 1 ==> font_ok(font@),
                forall|bi: int, bj: int|
                    0 <= bi < i && 0 <= bj < rows || bi == i && 0 <= bj < j
                        ==> #[trigger] block_holds(
                        out,
                        bw as int,
                        bh as int,
                        bi,
                        bj,
                        colorful_cell(*img, char_set@, bw as int, bh as int, font@, bi, bj),
                    ),
                forall|px: int, py: int, c: int|
                    0 <= px < out.w() && 0 <= py < out.h() && 0 <= c < 3 && !(px < i * bw && py
                        < rows * bh) && !(i * bw <= px < i * bw + bw && py < j * bh)
                        ==> #[trigger] out.chan(px, py, c) == 0u8,
            decreases rows - j,
        {
            proof {
                lemma_blocks_fit(img.w(), bw as int);
                lemma_blocks_fit(img.h(), bh as int);
                lemma_mul_inequality(i as int + 1, cols as int, bw as int);
                lemma_mul_inequality(j as int + 1, rows as int, bh as int);
                assert((i as int + 1) * (bw as int) == i as int * (bw as int) + bw as int && (
                j as int + 1) * (bh as int) == j as int * (bh as int) + bh as int)
                    by (nonlinear_arith);
            }
            let x: u32 = i * (bw as u32);
            let y: u32 = j * (bh as u32);
            let (mr, mg, mb) = sub_image_mean_rgb(img, x, y, bw as u32, bh as u32);
            proof {
                lemma_div_is_ordered(mr.sum as int, 255 * (mr.den as int), mr.den as int);
                lemma_div_is_ordered(mg.sum as int, 255 * (mg.den as int), mg.den as int);
                lemma_div_is_ordered(mb.sum as int, 255 * (mb.den as int), mb.den as int);
                lemma_div_by_multiple(255, mr.den as int);
                lemma_div_pos_is_pos(mr.sum as int, mr.den as int);
                lemma_div_pos_is_pos(mg.sum as int, mg.den as int);
                lemma_div_pos_is_pos(mb.sum as int, mb.den as int);
                assert(3 * (mr.den as int) <= 3 * (0x7FFF_FFFFint * 0x7FFF_FFFFint))
                    by (nonlinear_arith)
                    requires
                        mr.den as int == bw as int * bh as int,
                        1 <= bw as int <= 0x7FFF_FFFFint,
                        1 <= bh as int <= 0x7FFF_FFFFint,
                ;
            }
            let fr: u8 = (mr.sum / mr.den) as u8;
            let fgc: u8 = (mg.sum / mg.den) as u8;
            let fb: u8 = (mb.sum / mb.den) as u8;
            let mean = Mean { sum: mr.sum + mg.sum + mb.sum, den: 3 * mr.den };
            let ch = get_char(char_set, mean);
            let s = char_to_string(ch);
            let ghost before_fill = out;
            out.fill_rect(x as usize, y as usize, bw, bh, fr, fgc, fb);
            let ghost snap = out;
            proof {
                assert forall|px2: int, py2: int|
                    x as int <= px2 < x as int + bw && y as int <= py2 < y as int + bh implies {
                    &&& #[trigger] snap.chan(px2, py2, 0) == fr
                    &&& snap.chan(px2, py2, 1) == fgc
                    &&& snap.chan(px2, py2, 2) == fb
                } by {
                    assert(out.chan(px2, py2, 0) == fr);
                    assert(out.chan(px2, py2, 1) == fgc);
                    assert(out.chan(px2, py2, 2) == fb);
                }
                lemma_rect_seq_solid(snap, x as int, y as int, bw as int, bh as int, fr, fgc, fb);
                assert(rect_seq(snap, i as int * (bw as int), j as int * (bh as int), bw as int,
                    bh as int) == solid_seq(bw as int, bh as int, fr, fgc, fb));
            }
            let r = write_text(
                s.as_str(),
                &mut out,
                x as i32,
                y as i32,
                font,
                false,
                [bw, bh],
                Some([0, 0, 0]),
            );
            match r {
                Ok(_) => {},
                Err(e) => {
                    return Err(e);
                },
            }
            proof {
                let bwi = bw as int;
                let bhi = bh as int;
                let ii = i as int;
                let jj = j as int;
                let cell = colorful_cell(*img, char_set@, bwi, bhi, font@, ii, jj);
                assert(block_holds(out, bwi, bhi, ii, jj, cell));
                assert forall|bi: int, bj: int|
                    0 <= bi < ii && 0 <= bj < rows || bi == ii && 0 <= bj < jj
                        implies #[trigger] block_holds(
                    out,
                    bwi,
                    bhi,
                    bi,
                    bj,
                    colorful_cell(*img, char_set@, bwi, bhi, font@, bi, bj),
                ) by {
                    let bcell = colorful_cell(*img, char_set@, bwi, bhi, font@, bi, bj);
                    assert(block_holds(before_fill, bwi, bhi, bi, bj, bcell));
                    assert forall|dx: int, dy: int, c: int|
                        0 <= dx < bwi && 0 <= dy < bhi && 0 <= c < 3 implies #[trigger] out.chan(
                        bi * bwi + dx,
                        bj * bhi + dy,
                        c,
                    ) == bcell[3 * (dy * bwi + dx) + c] by {
                        lemma_blocks_fit(img.w(), bwi);
                        lemma_blocks_fit(img.h(), bhi);
                        lemma_mul_inequality(bi + 1, cols as int, bwi);
                        lemma_mul_inequality(bj + 1, rows as int, bhi);
                        assert((bi + 1) * bwi == bi * bwi + bwi && 0 <= bi * bwi && (bj + 1) * bhi
                            == bj * bhi + bhi && 0 <= bj * bhi) by (nonlinear_arith)
                            requires
                                0 <= bi,
                                0 <= bj,
                                1 <= bwi,
                                1 <= bhi,
                        ;
                        assert(before_fill.chan(bi * bwi + dx, bj * bhi + dy, c) == bcell[3 * (dy
                            * bwi + dx) + c]);
                        if bi < ii {
                            lemma_mul_inequality(bi + 1, ii, bwi);
                        } else {
                            lemma_mul_inequality(bj + 1, jj, bhi);
                        }
                        assert(snap.chan(bi * bwi + dx, bj * bhi + dy, c) == bcell[3 * (dy * bwi
                            + dx) + c]);
                    }
                }
            }
            j = j + 1;
        }
        proof {
            assert((i as int + 1) * (bw as int) == i as int * (bw as int) + bw as int)
                by (nonlinear_arith);
        }
        i = i + 1;
    }
    proof {
        let bwi = bw as int;
        let bhi = bh as int;
        assert forall|px: int, py: int, c: int|
            0 <= px < out.w() && 0 <= py < out.h() && 0 <= c < 3 && px < cols * bwi && py < rows
                * bhi implies #[trigger] out.chan(px, py, c) == colorful_cell(
            *img,
            char_set@,
            bwi,
            bhi,
            font@,
            px / bwi,
            py / bhi,
        )[3 * ((py % bhi) * bwi + (px % bwi)) + c] by {
            lemma_block_of_pixel(bwi, cols as int, px);
            lemma_block_of_pixel(bhi, rows as int, py);
            let bi = px / bwi;
            let bj = py / bhi;
            assert(block_holds(
                out,
                bwi,
                bhi,
                bi,
                bj,
                colorful_cell(*img, char_set@, bwi, bhi, font@, bi, bj),
            ));
            assert(out.chan(bi * bwi + (px % bwi), bj * bhi + (py % bhi), c) == colorful_cell(
                *img,
                char_set@,
                bwi,
                bhi,
                font@,
                bi,
                bj,
            )[3 * ((py % bhi) * bwi + (px % bwi)) + c]);
        }
    }
    Ok(out)
}

/// The finished cell of block `(i, j)` rendered on its own: the block's mean
/// color filled, with the quantized character drawn in black over it — the
/// independent per-block work of the colorful walk, for callers that fan the
/// blocks out and blit the disjoint cells afterwards. Fails exactly when the
/// font bytes are unusable.
pub fn colorful_block_cell(
    img: &PixelGrid,
    char_set: &str,
    bw: usize,
    bh: usize,
    i: u32,
    j: u32,
    font: &[u8],
) -> (res: Result<PixelGrid, FontError>)
    requires
        img.wf(),
        1 <= char_set@.len() <= MAX_CHAR_SET_LEN,
        1 <= bw <= MAX_CELL_DIM,
        1 <= bh <= MAX_CELL_DIM,
        (i + 1) * bw <= img.w(),
        (j + 1) * bh <= img.h(),
    ensures
        res is Ok <==> font_ok(font@),
        res matches Ok(cell) ==> {
            &&& cell.wf()
            &&& cell.w() == bw
            &&& cell.h() == bh
            &&& forall|dx: int, dy: int, c: int|
                0 <= dx < bw && 0 <= dy < bh && 0 <= c < 3 ==> #[trigger] cell.chan(dx, dy, c)
                    == colorful_cell(
                    *img,
                    char_set@,
                    bw as int,
                    bh as int,
                    font@,
                    i as int,
                    j as int,
                )[3 * (dy * bw + dx) + c]
        },
{
    proof {
        assert((i as int + 1) * bw == i as int * bw + bw && (j as int + 1) * bh == j as int * bh
            + bh && bw <= (i as int + 1) * bw && bh <= (j as int + 1) * bh) by (nonlinear_arith)
            requires
                1 <= bw,
                1 <= bh,
                0 <= i as int,
                0 <= j as int,
        ;
        assert(3 * (bw * bh) <= 3 * img.w() * img.h() && 3 * bw * bh == 3 * (bw * bh))
            by (nonlinear_arith)
            requires
                1 <= bw as int <= img.w(),
                1 <= bh as int <= img.h(),
        ;
    }
    let x: u32 = i * (bw as u32);
    let y: u32 = j * (bh as u32);
    let (mr, mg, mb) = sub_image_mean_rgb(img, x, y, bw as u32, bh as u32);
    proof {
        lemma_div_is_ordered(mr.sum as int, 255 * (mr.den as int), mr.den as int);
        lemma_div_is_ordered(mg.sum as int, 255 * (mg.den as int), mg.den as int);
        lemma_div_is_ordered(mb.sum as int, 255 * (mb.den as int), mb.den as int);
        lemma_div_by_multiple(255, mr.den as int);
        lemma_div_pos_is_pos(mr.sum as int, mr.den as int);
        lemma_div_pos_is_pos(mg.sum as int, mg.den as int);
        lemma_div_pos_is_pos(mb.sum as int, mb.den as int);
        assert(3 * (mr.den as int) <= 0xFFFF_FFFF_FFFF_FFFF) by (nonlinear_arith)
            requires
                mr.den as int == bw as int * bh as int,
                1 <= bw as int <= MAX_CELL_DIM as int,
                1 <= bh as int <= MAX_CELL_DIM as int,
        ;
    }
    let fr: u8 = (mr.sum / mr.den) as u8;
    let fgc: u8 = (mg.sum / mg.den) as u8;
    let fb: u8 = (mb.sum / mb.den) as u8;
    let mean = Mean { sum: mr.sum + mg.sum + mb.sum, den: 3 * mr.den };
    let ch = get_char(char_set, mean);
    let s = char_to_string(ch);
    let mut cell = PixelGrid::new(bw, bh, fr, fgc, fb);
    let ghost snap = cell;
    proof {
        assert forall|px2: int, py2: int| 0 <= px2 < 0 + bw && 0 <= py2 < 0 + bh implies {
            &&& #[trigger] snap.chan(px2, py2, 0) == fr
            &&& snap.chan(px2, py2, 1) == fgc
            &&& snap.chan(px2, py2, 2) == fb
        } by {
            assert(snap.chan(px2, py2, 0) == fr);
        }
        lemma_rect_seq_solid(snap, 0, 0, bw as int, bh as int, fr, fgc, fb);
        assert((fr, fgc, fb) == colorful_fill(
            *img,
            i as int * bw,
            j as int * bh,
            bw as int,
            bh as int,
        ));
    }
    match write_text(s.as_str(), &mut cell, 0, 0, font, false, [bw, bh], Some([0, 0, 0])) {
        Ok(_) => {
            proof {
                assert forall|dx: int, dy: int, c: int|
                    0 <= dx < bw && 0 <= dy < bh && 0 <= c < 3 implies #[trigger] cell.chan(
                    dx,
                    dy,
                    c,
                ) == colorful_cell(
                    *img,
                    char_set@,
                    bw as int,
                    bh as int,
                    font@,
                    i as int,
                    j as int,
                )[3 * (dy * bw + dx) + c] by {
                    assert(cell.chan(0 + dx, 0 + dy, c) == cell.chan(dx, dy, c));
                }
            }
            Ok(cell)
        },
        Err(e) => Err(e),
    }
}

} // verus!
