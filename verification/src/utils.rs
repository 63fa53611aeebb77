use vstd::prelude::*;
use vstd::arithmetic::div_mod::{
    lemma_fundamental_div_mod, lemma_fundamental_div_mod_converse, lemma_div_nonincreasing,
    lemma_div_pos_is_pos, lemma_mod_division_less_than_divisor, lemma_basic_div,
};
use vstd::arithmetic::mul::lemma_mul_inequality;
use crate::grid::{PixelGrid, lemma_flat_index, MAX_DIM};
use crate::glyph::{FontError, font_ok, drawn_cell, draw_text_cell, MAX_CELL_DIM};

verus! {

broadcast use crate::grid::lemma_wf_dims;

/// Largest character-set length the quantizer accepts; keeps its exact
/// rational arithmetic inside `u128`.
pub const MAX_CHAR_SET_LEN: usize = 0xFFFF_FFFF;

/// An exactly represented channel average: the rational `sum / den`.
#[derive(Clone, Copy, Debug, PartialEq, Eq, Structural)]
pub struct Mean {
    pub sum: u128,
    pub den: u128,
}

impl Mean {
    /// A brightness mean: a rational in `[0, 255]` whose denominator is a
    /// pixel or byte count, hence positive and well under `u64::MAX`.
    pub open spec fn wf(&self) -> bool {
        &&& 1 <= self.den <= 0xFFFF_FFFF_FFFF_FFFFu128
        &&& self.sum <= 255 * self.den
    }
}

/// Sum of channel `c` over the row of `w` pixels starting at `(x, y)`.
pub open spec fn row_sum(g: PixelGrid, x: int, y: int, w: int, c: int) -> int
    decreases w,
{
    if w <= 0 {
        0
    } else {
        row_sum(g, x, y, w - 1, c) + g.chan(x + w - 1, y, c)
    }
}

/// Sum of channel `c` over the rectangle `[x, x + w) x [y, y + h)`.
pub open spec fn rect_sum(g: PixelGrid, x: int, y: int, w: int, h: int, c: int) -> int
    decreases h,
{
    if h <= 0 {
        0
    } else {
        rect_sum(g, x, y, w, h - 1, c) + row_sum(g, x, y + h - 1, w, c)
    }
}

/// Sum of all three channels over a row.
pub open spec fn row_sum_all(g: PixelGrid, x: int, y: int, w: int) -> int {
    row_sum(g, x, y, w, 0) + row_sum(g, x, y, w, 1) + row_sum(g, x, y, w, 2)
}

/// Sum of all three channels over the rectangle.
pub open spec fn rect_sum_all(g: PixelGrid, x: int, y: int, w: int, h: int) -> int {
    rect_sum(g, x, y, w, h, 0) + rect_sum(g, x, y, w, h, 1) + rect_sum(g, x, y, w, h, 2)
}

/// Round-to-nearest of the nonnegative rational `num / den`; halves round up.
pub open spec fn round_nearest_div(num: int, den: int) -> int {
    (2 * num + den) / (2 * den)
}

/// The character-set index chosen for a mean of `sum / den` and a set of
/// `len` characters: `round(mean / 255 * len)` clamped to `[0, len - 1]`.
pub open spec fn char_index_spec(len: int, sum: int, den: int) -> int {
    let i = round_nearest_div(sum * len, 255 * den);
    if i <= len - 1 {
        i
    } else {
        len - 1
    }
}

/// The rectangle `[x0, x0 + rw) x [y0, y0 + rh)` of `g` as a flat byte
/// sequence, row-major, three bytes per pixel.
pub open spec fn rect_seq(g: PixelGrid, x0: int, y0: int, rw: int, rh: int) -> Seq<u8> {
    Seq::new(
        (3 * (rw * rh)) as nat,
        |i: int| g.chan(x0 + (i / 3) % rw, y0 + (i / 3) / rw, i % 3),
    )
}

/// A cell of `rw * rh` pixels all holding `(r, g, b)`, as a flat byte
/// sequence.
pub open spec fn solid_seq(rw: int, rh: int, r: u8, g: u8, b: u8) -> Seq<u8> {
    Seq::new(
        (3 * (rw * rh)) as nat,
        |i: int|
            if i % 3 == 0 {
                r
            } else if i % 3 == 1 {
                g
            } else {
                b
            },
    )
}

/// The glyph color the compositor uses: the explicit override when given,
/// else white on a dark background and black on a light one.
pub open spec fn glyph_color(dark_mode: bool, color: Option<[u8; 3]>) -> (u8, u8, u8) {
    match color {
        Some(c) => (c[0], c[1], c[2]),
        None => if dark_mode {
            (255u8, 255u8, 255u8)
        } else {
            (0u8, 0u8, 0u8)
        },
    }
}

/// How a flat cell offset decomposes back into pixel coordinates and a
/// channel.
pub proof fn lemma_flat_recover(w: int, h: int, i: int)
    requires
        1 <= w,
        1 <= h,
        0 <= i < 3 * (w * h),
    ensures
        0 <= (i / 3) % w < w,
        0 <= (i / 3) / w < h,
        0 <= i % 3 < 3,
        i == 3 * (((i / 3) / w) * w + (i / 3) % w) + i % 3,
{
    lemma_fundamental_div_mod(i, 3);
    lemma_mod_division_less_than_divisor(i, 3);
    lemma_div_pos_is_pos(i, 3);
    let q = i / 3;
    lemma_fundamental_div_mod(q, w);
    lemma_mod_division_less_than_divisor(q, w);
    lemma_div_pos_is_pos(q, w);
    let dy = q / w;
    assert(dy * w == w * dy) by (nonlinear_arith);
    assert(q < w * h) by (nonlinear_arith)
        requires
            0 <= i < 3 * (w * h),
            q == i / 3,
            i == 3 * q + i % 3,
            0 <= i % 3 < 3,
    ;
    if dy >= h {
        assert(false) by (nonlinear_arith)
            requires
                q == w * dy + q % w,
                0 <= q % w,
                q < w * h,
                h <= dy,
                1 <= w,
        ;
    }
}

/// A rectangle whose pixels all hold `(r, g, b)` reads as a `solid_seq`.
pub proof fn lemma_rect_seq_solid(g: PixelGrid, x0: int, y0: int, rw: int, rh: int, r: u8, gg: u8, b: u8)
    requires
        1 <= rw,
        1 <= rh,
        forall|x: int, y: int| x0 <= x < x0 + rw && y0 <= y < y0 + rh ==> {
            &&& #[trigger] g.chan(x, y, 0) == r
            &&& g.chan(x, y, 1) == gg
            &&& g.chan(x, y, 2) == b
        },
    ensures
        rect_seq(g, x0, y0, rw, rh) == solid_seq(rw, rh, r, gg, b),
{
    let s1 = rect_seq(g, x0, y0, rw, rh);
    let s2 = solid_seq(rw, rh, r, gg, b);
    assert forall|i: int| 0 <= i < s1.len() implies s1[i] == s2[i] by {
        lemma_flat_recover(rw, rh, i);
        let xx = x0 + (i / 3) % rw;
        let yy = y0 + (i / 3) / rw;
        assert(g.chan(xx, yy, 0) == r);
    }
    assert(s1 =~= s2);
}

/// Every row sum of byte-sized channels lies between `0` and `255 * w`.
pub proof fn lemma_row_sum_bounds(g: PixelGrid, x: int, y: int, w: int, c: int)
    requires
        0 <= w,
    ensures
        0 <= row_sum(g, x, y, w, c) <= 255 * w,
    decreases w,
{
    if w > 0 {
        lemma_row_sum_bounds(g, x, y, w - 1, c);
    }
}

/// Every rectangle sum of byte-sized channels lies between `0` and
/// `255 * (w * h)`.
pub proof fn lemma_rect_sum_bounds(g: PixelGrid, x: int, y: int, w: int, h: int, c: int)
    requires
        0 <= w,
        0 <= h,
    ensures
        0 <= rect_sum(g, x, y, w, h, c) <= 255 * (w * h),
    decreases h,
{
    if h <= 0 {
        assert(0 <= 255 * (w * h)) by (nonlinear_arith)
            requires
                0 <= w,
                0 <= h,
        ;
    } else {
        lemma_rect_sum_bounds(g, x, y, w, h - 1, c);
        lemma_row_sum_bounds(g, x, y + h - 1, w, c);
        assert(255 * (w * (h - 1)) + 255 * w == 255 * (w * h)) by (nonlinear_arith);
    }
}

/// Floor division is monotonic over nonnegative rationals: if
/// `a1 / b1 <= a2 / b2` as rationals, the integer quotients are so ordered.
pub proof fn lemma_div_le_cross(a1: int, b1: int, a2: int, b2: int)
    requires
        0 <= a1,
        0 <= a2,
        1 <= b1,
        1 <= b2,
        a1 * b2 <= a2 * b1,
    ensures
        a1 / b1 <= a2 / b2,
{
    let q1 = a1 / b1;
    let r1 = a1 % b1;
    let q2 = a2 / b2;
    let r2 = a2 % b2;
    lemma_fundamental_div_mod(a1, b1);
    lemma_mod_division_less_than_divisor(a1, b1);
    lemma_div_pos_is_pos(a1, b1);
    lemma_fundamental_div_mod(a2, b2);
    lemma_mod_division_less_than_divisor(a2, b2);
    lemma_div_pos_is_pos(a2, b2);
    if q1 > q2 {
        assert(false) by (nonlinear_arith)
            requires
                a1 == b1 * q1 + r1,
                a2 == b2 * q2 + r2,
                0 <= r1 < b1,
                0 <= r2 < b2,
                1 <= b1,
                1 <= b2,
                0 <= q2 < q1,
                a1 * b2 <= a2 * b1,
        ;
    }
}

/// The quantizer always answers inside the character set: for every mean in
/// `[0, 255]` the index lies in `[0, len - 1]`; a mean of `255` lands on the
/// last character and a mean of `0` on the first.
pub proof fn lemma_char_index_range(len: int, sum: int, den: int)
    requires
        1 <= len,
        1 <= den,
        0 <= sum <= 255 * den,
    ensures
        0 <= char_index_spec(len, sum, den) <= len - 1,
        sum == 255 * den ==> char_index_spec(len, sum, den) == len - 1,
        sum == 0 ==> char_index_spec(len, sum, den) == 0,
{
    let num = 2 * (sum * len) + 255 * den;
    let d = 2 * (255 * den);
    assert(0 <= sum * len && 0 < d) by (nonlinear_arith)
        requires
            0 <= sum,
            1 <= len,
            1 <= den,
            d == 2 * (255 * den),
    ;
    lemma_div_pos_is_pos(num, d);
    if sum == 255 * den {
        assert(num == len * d + 255 * den) by (nonlinear_arith)
            requires
                num == 2 * (sum * len) + 255 * den,
                d == 2 * (255 * den),
                sum == 255 * den,
        ;
        lemma_fundamental_div_mod_converse(num, d, len, 255 * den);
    }
    if sum == 0 {
        lemma_basic_div(255 * den, d);
    }
}

/// The quantizer is monotonic in the mean: a block no darker than another
/// never maps to an earlier character. Means are compared as rationals:
/// `s1 / d1 <= s2 / d2` exactly when `s1 * d2 <= s2 * d1`.
pub proof fn lemma_char_index_monotonic(len: int, s1: int, d1: int, s2: int, d2: int)
    requires
        1 <= len,
        1 <= d1,
        1 <= d2,
        0 <= s1 <= 255 * d1,
        0 <= s2 <= 255 * d2,
        s1 * d2 <= s2 * d1,
    ensures
        char_index_spec(len, s1, d1) <= char_index_spec(len, s2, d2),
{
    let a1 = 2 * (s1 * len) + 255 * d1;
    let b1 = 2 * (255 * d1);
    let a2 = 2 * (s2 * len) + 255 * d2;
    let b2 = 2 * (255 * d2);
    assert(0 <= a1 && 0 <= a2 && 1 <= b1 && 1 <= b2 && a1 * b2 <= a2 * b1) by (nonlinear_arith)
        requires
            a1 == 2 * (s1 * len) + 255 * d1,
            b1 == 2 * (255 * d1),
            a2 == 2 * (s2 * len) + 255 * d2,
            b2 == 2 * (255 * d2),
            1 <= len,
            1 <= d1,
            1 <= d2,
            0 <= s1,
            0 <= s2,
            s1 * d2 <= s2 * d1,
    ;
    lemma_div_le_cross(a1, b1, a2, b2);
}

/// The quantizer depends only on the mean's value: two representations of
/// the same rational mean map to the same character index, so requantizing a
/// block's mean always answers the same.
pub proof fn lemma_char_index_same_mean(len: int, s1: int, d1: int, s2: int, d2: int)
    requires
        1 <= len,
        1 <= d1,
        1 <= d2,
        0 <= s1 <= 255 * d1,
        0 <= s2 <= 255 * d2,
        s1 * d2 == s2 * d1,
    ensures
        char_index_spec(len, s1, d1) == char_index_spec(len, s2, d2),
{
    lemma_char_index_monotonic(len, s1, d1, s2, d2);
    lemma_char_index_monotonic(len, s2, d2, s1, d1);
}

/// Sampling is exact on uniform rows.
pub proof fn lemma_uniform_row_sum(g: PixelGrid, x: int, y: int, w: int, c: int, v: u8)
    requires
        0 <= w,
        0 <= c < 3,
        forall|xx: int, yy: int, cc: int|
            x <= xx < x + w && yy == y && 0 <= cc < 3 && cc == c ==> #[trigger] g.chan(xx, yy, cc)
                == v,
    ensures
        row_sum(g, x, y, w, c) == v * w,
    decreases w,
{
    if w <= 0 {
        assert(v * w == 0) by (nonlinear_arith)
            requires
                w == 0,
        ;
    } else {
        lemma_uniform_row_sum(g, x, y, w - 1, c, v);
        assert(g.chan(x + w - 1, y, c) == v);
        assert(v * (w - 1) + v == v * w) by (nonlinear_arith);
    }
}

/// Sampling is exact on uniform rectangles: a block filled with one value in
/// channel `c` sums to exactly that value times its pixel count.
pub proof fn lemma_uniform_rect_sum(g: PixelGrid, x: int, y: int, w: int, h: int, c: int, v: u8)
    requires
        0 <= w,
        0 <= h,
        0 <= c < 3,
        forall|xx: int, yy: int, cc: int|
            x <= xx < x + w && y <= yy < y + h && 0 <= cc < 3 && cc == c
                ==> #[trigger] g.chan(xx, yy, cc) == v,
    ensures
        rect_sum(g, x, y, w, h, c) == v * (w * h),
    decreases h,
{
    if h <= 0 {
        assert(v * (w * h) == 0) by (nonlinear_arith)
            requires
                h == 0,
        ;
    } else {
        lemma_uniform_rect_sum(g, x, y, w, h - 1, c, v);
        lemma_uniform_row_sum(g, x, y + h - 1, w, c, v);
        assert(v * (w * (h - 1)) + v * w == v * (w * h)) by (nonlinear_arith);
    }
}

/// Sampling is exact on uniform rectangles, all channels at once: a
/// rectangle filled entirely with `(r, g, b)` has channel sums of exactly
/// `r`, `g` and `b` times its pixel count, so its mean luminance is exactly
/// `(r + g + b) / 3` and its per-channel means are exactly `(r, g, b)`.
pub proof fn lemma_uniform_rect_sum_all(
    g: PixelGrid,
    x: int,
    y: int,
    w: int,
    h: int,
    r: u8,
    gg: u8,
    b: u8,
)
    requires
        0 <= w,
        0 <= h,
        forall|xx: int, yy: int| x <= xx < x + w && y <= yy < y + h ==> {
            &&& #[trigger] g.chan(xx, yy, 0) == r
            &&& g.chan(xx, yy, 1) == gg
            &&& g.chan(xx, yy, 2) == b
        },
    ensures
        rect_sum(g, x, y, w, h, 0) == r * (w * h),
        rect_sum(g, x, y, w, h, 1) == gg * (w * h),
        rect_sum(g, x, y, w, h, 2) == b * (w * h),
        rect_sum_all(g, x, y, w, h) == (r + gg + b) * (w * h),
{
    assert forall|xx: int, yy: int, cc: int|
        x <= xx < x + w && y <= yy < y + h && 0 <= cc < 3 && cc == 0 implies #[trigger] g.chan(
        xx,
        yy,
        cc,
    ) == r by {
        assert(g.chan(xx, yy, 0) == r);
    }
    assert forall|xx: int, yy: int, cc: int|
        x <= xx < x + w && y <= yy < y + h && 0 <= cc < 3 && cc == 1 implies #[trigger] g.chan(
        xx,
        yy,
        cc,
    ) == gg by {
        assert(g.chan(xx, yy, 0) == r);
    }
    assert forall|xx: int, yy: int, cc: int|
        x <= xx < x + w && y <= yy < y + h && 0 <= cc < 3 && cc == 2 implies #[trigger] g.chan(
        xx,
        yy,
        cc,
    ) == b by {
        assert(g.chan(xx, yy, 0) == r);
    }
    lemma_uniform_rect_sum(g, x, y, w, h, 0, r);
    lemma_uniform_rect_sum(g, x, y, w, h, 1, gg);
    lemma_uniform_rect_sum(g, x, y, w, h, 2, b);
    assert((r + gg + b) * (w * h) == r * (w * h) + gg * (w * h) + b * (w * h))
        by (nonlinear_arith);
}

/// When the image's dimensions are exact multiples of the block size, the
/// block grid covers the whole image, leaving no border.
pub proof fn lemma_block_grid_covers(w: int, h: int, bw: int, bh: int)
    requires
        1 <= bw,
        1 <= bh,
        0 <= w,
        0 <= h,
        w % bw == 0,
        h % bh == 0,
    ensures
        (w / bw) * bw == w,
        (h / bh) * bh == h,
{
    lemma_fundamental_div_mod(w, bw);
    lemma_fundamental_div_mod(h, bh);
    assert(bw * (w / bw) == (w / bw) * bw) by (nonlinear_arith);
    assert(bh * (h / bh) == (h / bh) * bh) by (nonlinear_arith);
}

/// The block grid never reaches past the image: `(w / bw) * bw <= w`.
pub proof fn lemma_blocks_fit(w: int, bw: int)
    requires
        0 <= w,
        1 <= bw,
    ensures
        0 <= (w / bw) * bw <= w,
{
    lemma_fundamental_div_mod(w, bw);
    lemma_mod_division_less_than_divisor(w, bw);
    lemma_div_pos_is_pos(w, bw);
    assert(bw * (w / bw) == (w / bw) * bw) by (nonlinear_arith);
}

/// The block a pixel falls in, and the pixel's offset inside it.
pub proof fn lemma_block_of_pixel(bw: int, cols: int, px: int)
    requires
        1 <= bw,
        0 <= px,
        px < cols * bw,
    ensures
        0 <= px / bw < cols,
        0 <= px % bw < bw,
        px == (px / bw) * bw + px % bw,
    {
    lemma_fundamental_div_mod(px, bw);
    lemma_mod_division_less_than_divisor(px, bw);
    lemma_div_pos_is_pos(px, bw);
    let q = px / bw;
    if q >= cols {
        lemma_mul_inequality(cols, q, bw);
        assert(cols * bw <= q * bw && bw * q == q * bw) by (nonlinear_arith)
            requires
                cols <= q,
                1 <= bw,
        ;
        assert(false);
    }
    assert(bw * q == q * bw) by (nonlinear_arith);
}

/// The sub-image of `img` covering `[x, x + w) x [y, y + h)`.
pub fn sub_image(img: &PixelGrid, x: u32, y: u32, w: u32, h: u32) -> (sub: PixelGrid)
    requires
        img.wf(),
        x + w <= img.w(),
        y + h <= img.h(),
    ensures
        sub.wf(),
        sub.w() == w,
        sub.h() == h,
        forall|dx: int, dy: int, c: int| 0 <= dx < w && 0 <= dy < h && 0 <= c < 3
            ==> #[trigger] sub.chan(dx, dy, c) == img.chan(x + dx, y + dy, c),
{
    let cell = img.rect_bytes(x as usize, y as usize, w as usize, h as usize);
    proof {
        assert(3 * (w as int * h as int) == 3 * (w as int) * (h as int)) by (nonlinear_arith);
    }
    let sub = PixelGrid::from_raw(w as usize, h as usize, cell);
    proof {
        assert forall|dx: int, dy: int, c: int| 0 <= dx < w && 0 <= dy < h && 0 <= c < 3 implies #[trigger] sub.chan(
            dx,
            dy,
            c,
        ) == img.chan(x + dx, y + dy, c) by {
            lemma_flat_index(w as int, h as int, dx, dy, c);
        }
    }
    sub
}

/// The mean luminance of the rectangle `[x, x + w) x [y, y + h)`: the sum of
/// all three channels of all its pixels over `3 * w * h`, held exactly.
pub fn sub_image_mean(img: &PixelGrid, x: u32, y: u32, w: u32, h: u32) -> (m: Mean)
    requires
        img.wf(),
        1 <= w,
        1 <= h,
        x + w <= img.w(),
        y + h <= img.h(),
    ensures
        m.sum == rect_sum_all(*img, x as int, y as int, w as int, h as int),
        m.den == 3 * (w as int * h as int),
        m.wf(),
{
    let mut acc: u128 = 0;
    let mut dy: u32 = 0;
    while dy < h
        invariant
            dy <= h,
            img.wf(),
            1 <= w <= MAX_DIM,
            1 <= h <= MAX_DIM,
            x + w <= img.w(),
            y + h <= img.h(),
            acc == rect_sum_all(*img, x as int, y as int, w as int, dy as int),
            0 <= acc <= 765 * (dy as int * w as int),
        decreases h - dy,
    {
        let mut dx: u32 = 0;
        while dx < w
            invariant
                dx <= w,
                dy < h,
                img.wf(),
                1 <= w <= MAX_DIM,
                1 <= h <= MAX_DIM,
                x + w <= img.w(),
                y + h <= img.h(),
                acc == rect_sum_all(*img, x as int, y as int, w as int, dy as int) + row_sum_all(
                    *img,
                    x as int,
                    (y + dy) as int,
                    dx as int,
                ),
                0 <= acc <= 765 * (dy as int * w as int) + 765 * dx,
            decreases w - dx,
        {
            proof {
                assert(765 * (dy as int * w as int) + 765 * w <= 765 * ((dy as int + 1) * (
                w as int)) && 765 * ((dy as int + 1) * (w as int)) <= 765 * (MAX_DIM as int
                    * MAX_DIM as int)) by (nonlinear_arith)
                    requires
                        dy < h,
                        1 <= w <= MAX_DIM as int,
                        1 <= h <= MAX_DIM as int,
                ;
            }
            let p = img.get((x + dx) as usize, (y + dy) as usize);
            acc = acc + (p.0 as u128 + p.1 as u128 + p.2 as u128);
            dx = dx + 1;
        }
        proof {
            assert((dy as int + 1) * (w as int) == dy as int * w as int + w as int)
                by (nonlinear_arith);
        }
        dy = dy + 1;
    }
    proof {
        lemma_rect_sum_bounds(*img, x as int, y as int, w as int, h as int, 0);
        lemma_rect_sum_bounds(*img, x as int, y as int, w as int, h as int, 1);
        lemma_rect_sum_bounds(*img, x as int, y as int, w as int, h as int, 2);
        assert(3 * (w as int) * (h as int) == 3 * (w as int * h as int) && 765 * (w as int
            * h as int) == 255 * (3 * (w as int * h as int)) && 3 * (w as int * h as int)
            <= 0xFFFF_FFFF_FFFF_FFFF && 1 <= w as int * h as int) by (nonlinear_arith)
            requires
                1 <= w <= MAX_DIM as int,
                1 <= h <= MAX_DIM as int,
        ;
    }
    let den: u128 = 3 * (w as u128) * (h as u128);
    Mean { sum: acc, den }
}

/// The per-channel means of the rectangle `[x, x + w) x [y, y + h)`: each
/// channel's sum over `w * h`, held exactly, in `(red, green, blue)` order.
pub fn sub_image_mean_rgb(img: &PixelGrid, x: u32, y: u32, w: u32, h: u32) -> (m: (Mean, Mean, Mean))
    requires
        img.wf(),
        1 <= w,
        1 <= h,
        x + w <= img.w(),
        y + h <= img.h(),
    ensures
        m.0.sum == rect_sum(*img, x as int, y as int, w as int, h as int, 0),
        m.1.sum == rect_sum(*img, x as int, y as int, w as int, h as int, 1),
        m.2.sum == rect_sum(*img, x as int, y as int, w as int, h as int, 2),
        m.0.den == w as int * h as int,
        m.1.den == w as int * h as int,
        m.2.den == w as int * h as int,
        m.0.wf(),
        m.1.wf(),
        m.2.wf(),
{
    let mut ar: u128 = 0;
    let mut ag: u128 = 0;
    let mut ab: u128 = 0;
    let mut dy: u32 = 0;
    while dy < h
        invariant
            dy <= h,
            img.wf(),
            1 <= w <= MAX_DIM,
            1 <= h <= MAX_DIM,
            x + w <= img.w(),
            y + h <= img.h(),
            ar == rect_sum(*img, x as int, y as int, w as int, dy as int, 0),
            ag == rect_sum(*img, x as int, y as int, w as int, dy as int, 1),
            ab == rect_sum(*img, x as int, y as int, w as int, dy as int, 2),
            0 <= ar <= 255 * (dy as int * w as int),
            0 <= ag <= 255 * (dy as int * w as int),
            0 <= ab <= 255 * (dy as int * w as int),
        decreases h - dy,
    {
        let mut dx: u32 = 0;
        while dx < w
            invariant
                dx <= w,
                dy < h,
                img.wf(),
                1 <= w <= MAX_DIM,
                1 <= h <= MAX_DIM,
                x + w <= img.w(),
                y + h <= img.h(),
                ar == rect_sum(*img, x as int, y as int, w as int, dy as int, 0) + row_sum(
                    *img,
                    x as int,
                    (y + dy) as int,
                    dx as int,
                    0,
                ),
                ag == rect_sum(*img, x as int, y as int, w as int, dy as int, 1) + row_sum(
                    *img,
                    x as int,
                    (y + dy) as int,
                    dx as int,
                    1,
                ),
                ab == rect_sum(*img, x as int, y as int, w as int, dy as int, 2) + row_sum(
                    *img,
                    x as int,
                    (y + dy) as int,
                    dx as int,
                    2,
                ),
                0 <= ar <= 255 * (dy as int * w as int) + 255 * dx,
                0 <= ag <= 255 * (dy as int * w as int) + 255 * dx,
                0 <= ab <= 255 * (dy as int * w as int) + 255 * dx,
            decreases w - dx,
        {
            proof {
                assert(255 * (dy as int * w as int) + 255 * w <= 255 * (MAX_DIM as int
                    * MAX_DIM as int)) by (nonlinear_arith)
                    requires
                        dy < h,
                        1 <= w <= MAX_DIM as int,
                        1 <= h <= MAX_DIM as int,
                ;
            }
            let p = img.get((x + dx) as usize, (y + dy) as usize);
            ar = ar + p.0 as u128;
            ag = ag + p.1 as u128;
            ab = ab + p.2 as u128;
            dx = dx + 1;
        }
        proof {
            assert((dy as int + 1) * (w as int) == dy as int * w as int + w as int)
                by (nonlinear_arith);
        }
        dy = dy + 1;
    }
    proof {
        lemma_rect_sum_bounds(*img, x as int, y as int, w as int, h as int, 0);
        lemma_rect_sum_bounds(*img, x as int, y as int, w as int, h as int, 1);
        lemma_rect_sum_bounds(*img, x as int, y as int, w as int, h as int, 2);
        assert(w as int * h as int == (w as int) * (h as int) && w as int * h as int
            <= 0xFFFF_FFFF_FFFF_FFFF && 1 <= w as int * h as int) by (nonlinear_arith)
            requires
                1 <= w <= MAX_DIM as int,
                1 <= h <= MAX_DIM as int,
        ;
    }
    let den: u128 = (w as u128) * (h as u128);
    (Mean { sum: ar, den }, Mean { sum: ag, den }, Mean { sum: ab, den })
}

/// The character-set index for the given mean: `round(mean / 255 * len)`
/// clamped to the set.
pub fn get_index(char_set_len: usize, mean: Mean) -> (r: usize)
    requires
        1 <= char_set_len <= MAX_CHAR_SET_LEN,
        mean.wf(),
    ensures
        r == char_index_spec(char_set_len as int, mean.sum as int, mean.den as int),
        r < char_set_len,
{
    proof {
        assert(2 * (mean.sum as int) * (char_set_len as int) + 255 * (mean.den as int) <= u128::MAX
            && 2 * (mean.sum as int) * (char_set_len as int) == 2 * (mean.sum as int
            * char_set_len as int)) by (nonlinear_arith)
            requires
                mean.sum as int <= 255 * (mean.den as int),
                1 <= mean.den as int <= 0xFFFF_FFFF_FFFF_FFFF,
                1 <= char_set_len as int <= MAX_CHAR_SET_LEN as int,
        ;
        lemma_char_index_range(char_set_len as int, mean.sum as int, mean.den as int);
    }
    let num: u128 = 2 * mean.sum * (char_set_len as u128) + 255 * mean.den;
    let d: u128 = 510 * mean.den;
    let i: u128 = num / d;
    proof {
        assert(num as int / d as int == round_nearest_div(
            mean.sum as int * char_set_len as int,
            255 * (mean.den as int),
        ));
    }
    if i <= (char_set_len - 1) as u128 {
        i as usize
    } else {
        char_set_len - 1
    }
}

/// How many whole blocks fit across and down the image: the block grid's
/// dimensions, truncating any remainder at the right and bottom edges.
pub fn get_blocks_num(img: &PixelGrid, block_size: [usize; 2]) -> (r: (u32, u32))
    requires
        img.wf(),
        1 <= block_size[0],
        1 <= block_size[1],
    ensures
        r.0 == img.w() / block_size[0] as int,
        r.1 == img.h() / block_size[1] as int,
{
    proof {
        lemma_div_nonincreasing(img.w(), block_size[0] as int);
        lemma_div_nonincreasing(img.h(), block_size[1] as int);
        lemma_div_pos_is_pos(img.w(), block_size[0] as int);
        lemma_div_pos_is_pos(img.h(), block_size[1] as int);
    }
    let cols = img.width() / block_size[0];
    let rows = img.height() / block_size[1];
    (cols as u32, rows as u32)
}

/// The character at `index` in the set, counting characters, not bytes.
pub fn get_char_(char_set: &str, index: usize) -> (c: char)
    requires
        index < char_set@.len(),
    ensures
        c == char_set@[index as int],
{
    char_set.get_char(index)
}

/// The character the set assigns to the given mean.
pub fn get_char(char_set: &str, mean: Mean) -> (c: char)
    requires
        1 <= char_set@.len() <= MAX_CHAR_SET_LEN,
        mean.wf(),
    ensures
        c == char_set@[char_index_spec(char_set@.len() as int, mean.sum as int, mean.den as int)],
{
    let len = char_set.unicode_len();
    let index = get_index(len, mean);
    get_char_(char_set, index)
}

/// Draw the single character `text` into the cell
/// `[x, x + size[0]) x [y, y + size[1])` of `img`: the cell's pixels become
/// the font rendering of the character over what the cell held, at a scale
/// one pixel short of the cell on each axis so the glyph stays clear of the
/// next cell, in the override color if given, else black in light mode and
/// white in dark mode; every pixel outside the cell keeps its value. Fails
/// exactly when the font bytes are unusable, leaving the image untouched.
pub fn write_text(
    text: &str,
    img: &mut PixelGrid,
    x: i32,
    y: i32,
    font: &[u8],
    dark_mode: bool,
    size: [usize; 2],
    color: Option<[u8; 3]>,
) -> (res: Result<(), FontError>)
    requires
        old(img).wf(),
        text@.len() == 1,
        0 <= x,
        0 <= y,
        1 <= size[0] <= MAX_CELL_DIM,
        1 <= size[1] <= MAX_CELL_DIM,
        x + size[0] <= old(img).w(),
        y + size[1] <= old(img).h(),
    ensures
        final(img).wf(),
        final(img).w() == old(img).w(),
        final(img).h() == old(img).h(),
        res is Ok <==> font_ok(font@),
        res is Err ==> *final(img) == *old(img),
        res is Ok ==> forall|dx: int, dy: int, c: int|
            0 <= dx < size[0] && 0 <= dy < size[1] && 0 <= c < 3
                ==> #[trigger] final(img).chan(x + dx, y + dy, c) == drawn_cell(
                text@,
                size[0] as int,
                size[1] as int,
                rect_seq(*old(img), x as int, y as int, size[0] as int, size[1] as int),
                size[0] - 1,
                size[1] - 1,
                glyph_color(dark_mode, color).0,
                glyph_color(dark_mode, color).1,
                glyph_color(dark_mode, color).2,
                font@,
            )[3 * (dy * size[0] + dx) + c],
        res is Ok ==> forall|px: int, py: int, c: int|
            0 <= px < final(img).w() && 0 <= py < final(img).h() && 0 <= c < 3 && !(x <= px < x
                + size[0] && y <= py < y + size[1]) ==> final(img).chan(px, py, c) == old(
                img,
            ).chan(px, py, c),
{
    let bw = size[0];
    let bh = size[1];
    let (fr, fg, fb) = match color {
        Some(c) => (c[0], c[1], c[2]),
        None => {
            if dark_mode {
                (255u8, 255u8, 255u8)
            } else {
                (0u8, 0u8, 0u8)
            }
        },
    };
    let xu = x as usize;
    let yu = y as usize;
    let base = img.rect_bytes(xu, yu, bw, bh);
    proof {
        let bs = rect_seq(*img, x as int, y as int, bw as int, bh as int);
        assert forall|i: int| 0 <= i < base@.len() implies base@[i] == bs[i] by {
            lemma_flat_recover(bw as int, bh as int, i);
            let dx = (i / 3) % (bw as int);
            let dy = (i / 3) / (bw as int);
            let c = i % 3;
            assert(base@[3 * (dy * bw + dx) + c] == img.chan(x + dx, y + dy, c));
        }
        assert(base@ =~= bs);
    }
    match draw_text_cell(text, bw, bh, base, bw - 1, bh - 1, fr, fg, fb, font) {
        Ok(cell) => {
            img.write_rect(xu, yu, bw, bh, &cell);
            Ok(())
        },
        Err(e) => Err(e),
    }
}

} // verus!
