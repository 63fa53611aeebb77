use vstd::prelude::*;
use vstd::arithmetic::div_mod::lemma_fundamental_div_mod_converse;

verus! {

/// Largest width or height a grid may have; keeps every pixel coordinate
/// representable in `u32` and `i32`.
pub const MAX_DIM: usize = 0x7FFF_FFFF;

/// A raster of `width * height` RGB pixels stored row-major, three bytes per
/// pixel, exactly as an image decoder hands them out: the bytes of the pixel
/// at column `x`, row `y` sit at offset `3 * (y * width + x)`.
pub struct PixelGrid {
    width: usize,
    height: usize,
    data: Vec<u8>,
}

impl PixelGrid {
    /// The width in pixels.
    pub closed spec fn w(&self) -> int {
        self.width as int
    }

    /// The height in pixels.
    pub closed spec fn h(&self) -> int {
        self.height as int
    }

    /// Well-formed: three bytes per pixel, with dimensions small enough that
    /// every flat offset fits in `usize`.
    pub closed spec fn wf(&self) -> bool {
        &&& self.data@.len() == 3 * self.w() * self.h()
        &&& self.w() <= MAX_DIM
        &&& self.h() <= MAX_DIM
        &&& 3 * self.w() * self.h() <= usize::MAX
    }

    /// Channel `c` (0 red, 1 green, 2 blue) of the pixel at `(x, y)`.
    pub closed spec fn chan(&self, x: int, y: int, c: int) -> u8 {
        self.data@[3 * (y * self.w() + x) + c]
    }

    pub fn width(&self) -> (r: usize)
        ensures
            r == self.w(),
    {
        self.width
    }

    pub fn height(&self) -> (r: usize)
        ensures
            r == self.h(),
    {
        self.height
    }

    /// Read the pixel at `(x, y)` as its three channels.
    pub fn get(&self, x: usize, y: usize) -> (p: (u8, u8, u8))
        requires
            self.wf(),
            x < self.w(),
            y < self.h(),
        ensures
            p.0 == self.chan(x as int, y as int, 0),
            p.1 == self.chan(x as int, y as int, 1),
            p.2 == self.chan(x as int, y as int, 2),
    {
        proof {
            lemma_flat_index(self.w(), self.h(), x as int, y as int, 0);
            lemma_flat_index(self.w(), self.h(), x as int, y as int, 2);
        }
        let base: usize = 3 * (y * self.width + x);
        (self.data[base], self.data[base + 1], self.data[base + 2])
    }

    /// Overwrite the pixel at `(x, y)`; every other pixel keeps its value.
    pub fn set(&mut self, x: usize, y: usize, r: u8, g: u8, b: u8)
        requires
            old(self).wf(),
            x < old(self).w(),
            y < old(self).h(),
        ensures
            final(self).wf(),
            final(self).w() == old(self).w(),
            final(self).h() == old(self).h(),
            final(self).chan(x as int, y as int, 0) == r,
            final(self).chan(x as int, y as int, 1) == g,
            final(self).chan(x as int, y as int, 2) == b,
            forall|xx: int, yy: int, cc: int|
                0 <= xx < final(self).w() && 0 <= yy < final(self).h() && 0 <= cc < 3 && !(xx
                    == x && yy == y) ==> final(self).chan(xx, yy, cc) == old(self).chan(xx, yy, cc),
    {
        proof {
            lemma_flat_index(self.w(), self.h(), x as int, y as int, 0);
            lemma_flat_index(self.w(), self.h(), x as int, y as int, 2);
        }
        let base: usize = 3 * (y * self.width + x);
        self.data.set(base, r);
        self.data.set(base + 1, g);
        self.data.set(base + 2, b);
        proof {
            assert forall|xx: int, yy: int, cc: int|
                0 <= xx < self.w() && 0 <= yy < self.h() && 0 <= cc < 3 && !(xx == x && yy == y)
                    implies self.chan(xx, yy, cc) == old(self).chan(xx, yy, cc) by {
                lemma_flat_index(self.w(), self.h(), xx, yy, cc);
                lemma_flat_index(self.w(), self.h(), x as int, y as int, cc);
            }
        }
    }

    /// A `width` by `height` grid with every pixel set to `(r, g, b)`.
    pub fn new(width: usize, height: usize, r: u8, g: u8, b: u8) -> (grid: PixelGrid)
        requires
            width <= MAX_DIM,
            height <= MAX_DIM,
            3 * width * height <= usize::MAX,
        ensures
            grid.wf(),
            grid.w() == width,
            grid.h() == height,
            forall|x: int, y: int| 0 <= x < width && 0 <= y < height ==> {
                &&& grid.chan(x, y, 0) == r
                &&& grid.chan(x, y, 1) == g
                &&& grid.chan(x, y, 2) == b
            },
    {
        proof {
            assert(0 <= width * height && 3 * (width * height) == 3 * width * height)
                by (nonlinear_arith);
        }
        let px: usize = width * height;
        let mut data: Vec<u8> = Vec::new();
        let mut i: usize = 0;
        while i < px
            invariant
                i <= px,
                px == width * height,
                3 * px <= usize::MAX,
                data@.len() == 3 * i,
                forall|j: int| 0 <= j < i ==> {
                    &&& data@[#[trigger] (3 * j)] == r
                    &&& data@[3 * j + 1] == g
                    &&& data@[3 * j + 2] == b
                },
            decreases px - i,
        {
            data.push(r);
            data.push(g);
            data.push(b);
            i = i + 1;
        }
        let grid = PixelGrid { width, height, data };
        proof {
            assert forall|x: int, y: int| 0 <= x < width && 0 <= y < height implies {
                &&& grid.chan(x, y, 0) == r
                &&& grid.chan(x, y, 1) == g
                &&& grid.chan(x, y, 2) == b
            } by {
                lemma_flat_index(width as int, height as int, x, y, 0);
                assert(grid.data@[3 * (y * width + x)] == r);
                assert(grid.data@[3 * (y * width + x) + 1] == g);
                assert(grid.data@[3 * (y * width + x) + 2] == b);
            }
        }
        grid
    }

    /// Wrap a raw buffer of `3 * width * height` bytes, laid out as
    /// `image::RgbImage::into_raw` produces them, as a grid.
    pub fn from_raw(width: usize, height: usize, data: Vec<u8>) -> (grid: PixelGrid)
        requires
            width <= MAX_DIM,
            height <= MAX_DIM,
            data@.len() == 3 * width * height,
        ensures
            grid.wf(),
            grid.w() == width,
            grid.h() == height,
            forall|x: int, y: int, c: int| 0 <= x < width && 0 <= y < height && 0 <= c < 3
                ==> grid.chan(x, y, c) == data@[3 * (y * width + x) + c],
    {
        // Reading the length brings `data@.len() <= usize::MAX` into scope,
        // which well-formedness needs.
        let n = data.len();
        PixelGrid { width, height, data }
    }

    /// Fill the rectangle `[x0, x0 + rw) x [y0, y0 + rh)` with `(r, g, b)`;
    /// every pixel outside it keeps its value.
    pub fn fill_rect(&mut self, x0: usize, y0: usize, rw: usize, rh: usize, r: u8, g: u8, b: u8)
        requires
            old(self).wf(),
            x0 + rw <= old(self).w(),
            y0 + rh <= old(self).h(),
        ensures
            final(self).wf(),
            final(self).w() == old(self).w(),
            final(self).h() == old(self).h(),
            forall|x: int, y: int| x0 <= x < x0 + rw && y0 <= y < y0 + rh ==> {
                &&& #[trigger] final(self).chan(x, y, 0) == r
                &&& final(self).chan(x, y, 1) == g
                &&& final(self).chan(x, y, 2) == b
            },
            forall|x: int, y: int, c: int|
                0 <= x < final(self).w() && 0 <= y < final(self).h() && 0 <= c < 3 && !(x0 <= x
                    < x0 + rw && y0 <= y < y0 + rh) ==> final(self).chan(x, y, c) == old(
                self,
            ).chan(x, y, c),
    {
        let mut dy: usize = 0;
        while dy < rh
            invariant
                dy <= rh,
                self.wf(),
                self.w() == old(self).w(),
                self.h() == old(self).h(),
                x0 + rw <= self.w(),
                y0 + rh <= self.h(),
                forall|x: int, y: int| x0 <= x < x0 + rw && y0 <= y < y0 + dy ==> {
                    &&& #[trigger] self.chan(x, y, 0) == r
                    &&& self.chan(x, y, 1) == g
                    &&& self.chan(x, y, 2) == b
                },
                forall|x: int, y: int, c: int|
                    0 <= x < self.w() && 0 <= y < self.h() && 0 <= c < 3 && !(x0 <= x < x0 + rw
                        && y0 <= y < y0 + dy) ==> self.chan(x, y, c) == old(self).chan(x, y, c),
            decreases rh - dy,
        {
            let mut dx: usize = 0;
            while dx < rw
                invariant
                    dx <= rw,
                    dy < rh,
                    self.wf(),
                    self.w() == old(self).w(),
                    self.h() == old(self).h(),
                    x0 + rw <= self.w(),
                    y0 + rh <= self.h(),
                    forall|x: int, y: int|
                        x0 <= x < x0 + rw && y0 <= y < y0 + dy || y == y0 + dy && x0 <= x < x0
                            + dx ==> {
                            &&& #[trigger] self.chan(x, y, 0) == r
                            &&& self.chan(x, y, 1) == g
                            &&& self.chan(x, y, 2) == b
                        },
                    forall|x: int, y: int, c: int|
                        0 <= x < self.w() && 0 <= y < self.h() && 0 <= c < 3 && !(x0 <= x < x0
                            + rw && y0 <= y < y0 + dy) && !(y == y0 + dy && x0 <= x < x0 + dx)
                            ==> self.chan(x, y, c) == old(self).chan(x, y, c),
                decreases rw - dx,
            {
                let ghost prev = *self;
                self.set(x0 + dx, y0 + dy, r, g, b);
                proof {
                    assert forall|x: int, y: int|
                        x0 <= x < x0 + rw && y0 <= y < y0 + dy || y == y0 + dy && x0 <= x < x0
                            + dx implies {
                        &&& #[trigger] self.chan(x, y, 0) == r
                        &&& self.chan(x, y, 1) == g
                        &&& self.chan(x, y, 2) == b
                    } by {
                        assert(prev.chan(x, y, 0) == r);
                        assert(prev.chan(x, y, 1) == g);
                        assert(prev.chan(x, y, 2) == b);
                    }
                }
                dx = dx + 1;
            }
            dy = dy + 1;
        }
    }

    /// The bytes of the rectangle `[x0, x0 + rw) x [y0, y0 + rh)`, row-major,
    /// three per pixel.
    pub fn rect_bytes(&self, x0: usize, y0: usize, rw: usize, rh: usize) -> (cell: Vec<u8>)
        requires
            self.wf(),
            x0 + rw <= self.w(),
            y0 + rh <= self.h(),
        ensures
            cell@.len() == 3 * (rw * rh),
            forall|dx: int, dy: int, c: int| 0 <= dx < rw && 0 <= dy < rh && 0 <= c < 3
                ==> #[trigger] cell@[3 * (dy * rw + dx) + c] == self.chan(x0 + dx, y0 + dy, c),
    {
        let mut cell: Vec<u8> = Vec::new();
        let mut dy: usize = 0;
        while dy < rh
            invariant
                dy <= rh,
                self.wf(),
                x0 + rw <= self.w(),
                y0 + rh <= self.h(),
                cell@.len() == 3 * (dy * rw),
                forall|dx: int, yy: int, c: int| 0 <= dx < rw && 0 <= yy < dy && 0 <= c < 3
                    ==> #[trigger] cell@[3 * (yy * rw + dx) + c] == self.chan(x0 + dx, y0 + yy, c),
            decreases rh - dy,
        {
            let mut dx: usize = 0;
            proof {
                assert((dy + 1) * rw == dy * rw + rw) by (nonlinear_arith);
            }
            while dx < rw
                invariant
                    dx <= rw,
                    dy < rh,
                    self.wf(),
                    x0 + rw <= self.w(),
                    y0 + rh <= self.h(),
                    cell@.len() == 3 * (dy * rw) + 3 * dx,
                    forall|xx: int, yy: int, c: int| 0 <= xx < rw && 0 <= yy < dy && 0 <= c < 3
                        ==> #[trigger] cell@[3 * (yy * rw + xx) + c] == self.chan(x0 + xx, y0 + yy, c),
                    forall|xx: int, c: int| 0 <= xx < dx && 0 <= c < 3
                        ==> #[trigger] cell@[3 * (dy * rw + xx) + c] == self.chan(x0 + xx, y0 + dy, c),
                decreases rw - dx,
            {
                let p = self.get(x0 + dx, y0 + dy);
                cell.push(p.0);
                cell.push(p.1);
                cell.push(p.2);
                dx = dx + 1;
                proof {
                    assert forall|xx: int, yy: int, c: int|
                        0 <= xx < rw && 0 <= yy < dy && 0 <= c < 3 implies #[trigger] cell@[3 * (yy * rw + xx) + c] == self.chan(x0 + xx, y0 + yy, c) by {
                        lemma_flat_index(rw as int, dy as int, xx, yy, c);
                    }
                }
            }
            dy = dy + 1;
        }
        proof {
            assert(3 * (rh * rw) == 3 * (rw * rh)) by (nonlinear_arith);
        }
        cell
    }

    /// Overwrite the rectangle `[x0, x0 + rw) x [y0, y0 + rh)` with the given
    /// cell bytes (row-major, three per pixel); every pixel outside it keeps
    /// its value.
    pub fn write_rect(&mut self, x0: usize, y0: usize, rw: usize, rh: usize, cell: &Vec<u8>)
        requires
            old(self).wf(),
            x0 + rw <= old(self).w(),
            y0 + rh <= old(self).h(),
            cell@.len() == 3 * (rw * rh),
        ensures
            final(self).wf(),
            final(self).w() == old(self).w(),
            final(self).h() == old(self).h(),
            forall|dx: int, dy: int, c: int| 0 <= dx < rw && 0 <= dy < rh && 0 <= c < 3
                ==> #[trigger] final(self).chan(x0 + dx, y0 + dy, c) == cell@[3 * (dy * rw + dx)
                + c],
            forall|x: int, y: int, c: int|
                0 <= x < final(self).w() && 0 <= y < final(self).h() && 0 <= c < 3 && !(x0 <= x
                    < x0 + rw && y0 <= y < y0 + rh) ==> final(self).chan(x, y, c) == old(
                self,
            ).chan(x, y, c),
    {
        let mut dy: usize = 0;
        while dy < rh
            invariant
                dy <= rh,
                self.wf(),
                self.w() == old(self).w(),
                self.h() == old(self).h(),
                x0 + rw <= self.w(),
                y0 + rh <= self.h(),
                cell@.len() == 3 * (rw * rh),
                forall|dx: int, yy: int, c: int| 0 <= dx < rw && 0 <= yy < dy && 0 <= c < 3
                    ==> #[trigger] self.chan(x0 + dx, y0 + yy, c) == cell@[3 * (yy * rw + dx) + c],
                forall|x: int, y: int, c: int|
                    0 <= x < self.w() && 0 <= y < self.h() && 0 <= c < 3 && !(x0 <= x < x0 + rw
                        && y0 <= y < y0 + dy) ==> self.chan(x, y, c) == old(self).chan(x, y, c),
            decreases rh - dy,
        {
            let mut dx: usize = 0;
            while dx < rw
                invariant
                    dx <= rw,
                    dy < rh,
                    self.wf(),
                    self.w() == old(self).w(),
                    self.h() == old(self).h(),
                    x0 + rw <= self.w(),
                    y0 + rh <= self.h(),
                    cell@.len() == 3 * (rw * rh),
                    forall|xx: int, yy: int, c: int| 0 <= xx < rw && 0 <= yy < dy && 0 <= c < 3
                        ==> #[trigger] self.chan(x0 + xx, y0 + yy, c) == cell@[3 * (yy * rw + xx)
                        + c],
                    forall|xx: int, c: int| 0 <= xx < dx && 0 <= c < 3
                        ==> #[trigger] self.chan(x0 + xx, y0 + dy, c) == cell@[3 * (dy * rw + xx)
                        + c],
                    forall|x: int, y: int, c: int|
                        0 <= x < self.w() && 0 <= y < self.h() && 0 <= c < 3 && !(x0 <= x < x0
                            + rw && y0 <= y < y0 + dy) && !(y == y0 + dy && x0 <= x < x0 + dx)
                            ==> self.chan(x, y, c) == old(self).chan(x, y, c),
                decreases rw - dx,
            {
                let clen = cell.len();
                proof {
                    lemma_flat_index(rw as int, rh as int, dx as int, dy as int, 0);
                    lemma_flat_index(rw as int, rh as int, dx as int, dy as int, 2);
                }
                let base: usize = 3 * (dy * rw + dx);
                self.set(x0 + dx, y0 + dy, cell[base], cell[base + 1], cell[base + 2]);
                dx = dx + 1;
            }
            dy = dy + 1;
        }
    }

    /// Copy `src` whole into `self`, its top-left corner at `(x0, y0)`.
    pub fn copy_from(&mut self, src: &PixelGrid, x0: usize, y0: usize)
        requires
            old(self).wf(),
            src.wf(),
            x0 + src.w() <= old(self).w(),
            y0 + src.h() <= old(self).h(),
        ensures
            final(self).wf(),
            final(self).w() == old(self).w(),
            final(self).h() == old(self).h(),
            forall|dx: int, dy: int, c: int| 0 <= dx < src.w() && 0 <= dy < src.h() && 0 <= c < 3
                ==> #[trigger] final(self).chan(x0 + dx, y0 + dy, c) == src.chan(dx, dy, c),
            forall|x: int, y: int, c: int|
                0 <= x < final(self).w() && 0 <= y < final(self).h() && 0 <= c < 3 && !(x0 <= x
                    < x0 + src.w() && y0 <= y < y0 + src.h()) ==> final(self).chan(x, y, c) == old(
                self,
            ).chan(x, y, c),
    {
        let cell = src.rect_bytes(0, 0, src.width(), src.height());
        self.write_rect(x0, y0, src.width(), src.height(), &cell);
    }

    /// The raw bytes, in the layout `image::RgbImage::from_raw` expects.
    pub fn into_raw(self) -> (data: Vec<u8>)
        requires
            self.wf(),
        ensures
            data@.len() == 3 * self.w() * self.h(),
            forall|x: int, y: int, c: int| 0 <= x < self.w() && 0 <= y < self.h() && 0 <= c < 3
                ==> data@[3 * (y * self.w() + x) + c] == self.chan(x, y, c),
    {
        self.data
    }
}

/// What well-formedness says of a grid's dimensions, stated for callers.
pub broadcast proof fn lemma_wf_dims(g: &PixelGrid)
    requires
        #[trigger] g.wf(),
    ensures
        0 <= g.w() <= MAX_DIM,
        0 <= g.h() <= MAX_DIM,
        3 * g.w() * g.h() <= usize::MAX,
{
}

/// Where channel `c` of pixel `(x, y)` lands in a `w` by `h` flat buffer, and
/// how the coordinates are recovered from the flat offset.
pub proof fn lemma_flat_index(w: int, h: int, x: int, y: int, c: int)
    requires
        0 <= x < w,
        0 <= y < h,
        0 <= c < 3,
    ensures
        0 <= 3 * (y * w + x) + c < 3 * w * h,
        0 <= 3 * (y * w + x) + c < 3 * (w * h),
        3 * (w * h) == 3 * w * h,
        (3 * (y * w + x) + c) % 3 == c,
        ((3 * (y * w + x) + c) / 3) % w == x,
        ((3 * (y * w + x) + c) / 3) / w == y,
{
    let i = 3 * (y * w + x) + c;
    assert(0 <= y * w + x <= w * h - 1 && 3 * (w * h) == 3 * w * h) by (nonlinear_arith)
        requires
            0 <= x < w,
            0 <= y < h,
    ;
    lemma_fundamental_div_mod_converse(i, 3, y * w + x, c);
    lemma_fundamental_div_mod_converse(y * w + x, w, y, x);
}

} // verus!
