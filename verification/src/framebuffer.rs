//! The pixel buffer: a `width * height` array of packed `0xRRGGBB` colors
//! with bounds-checked point writes, bulk clear, and vertical flip.

use vstd::prelude::*;

verus! {

/// An integer pixel coordinate. Drawing accepts any coordinates; writes
/// that land outside the buffer are silently ignored.
#[derive(Clone, Copy, PartialEq, Eq, Structural, Debug)]
pub struct Point {
    pub x: i32,
    pub y: i32,
}

/// The errors the rasterizer itself can raise. I/O failures belong to the
/// caller that owns the output file, not to this library.
#[derive(Clone, Copy, PartialEq, Eq, Structural, Debug)]
pub enum RasterError {
    /// A buffer was requested with zero width or zero height.
    InvalidDimension,
}

/// Row-major pixel storage: the pixel at column `x` of row `y` lives at
/// index `y * width + x`.
pub struct Framebuffer {
    pub width: usize,
    pub height: usize,
    pub pixels: Vec<u32>,
    /// The color `clear` floods the buffer with.
    pub background_color: u32,
    /// The active draw color used by point-level writes.
    pub current_color: u32,
}

/// One bounds-checked point write: the result of storing color `c` at
/// `(pt.0, pt.1)` in a `w * h` row-major pixel array `p`. Out-of-bounds
/// coordinates leave the array unchanged.
pub open spec fn plot1(p: Seq<u32>, w: int, h: int, pt: (int, int), c: u32) -> Seq<u32> {
    if 0 <= pt.0 < w && 0 <= pt.1 < h {
        p.update(pt.1 * w + pt.0, c)
    } else {
        p
    }
}

/// A row-major index built from in-range column and row is itself in range.
pub proof fn lemma_row_major_index(w: int, h: int, x: int, y: int)
    requires
        0 <= x < w,
        0 <= y < h,
    ensures
        0 <= y * w + x < w * h,
{
    assert(0 <= y * w + x < w * h) by (nonlinear_arith)
        requires
            0 <= x < w,
            0 <= y < h,
    ;
}

/// Splits a flat row-major index into its row `i / w` and column `i % w`.
pub proof fn lemma_flat_index(w: int, h: int, i: int)
    requires
        1 <= w,
        0 <= i < w * h,
    ensures
        0 <= i % w < w,
        0 <= i / w < h,
        i == (i / w) * w + (i % w),
{
    vstd::arithmetic::div_mod::lemma_fundamental_div_mod(i, w);
    assert(0 <= i % w < w) by (nonlinear_arith)
        requires
            1 <= w,
            0 <= i,
    ;
    assert(0 <= i / w < h) by (nonlinear_arith)
        requires
            1 <= w,
            0 <= i < w * h,
            i == w * (i / w) + (i % w),
            0 <= i % w < w,
    ;
}

/// The flat index the pixel of row `i / w`, column `i % w` moves to when
/// row order is reversed.
pub open spec fn flip_index(i: int, w: int, h: int) -> int {
    (h - 1 - i / w) * w + (i % w)
}

/// `p1` is `p0` with its row order reversed: each pixel of `p1` is the
/// pixel of `p0` in the mirrored row, same column.
pub open spec fn row_flipped(p0: Seq<u32>, p1: Seq<u32>, w: int, h: int) -> bool {
    &&& p1.len() == p0.len()
    &&& forall|i: int| 0 <= i < p1.len() ==> p1[i] == p0[flip_index(i, w, h)]
}

impl Framebuffer {
    /// The storage matches the declared dimensions.
    pub open spec fn wf(&self) -> bool {
        self.pixels.len() == self.width * self.height
    }

    pub open spec fn in_bounds(&self, x: int, y: int) -> bool {
        0 <= x < self.width && 0 <= y < self.height
    }

    pub open spec fn pixel_at(&self, x: int, y: int) -> u32 {
        self.pixels[y * self.width + x]
    }

    /// The dimensions and the two color registers are those of `other`;
    /// only the pixel array may differ.
    pub open spec fn same_frame(&self, other: &Framebuffer) -> bool {
        &&& self.width == other.width
        &&& self.height == other.height
        &&& self.background_color == other.background_color
        &&& self.current_color == other.current_color
    }

    /// Allocates a buffer of `width * height` pixels, every pixel, the
    /// background color, and the current color all `0`. Zero width or
    /// height is rejected with `InvalidDimension`.
    pub fn new(width: usize, height: usize) -> (r: Result<Framebuffer, RasterError>)
        requires
            width * height <= usize::MAX,
        ensures
            r is Err <==> (width == 0 || height == 0),
            r is Err ==> r == Result::<Framebuffer, RasterError>::Err(RasterError::InvalidDimension),
            r matches Ok(fb) ==> ({
                &&& fb.wf()
                &&& fb.width == width
                &&& fb.height == height
                &&& fb.background_color == 0u32
                &&& fb.current_color == 0u32
                &&& forall|i: int| 0 <= i < fb.pixels.len() ==> fb.pixels[i] == 0u32
            }),
    {
        if width == 0 || height == 0 {
            return Err(RasterError::InvalidDimension);
        }
        let n = width * height;
        let mut pixels: Vec<u32> = Vec::new();
        let mut i: usize = 0;
        while i < n
            invariant
                i <= n,
                pixels.len() == i,
                forall|k: int| 0 <= k < i ==> pixels[k] == 0u32,
            decreases n - i,
        {
            pixels.push(0u32);
            i = i + 1;
        }
        Ok(Framebuffer { width, height, pixels, background_color: 0, current_color: 0 })
    }

    /// Stores the color later `clear` calls flood the buffer with.
    pub fn set_background_color(&mut self, color: u32)
        ensures
            final(self).width == old(self).width,
            final(self).height == old(self).height,
            final(self).pixels == old(self).pixels,
            final(self).current_color == old(self).current_color,
            final(self).background_color == color,
    {
        self.background_color = color;
    }

    /// Stores the active draw color used by point-level writes.
    pub fn set_current_color(&mut self, color: u32)
        ensures
            final(self).width == old(self).width,
            final(self).height == old(self).height,
            final(self).pixels == old(self).pixels,
            final(self).background_color == old(self).background_color,
            final(self).current_color == color,
    {
        self.current_color = color;
    }

    /// Sets every pixel to the background color.
    pub fn clear(&mut self)
        requires
            old(self).wf(),
        ensures
            final(self).wf(),
            final(self).same_frame(old(self)),
            final(self).pixels.len() == old(self).pixels.len(),
            forall|i: int| 0 <= i < final(self).pixels.len()
                ==> final(self).pixels[i] == old(self).background_color,
    {
        let n = self.pixels.len();
        let mut i: usize = 0;
        while i < n
            invariant
                i <= n,
                n == self.pixels.len(),
                self.same_frame(old(self)),
                self.wf(),
                forall|k: int| 0 <= k < i ==> self.pixels[k] == old(self).background_color,
            decreases n - i,
        {
            let c = self.background_color;
            self.pixels[i] = c;
            i = i + 1;
        }
    }

    /// Writes the current color at `(x, y)` if that lies inside the
    /// buffer; out-of-bounds writes are a no-op, never an error.
    pub fn point(&mut self, x: usize, y: usize)
        requires
            old(self).wf(),
        ensures
            final(self).wf(),
            final(self).same_frame(old(self)),
            final(self).pixels@ == plot1(
                old(self).pixels@,
                old(self).width as int,
                old(self).height as int,
                (x as int, y as int),
                old(self).current_color,
            ),
    {
        if x < self.width && y < self.height {
            proof {
                lemma_row_major_index(self.width as int, self.height as int, x as int, y as int);
            }
            let idx = y * self.width + x;
            let c = self.current_color;
            self.pixels[idx] = c;
        }
    }

    /// Writes color `c` at signed coordinates `(x, y)`, ignoring writes
    /// that fall outside the buffer.
    pub fn set_pixel(&mut self, x: i64, y: i64, c: u32)
        requires
            old(self).wf(),
        ensures
            final(self).wf(),
            final(self).same_frame(old(self)),
            final(self).pixels@ == plot1(
                old(self).pixels@,
                old(self).width as int,
                old(self).height as int,
                (x as int, y as int),
                c,
            ),
    {
        if x >= 0 && y >= 0 && (x as u64) < (self.width as u64) && (y as u64) < (self.height as u64) {
            let xi = x as usize;
            let yi = y as usize;
            proof {
                lemma_row_major_index(self.width as int, self.height as int, xi as int, yi as int);
            }
            let idx = yi * self.width + xi;
            self.pixels[idx] = c;
        }
    }

    /// Reverses the row order: afterwards row `y` holds what row
    /// `height - 1 - y` held. This reconciles top-down drawing with the
    /// bottom-up row order of the bitmap file, applied once after all
    /// drawing completes.
    pub fn flip_vertical(&mut self)
        requires
            old(self).wf(),
            old(self).width >= 1,
            old(self).height >= 1,
        ensures
            final(self).wf(),
            final(self).same_frame(old(self)),
            row_flipped(
                old(self).pixels@,
                final(self).pixels@,
                old(self).width as int,
                old(self).height as int,
            ),
    {
        let w = self.width;
        let h = self.height;
        let mut out: Vec<u32> = Vec::new();
        let mut y: usize = 0;
        while y < h
            invariant
                y <= h,
                w == self.width,
                h == self.height,
                self.wf(),
                w >= 1,
                out.len() == y * w,
                forall|i: int| 0 <= i < out.len()
                    ==> out[i] == self.pixels[flip_index(i, w as int, h as int)],
            decreases h - y,
        {
            let mut x: usize = 0;
            while x < w
                invariant
                    y < h,
                    x <= w,
                    w == self.width,
                    h == self.height,
                    self.wf(),
                    w >= 1,
                    out.len() == y * w + x,
                    forall|i: int| 0 <= i < out.len()
                        ==> out[i] == self.pixels[flip_index(i, w as int, h as int)],
                decreases w - x,
            {
                proof {
                    lemma_row_major_index(w as int, h as int, x as int, (h - 1 - y) as int);
                    lemma_row_major_index(w as int, h as int, x as int, y as int);
                }
                let src = (h - 1 - y) * w + x;
                let v = self.pixels[src];
                out.push(v);
                proof {
                    let i = y * w + x;
                    vstd::arithmetic::div_mod::lemma_fundamental_div_mod_converse(
                        i as int, w as int, y as int, x as int);
                    assert(flip_index(i as int, w as int, h as int) == src as int);
                }
                x = x + 1;
            }
            proof {
                assert((y as int + 1) * (w as int) == y as int * w as int + w as int)
                    by (nonlinear_arith);
            }
            y = y + 1;
        }
        proof {
            assert(h as int * w as int == w as int * h as int) by (nonlinear_arith);
        }
        self.pixels = out;
    }
}

/// After `clear`, reading any in-bounds pixel yields the background
/// color.
pub proof fn lemma_clear_reads_background(fb: Framebuffer, x: int, y: int)
    requires
        fb.wf(),
        fb.in_bounds(x, y),
        forall|i: int| 0 <= i < fb.pixels.len() ==> fb.pixels[i] == fb.background_color,
    ensures
        fb.pixel_at(x, y) == fb.background_color,
{
    lemma_row_major_index(fb.width as int, fb.height as int, x, y);
}

/// Flipping the row order twice restores every pixel, so `flip_vertical`
/// is its own inverse.
pub proof fn lemma_flip_vertical_involutive(p0: Seq<u32>, p1: Seq<u32>, p2: Seq<u32>, w: int, h: int)
    requires
        w >= 1,
        h >= 1,
        p0.len() == w * h,
        row_flipped(p0, p1, w, h),
        row_flipped(p1, p2, w, h),
    ensures
        p2 == p0,
{
    assert forall|i: int| 0 <= i < p2.len() implies p2[i] == p0[i] by {
        lemma_flat_index(w, h, i);
        let q = i / w;
        let r = i % w;
        let j = flip_index(i, w, h);
        lemma_row_major_index(w, h, r, h - 1 - q);
        vstd::arithmetic::div_mod::lemma_fundamental_div_mod_converse(j, w, h - 1 - q, r);
        assert(flip_index(j, w, h) == i);
    }
    assert(p2 =~= p0);
}

} // verus!
