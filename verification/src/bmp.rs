//! Byte-exact serialization of a pixel buffer into the legacy bitmap file
//! layout: a 14-byte file header, a 40-byte info header, then raw 24-bit
//! pixel data stored bottom-to-top in blue-green-red byte order, with no
//! row padding.

use vstd::prelude::*;
use crate::framebuffer::{Framebuffer, lemma_row_major_index};

verus! {

/// Byte `k` (0 to 3) of the little-endian encoding of `v`.
pub open spec fn le_byte(v: int, k: int) -> u8 {
    if k == 0 {
        (v % 256) as u8
    } else if k == 1 {
        ((v / 256) % 256) as u8
    } else if k == 2 {
        ((v / 65536) % 256) as u8
    } else {
        ((v / 16777216) % 256) as u8
    }
}

/// Byte `i` of the 54-byte header for a `w * h` image: the magic pair,
/// the total file size, reserved zeros, the fixed pixel-data offset 54,
/// the info-header size 40, the dimensions as little-endian 32-bit
/// values, one color plane, 24 bits per pixel, and zeros for compression
/// and the remaining info fields.
pub open spec fn header_byte(w: int, h: int, i: int) -> u8 {
    let fs = 54 + 3 * w * h;
    if i == 0 {
        66u8
    } else if i == 1 {
        77u8
    } else if i < 6 {
        le_byte(fs, i - 2)
    } else if i < 10 {
        0u8
    } else if i < 14 {
        le_byte(54, i - 10)
    } else if i < 18 {
        le_byte(40, i - 14)
    } else if i < 22 {
        le_byte(w, i - 18)
    } else if i < 26 {
        le_byte(h, i - 22)
    } else if i == 26 {
        1u8
    } else if i == 28 {
        24u8
    } else {
        0u8
    }
}

/// Byte `k` of the pixel data: rows bottom-to-top, pixels left-to-right,
/// three bytes per pixel in blue-green-red order (the color's low byte
/// first).
pub open spec fn pixel_byte(w: int, h: int, p: Seq<u32>, k: int) -> u8 {
    let pi = k / 3;
    let ch = k % 3;
    let fy = pi / w;
    let x = pi % w;
    le_byte(p[(h - 1 - fy) * w + x] as int, ch)
}

/// The complete bitmap file image of a `w * h` pixel array.
pub open spec fn bmp_bytes(w: int, h: int, p: Seq<u32>) -> Seq<u8> {
    Seq::new(
        (54 + 3 * w * h) as nat,
        |i: int|
            if i < 54 {
                header_byte(w, h, i)
            } else {
                pixel_byte(w, h, p, i - 54)
            },
    )
}

/// The 32-bit little-endian value stored at offset `off` of `b`.
pub open spec fn le32_at(b: Seq<u8>, off: int) -> int {
    b[off] + 256 * b[off + 1] + 65536 * b[off + 2] + 16777216 * b[off + 3]
}

/// The image width a bitmap parser reads back from the info header.
pub open spec fn parse_width(b: Seq<u8>) -> int {
    le32_at(b, 18)
}

/// The image height a bitmap parser reads back from the info header.
pub open spec fn parse_height(b: Seq<u8>) -> int {
    le32_at(b, 22)
}

/// The 24-bit color a bitmap parser reads back for the pixel at column
/// `x` of top-down row `y`, undoing the bottom-up row order and the
/// blue-green-red byte order.
pub open spec fn parse_pixel(b: Seq<u8>, w: int, h: int, x: int, y: int) -> int {
    let o = 54 + 3 * ((h - 1 - y) * w + x);
    b[o] + 256 * b[o + 1] + 65536 * b[o + 2]
}

/// The four little-endian bytes of a 32-bit value reassemble to it.
pub proof fn lemma_le4_value(v: int)
    requires
        0 <= v < 0x1_0000_0000,
    ensures
        le_byte(v, 0) + 256 * le_byte(v, 1) + 65536 * le_byte(v, 2) + 16777216 * le_byte(v, 3)
            == v,
        le_byte(v, 3) == v / 16777216,
{
    vstd::arithmetic::div_mod::lemma_fundamental_div_mod(v, 256);
    vstd::arithmetic::div_mod::lemma_fundamental_div_mod(v / 256, 256);
    vstd::arithmetic::div_mod::lemma_fundamental_div_mod(v / 65536, 256);
    vstd::arithmetic::div_mod::lemma_div_denominator(v, 256, 256);
    vstd::arithmetic::div_mod::lemma_div_denominator(v, 65536, 256);
    assert(0 <= v / 16777216 < 256) by (nonlinear_arith)
        requires
            0 <= v < 0x1_0000_0000,
    ;
    vstd::arithmetic::div_mod::lemma_small_mod((v / 16777216) as nat, 256);
    assert(0 <= v / 256 && 0 <= v / 65536) by (nonlinear_arith)
        requires
            0 <= v,
    ;
}

/// The three low little-endian bytes of a 32-bit value reassemble to its
/// low 24 bits.
pub proof fn lemma_le24_value(v: int)
    requires
        0 <= v < 0x1_0000_0000,
    ensures
        le_byte(v, 0) + 256 * le_byte(v, 1) + 65536 * le_byte(v, 2) == v % 16777216,
{
    lemma_le4_value(v);
    vstd::arithmetic::div_mod::lemma_fundamental_div_mod(v, 16777216);
}

/// A read-only snapshot of a pixel buffer, taken for encoding.
pub struct Bitmap {
    pub width: usize,
    pub height: usize,
    pub pixels: Vec<u32>,
}

impl Bitmap {
    /// The storage matches the declared dimensions.
    pub open spec fn wf(&self) -> bool {
        self.pixels.len() == self.width * self.height
    }

    /// Snapshots the framebuffer's dimensions and pixels.
    pub fn from_framebuffer(framebuffer: &Framebuffer) -> (bm: Bitmap)
        ensures
            bm.width == framebuffer.width,
            bm.height == framebuffer.height,
            bm.pixels@ == framebuffer.pixels@,
    {
        let width = framebuffer.width;
        let height = framebuffer.height;
        let n = framebuffer.pixels.len();
        let mut pixels: Vec<u32> = Vec::new();
        let mut i: usize = 0;
        while i < n
            invariant
                i <= n,
                n == framebuffer.pixels.len(),
                pixels@ == framebuffer.pixels@.subrange(0, i as int),
            decreases n - i,
        {
            let v = framebuffer.pixels[i];
            pixels.push(v);
            proof {
                assert(pixels@ =~= framebuffer.pixels@.subrange(0, i as int + 1));
            }
            i = i + 1;
        }
        proof {
            assert(pixels@ =~= framebuffer.pixels@);
        }
        Bitmap { width, height, pixels }
    }

    /// Serializes the snapshot into the exact bitmap file byte layout.
    /// The size bounds keep the 32-bit header fields exact; they admit
    /// any realistic image.
    #[verifier::loop_isolation(false)]
    pub fn encode(&self) -> (bytes: Vec<u8>)
        requires
            self.wf(),
            self.width <= 0x7FFF_FFFF,
            self.height <= 0x7FFF_FFFF,
            54 + 3 * (self.width as int) * (self.height as int) <= 0xFFFF_FFFF,
        ensures
            bytes@ == bmp_bytes(self.width as int, self.height as int, self.pixels@),
    {
        let w = self.width;
        let h = self.height;
        let ghost gw = w as int;
        let ghost gh = h as int;
        let mut bytes: Vec<u8> = Vec::new();
        let mut i: usize = 0;
        while i < 54
            invariant
                i <= 54,
                bytes@.len() == i,
                forall|t: int| 0 <= t < i ==> bytes@[t] == header_byte(gw, gh, t),
            decreases 54 - i,
        {
            let b = header_byte_exec(w as u64, h as u64, i);
            bytes.push(b);
            i = i + 1;
        }
        let mut fy: usize = 0;
        while fy < h
            invariant
                fy <= h,
                bytes@.len() == 54 + (fy * w) * 3,
                forall|t: int| 0 <= t < 54 ==> bytes@[t] == header_byte(gw, gh, t),
                forall|t: int| 54 <= t < bytes@.len() ==> bytes@[t] == pixel_byte(
                    gw,
                    gh,
                    self.pixels@,
                    t - 54,
                ),
            decreases h - fy,
        {
            let mut x: usize = 0;
            while x < w
                invariant
                    fy < h,
                    x <= w,
                    bytes@.len() == 54 + (fy * w + x) * 3,
                    forall|t: int| 0 <= t < 54 ==> bytes@[t] == header_byte(gw, gh, t),
                    forall|t: int| 54 <= t < bytes@.len() ==> bytes@[t] == pixel_byte(
                        gw,
                        gh,
                        self.pixels@,
                        t - 54,
                    ),
                decreases w - x,
            {
                proof {
                    lemma_row_major_index(gw, gh, x as int, gh - 1 - fy as int);
                    lemma_row_major_index(gw, gh, x as int, fy as int);
                }
                let src = (h - 1 - fy) * w + x;
                let v = self.pixels[src];
                bytes.push((v % 256) as u8);
                bytes.push(((v / 256) % 256) as u8);
                bytes.push(((v / 65536) % 256) as u8);
                proof {
                    let q = fy as int * gw + x as int;
                    vstd::arithmetic::div_mod::lemma_fundamental_div_mod_converse(
                        q,
                        gw,
                        fy as int,
                        x as int,
                    );
                    vstd::arithmetic::div_mod::lemma_fundamental_div_mod_converse(3 * q, 3, q, 0);
                    vstd::arithmetic::div_mod::lemma_fundamental_div_mod_converse(
                        3 * q + 1,
                        3,
                        q,
                        1,
                    );
                    vstd::arithmetic::div_mod::lemma_fundamental_div_mod_converse(
                        3 * q + 2,
                        3,
                        q,
                        2,
                    );
                    assert(pixel_byte(gw, gh, self.pixels@, 3 * q) == le_byte(
                        self.pixels@[(gh - 1 - fy as int) * gw + x as int] as int,
                        0,
                    ));
                }
                x = x + 1;
            }
            proof {
                assert((fy as int + 1) * gw == fy as int * gw + gw) by (nonlinear_arith);
            }
            fy = fy + 1;
        }
        proof {
            assert((gh * gw) * 3 == 3 * gw * gh) by (nonlinear_arith);
            assert(bytes@.len() == 54 + 3 * gw * gh);
            assert(bytes@ =~= bmp_bytes(gw, gh, self.pixels@));
        }
        bytes
    }
}

/// Byte `k` (0 to 3) of the little-endian encoding of `v`.
fn le_byte_exec(v: u64, k: usize) -> (b: u8)
    requires
        k < 4,
    ensures
        b == le_byte(v as int, k as int),
{
    if k == 0 {
        (v % 256) as u8
    } else if k == 1 {
        ((v / 256) % 256) as u8
    } else if k == 2 {
        ((v / 65536) % 256) as u8
    } else {
        ((v / 16777216) % 256) as u8
    }
}

/// Byte `i` of the 54-byte header for a `w * h` image.
fn header_byte_exec(w: u64, h: u64, i: usize) -> (b: u8)
    requires
        i < 54,
        54 + 3 * (w as int) * (h as int) <= 0xFFFF_FFFF,
    ensures
        b == header_byte(w as int, h as int, i as int),
{
    proof {
        assert(0 <= (w as int) * (h as int) && 3 * ((w as int) * (h as int)) == 3 * (w as int) * (
        h as int)) by (nonlinear_arith)
            requires
                w as int >= 0,
                h as int >= 0,
        ;
    }
    let wh: u64 = w * h;
    let fs: u64 = 54 + 3 * wh;
    if i == 0 {
        66
    } else if i == 1 {
        77
    } else if i < 6 {
        le_byte_exec(fs, i - 2)
    } else if i < 10 {
        0
    } else if i < 14 {
        le_byte_exec(54, i - 10)
    } else if i < 18 {
        le_byte_exec(40, i - 14)
    } else if i < 22 {
        le_byte_exec(w, i - 18)
    } else if i < 26 {
        le_byte_exec(h, i - 22)
    } else if i == 26 {
        1
    } else if i == 28 {
        24
    } else {
        0
    }
}

/// Round trip: a parser that reads the header and pixel data of an
/// encoded buffer back recovers the magic pair, the exact width and
/// height, and every pixel's 24-bit color.
pub proof fn lemma_encode_parse(w: int, h: int, p: Seq<u32>)
    requires
        1 <= w <= 0x7FFF_FFFF,
        1 <= h <= 0x7FFF_FFFF,
        p.len() == w * h,
        54 + 3 * w * h <= 0xFFFF_FFFF,
    ensures
        bmp_bytes(w, h, p).len() == 54 + 3 * w * h,
        bmp_bytes(w, h, p)[0] == 66,
        bmp_bytes(w, h, p)[1] == 77,
        parse_width(bmp_bytes(w, h, p)) == w,
        parse_height(bmp_bytes(w, h, p)) == h,
        forall|x: int, y: int| 0 <= x < w && 0 <= y < h ==> parse_pixel(bmp_bytes(w, h, p), w, h, x, y)
            == (p[y * w + x] as int) % 16777216,
{
    let b = bmp_bytes(w, h, p);
    lemma_le4_value(w);
    lemma_le4_value(h);
    assert(parse_width(b) == w);
    assert(parse_height(b) == h);
    assert forall|x: int, y: int| 0 <= x < w && 0 <= y < h implies parse_pixel(b, w, h, x, y) == (
    p[y * w + x] as int) % 16777216 by {
        let q = (h - 1 - y) * w + x;
        lemma_row_major_index(w, h, x, h - 1 - y);
        assert(3 * q + 2 < 3 * w * h) by (nonlinear_arith)
            requires
                0 <= q < w * h,
        ;
        vstd::arithmetic::div_mod::lemma_fundamental_div_mod_converse(q, w, h - 1 - y, x);
        vstd::arithmetic::div_mod::lemma_fundamental_div_mod_converse(3 * q, 3, q, 0);
        vstd::arithmetic::div_mod::lemma_fundamental_div_mod_converse(3 * q + 1, 3, q, 1);
        vstd::arithmetic::div_mod::lemma_fundamental_div_mod_converse(3 * q + 2, 3, q, 2);
        lemma_row_major_index(w, h, x, y);
        lemma_le24_value(p[y * w + x] as int);
        assert(b[54 + 3 * q] == pixel_byte(w, h, p, 3 * q));
        assert(b[54 + 3 * q + 1] == pixel_byte(w, h, p, 3 * q + 1));
        assert(b[54 + 3 * q + 2] == pixel_byte(w, h, p, 3 * q + 2));
    }
}

} // verus!
