use rasterizer::bmp::Bitmap;
use rasterizer::framebuffer::{Framebuffer, Point, RasterError};
use rasterizer::line::draw_line;
use rasterizer::polygon::{draw_polygon, fill_polygon};

fn pt(x: i32, y: i32) -> Point {
    Point { x, y }
}

fn buffer(width: usize, height: usize) -> Framebuffer {
    Framebuffer::new(width, height).unwrap()
}

fn pixel(fb: &Framebuffer, x: usize, y: usize) -> u32 {
    fb.pixels[y * fb.width + x]
}

#[test]
fn new_rejects_zero_dimensions() {
    assert!(matches!(Framebuffer::new(0, 5), Err(RasterError::InvalidDimension)));
    assert!(matches!(Framebuffer::new(5, 0), Err(RasterError::InvalidDimension)));
    assert!(matches!(Framebuffer::new(0, 0), Err(RasterError::InvalidDimension)));
}

#[test]
fn new_starts_black() {
    let fb = buffer(3, 2);
    assert_eq!(fb.width, 3);
    assert_eq!(fb.height, 2);
    assert_eq!(fb.pixels, vec![0u32; 6]);
}

#[test]
fn clear_restores_background_everywhere() {
    let mut fb = buffer(4, 3);
    fb.set_current_color(0x123456);
    fb.point(1, 1);
    fb.set_background_color(0xABCDEF);
    fb.clear();
    for y in 0..3 {
        for x in 0..4 {
            assert_eq!(pixel(&fb, x, y), 0xABCDEF);
        }
    }
}

#[test]
fn point_writes_current_color_in_bounds() {
    let mut fb = buffer(4, 3);
    fb.set_current_color(0x00FF00);
    fb.point(2, 1);
    for y in 0..3 {
        for x in 0..4 {
            let want = if (x, y) == (2, 1) { 0x00FF00 } else { 0 };
            assert_eq!(pixel(&fb, x, y), want);
        }
    }
}

#[test]
fn point_out_of_bounds_is_a_noop() {
    let mut fb = buffer(4, 3);
    fb.set_current_color(0x00FF00);
    fb.point(4, 0);
    fb.point(0, 3);
    fb.point(100, 100);
    assert_eq!(fb.pixels, vec![0u32; 12]);
}

#[test]
fn degenerate_line_plots_exactly_one_pixel() {
    let mut fb = buffer(5, 5);
    fb.set_current_color(0xFF0000);
    draw_line(&mut fb, pt(2, 3), pt(2, 3));
    let mut colored = Vec::new();
    for y in 0..5 {
        for x in 0..5 {
            if pixel(&fb, x, y) != 0 {
                colored.push((x, y));
            }
        }
    }
    assert_eq!(colored, vec![(2, 3)]);
}

#[test]
fn diagonal_line_plots_one_pixel_per_step() {
    let mut fb = buffer(4, 4);
    fb.set_current_color(0xFFFFFF);
    draw_line(&mut fb, pt(0, 0), pt(3, 3));
    for y in 0..4 {
        for x in 0..4 {
            let want = if x == y { 0xFFFFFF } else { 0 };
            assert_eq!(pixel(&fb, x, y), want, "pixel ({}, {})", x, y);
        }
    }
}

#[test]
fn horizontal_line_is_direction_symmetric() {
    let mut fwd = buffer(6, 3);
    fwd.set_current_color(7);
    draw_line(&mut fwd, pt(1, 1), pt(4, 1));
    let mut bwd = buffer(6, 3);
    bwd.set_current_color(7);
    draw_line(&mut bwd, pt(4, 1), pt(1, 1));
    assert_eq!(fwd.pixels, bwd.pixels);
}

#[test]
fn vertical_line_is_direction_symmetric() {
    let mut fwd = buffer(3, 6);
    fwd.set_current_color(7);
    draw_line(&mut fwd, pt(1, 0), pt(1, 5));
    let mut bwd = buffer(3, 6);
    bwd.set_current_color(7);
    draw_line(&mut bwd, pt(1, 5), pt(1, 0));
    assert_eq!(fwd.pixels, bwd.pixels);
}

#[test]
fn diagonal_line_is_direction_symmetric() {
    let mut fwd = buffer(5, 5);
    fwd.set_current_color(7);
    draw_line(&mut fwd, pt(4, 0), pt(0, 4));
    let mut bwd = buffer(5, 5);
    bwd.set_current_color(7);
    draw_line(&mut bwd, pt(0, 4), pt(4, 0));
    assert_eq!(fwd.pixels, bwd.pixels);
}

#[test]
fn line_clips_silently_at_the_buffer_edge() {
    let mut fb = buffer(3, 3);
    fb.set_current_color(9);
    draw_line(&mut fb, pt(-2, 1), pt(5, 1));
    for y in 0..3 {
        for x in 0..3 {
            let want = if y == 1 { 9 } else { 0 };
            assert_eq!(pixel(&fb, x, y), want);
        }
    }
}

#[test]
fn fill_full_buffer_square_colors_every_pixel() {
    let mut fb = buffer(10, 10);
    fb.set_background_color(0x000000);
    fb.clear();
    let square = vec![pt(0, 0), pt(9, 0), pt(9, 9), pt(0, 9)];
    fill_polygon(&mut fb, &square, 0xFFFFFF);
    for y in 0..10 {
        for x in 0..10 {
            assert_eq!(pixel(&fb, x, y), 0xFFFFFF, "pixel ({}, {})", x, y);
        }
    }
}

#[test]
fn fill_triangle_colors_the_lower_left_half() {
    let mut fb = buffer(5, 5);
    fb.set_background_color(0x000000);
    fb.clear();
    let triangle = vec![pt(0, 0), pt(4, 0), pt(0, 4)];
    fill_polygon(&mut fb, &triangle, 1);
    for y in 0..5 {
        for x in 0..5 {
            let want = if x + y <= 4 { 1 } else { 0 };
            assert_eq!(pixel(&fb, x, y), want, "pixel ({}, {})", x, y);
        }
    }
}

#[test]
fn fill_tolerates_vertices_off_the_canvas() {
    let mut fb = buffer(3, 3);
    let triangle = vec![pt(-2, -2), pt(6, -2), pt(-2, 6)];
    fill_polygon(&mut fb, &triangle, 5);
    for y in 0..3 {
        for x in 0..3 {
            assert_eq!(pixel(&fb, x, y), 5);
        }
    }
}

#[test]
fn fill_with_too_few_vertices_is_a_noop() {
    let mut fb = buffer(3, 3);
    fill_polygon(&mut fb, &vec![pt(0, 0), pt(2, 2)], 5);
    assert_eq!(fb.pixels, vec![0u32; 9]);
}

#[test]
fn outline_draws_the_border_only() {
    let mut fb = buffer(3, 3);
    fb.set_current_color(2);
    let square = vec![pt(0, 0), pt(2, 0), pt(2, 2), pt(0, 2)];
    draw_polygon(&mut fb, &square);
    for y in 0..3 {
        for x in 0..3 {
            let want = if (x, y) == (1, 1) { 0 } else { 2 };
            assert_eq!(pixel(&fb, x, y), want, "pixel ({}, {})", x, y);
        }
    }
}

#[test]
fn outline_with_one_vertex_is_a_noop() {
    let mut fb = buffer(3, 3);
    fb.set_current_color(2);
    draw_polygon(&mut fb, &vec![pt(1, 1)]);
    assert_eq!(fb.pixels, vec![0u32; 9]);
}

#[test]
fn flip_vertical_reverses_row_order() {
    let mut fb = buffer(2, 3);
    fb.pixels = vec![1, 2, 3, 4, 5, 6];
    fb.flip_vertical();
    assert_eq!(fb.pixels, vec![5, 6, 3, 4, 1, 2]);
}

#[test]
fn flip_vertical_twice_restores_the_buffer() {
    let mut fb = buffer(4, 5);
    for (i, p) in fb.pixels.iter_mut().enumerate() {
        *p = i as u32;
    }
    let before = fb.pixels.clone();
    fb.flip_vertical();
    fb.flip_vertical();
    assert_eq!(fb.pixels, before);
}

fn le32(bytes: &[u8], off: usize) -> u32 {
    bytes[off] as u32
        + 256 * bytes[off + 1] as u32
        + 65536 * bytes[off + 2] as u32
        + 16777216 * bytes[off + 3] as u32
}

#[test]
fn encode_emits_the_exact_header_layout() {
    let mut fb = buffer(10, 10);
    fb.set_background_color(0x0000FF);
    fb.clear();
    let bytes = Bitmap::from_framebuffer(&fb).encode();
    assert_eq!(bytes.len(), 54 + 3 * 10 * 10);
    assert_eq!(bytes[0], b'B');
    assert_eq!(bytes[1], b'M');
    assert_eq!(le32(&bytes, 2), 54 + 3 * 10 * 10);
    assert_eq!(le32(&bytes, 6), 0);
    assert_eq!(le32(&bytes, 10), 54);
    assert_eq!(le32(&bytes, 14), 40);
    assert_eq!(le32(&bytes, 18), 10);
    assert_eq!(le32(&bytes, 22), 10);
    assert_eq!(bytes[26], 1);
    assert_eq!(bytes[27], 0);
    assert_eq!(bytes[28], 24);
    assert_eq!(bytes[29], 0);
    for off in (30..54).step_by(4) {
        assert_eq!(le32(&bytes, off), 0);
    }
    // Every pixel is pure blue: low byte first on disk.
    assert_eq!(&bytes[54..57], &[0xFF, 0x00, 0x00]);
}

#[test]
fn encode_roundtrip_recovers_dimensions_and_colors() {
    let mut fb = buffer(2, 2);
    fb.pixels = vec![0x112233, 0x445566, 0x778899, 0xAABBCC];
    let bytes = Bitmap::from_framebuffer(&fb).encode();
    let w = le32(&bytes, 18) as usize;
    let h = le32(&bytes, 22) as usize;
    assert_eq!((w, h), (2, 2));
    for y in 0..h {
        for x in 0..w {
            let o = 54 + 3 * ((h - 1 - y) * w + x);
            let color =
                bytes[o] as u32 + 256 * bytes[o + 1] as u32 + 65536 * bytes[o + 2] as u32;
            assert_eq!(color, fb.pixels[y * w + x] & 0xFFFFFF, "pixel ({}, {})", x, y);
        }
    }
}

#[test]
fn encode_keeps_only_the_low_three_color_bytes() {
    let mut fb = buffer(1, 1);
    fb.pixels = vec![0xFF000000];
    let bytes = Bitmap::from_framebuffer(&fb).encode();
    assert_eq!(&bytes[54..57], &[0, 0, 0]);
}

#[test]
fn render_flip_and_encode_work_together() {
    // Fill a small scene, outline it, flip for the file order, encode.
    let mut fb = buffer(4, 4);
    fb.set_background_color(0x000000);
    fb.clear();
    let square = vec![pt(0, 0), pt(3, 0), pt(3, 3), pt(0, 3)];
    fill_polygon(&mut fb, &square, 0x112233);
    fb.set_current_color(0xFFFFFF);
    draw_polygon(&mut fb, &square);
    fb.flip_vertical();
    let bytes = Bitmap::from_framebuffer(&fb).encode();
    assert_eq!(bytes.len(), 54 + 3 * 16);
    // The border is white; after the flip the file's first stored row is
    // the drawing's top row, itself all border.
    assert_eq!(&bytes[54..57], &[0xFF, 0xFF, 0xFF]);
}
