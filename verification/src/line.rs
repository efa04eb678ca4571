//! Integer line rasterization: dual-axis Bresenham stepping between two
//! pixel coordinates, inclusive of both endpoints.

use vstd::prelude::*;
use crate::framebuffer::{Framebuffer, Point, plot1};

verus! {

/// The unit step from `a` toward `b` along one axis (`-1` when they tie;
/// a tied axis never steps, so the value is then irrelevant).
pub open spec fn step_toward(a: int, b: int) -> int {
    if a < b {
        1
    } else {
        -1
    }
}

/// The absolute difference of two coordinates.
pub open spec fn dist(a: int, b: int) -> int {
    if a < b {
        b - a
    } else {
        a - b
    }
}

/// The pixels the stepping algorithm visits from the state that has taken
/// `i` of `dx` x-steps and `j` of `dy` y-steps, starting at `(ax, ay)`
/// with unit steps `sx`, `sy`. The accumulated error term after those
/// steps is `(j + 1) * dx - (i + 1) * dy`; an axis advances when twice
/// that term clears its threshold, and both axes may advance in one step.
pub open spec fn bres_seq(
    ax: int,
    ay: int,
    sx: int,
    sy: int,
    dx: int,
    dy: int,
    i: int,
    j: int,
) -> Seq<(int, int)>
    decreases dx - i + dy - j,
        when 0 <= i <= dx && 0 <= j <= dy
{
    let p = (ax + i * sx, ay + j * sy);
    if i == dx && j == dy {
        seq![p]
    } else {
        let e2 = 2 * ((j + 1) * dx - (i + 1) * dy);
        let step_x = e2 >= -dy && i < dx;
        let step_y = e2 <= dx && j < dy;
        if !step_x && !step_y {
            seq![p]
        } else {
            seq![p] + bres_seq(
                ax,
                ay,
                sx,
                sy,
                dx,
                dy,
                if step_x {
                    i + 1
                } else {
                    i
                },
                if step_y {
                    j + 1
                } else {
                    j
                },
            )
        }
    }
}

/// The pixels drawn for the segment from `a` to `b`, both endpoints
/// included, in visiting order.
pub open spec fn line_points(a: (int, int), b: (int, int)) -> Seq<(int, int)> {
    bres_seq(
        a.0,
        a.1,
        step_toward(a.0, b.0),
        step_toward(a.1, b.1),
        dist(a.0, b.0),
        dist(a.1, b.1),
        0,
        0,
    )
}

/// The pixels of the segment from `a` to `b` as integer pairs.
pub open spec fn line_points_of(a: Point, b: Point) -> Seq<(int, int)> {
    line_points((a.x as int, a.y as int), (b.x as int, b.y as int))
}

/// The pixel array after plotting every point of `pts`, in order, with
/// color `c`; out-of-bounds points plot nothing.
pub open spec fn plot_points(p: Seq<u32>, w: int, h: int, pts: Seq<(int, int)>, c: u32) -> Seq<u32>
    decreases pts.len(),
{
    if pts.len() == 0 {
        p
    } else {
        plot_points(plot1(p, w, h, pts[0], c), w, h, pts.drop_first(), c)
    }
}

/// Plotting a concatenation plots the first part, then the second.
pub proof fn lemma_plot_points_app(
    p: Seq<u32>,
    w: int,
    h: int,
    pts1: Seq<(int, int)>,
    pts2: Seq<(int, int)>,
    c: u32,
)
    ensures
        plot_points(p, w, h, pts1 + pts2, c) == plot_points(
            plot_points(p, w, h, pts1, c),
            w,
            h,
            pts2,
            c,
        ),
    decreases pts1.len(),
{
    if pts1.len() == 0 {
        assert(pts1 + pts2 =~= pts2);
    } else {
        assert((pts1 + pts2)[0] == pts1[0]);
        assert((pts1 + pts2).drop_first() =~= pts1.drop_first() + pts2);
        lemma_plot_points_app(plot1(p, w, h, pts1[0], c), w, h, pts1.drop_first(), pts2, c);
    }
}

/// When the state has exhausted its x-steps but not its y-steps, the
/// doubled error term sits strictly below the x threshold: the algorithm
/// never overshoots the x endpoint.
proof fn lemma_no_x_overshoot(dx: int, dy: int, j: int)
    requires
        0 <= dx,
        0 <= j < dy,
    ensures
        2 * ((j + 1) * dx - (dx + 1) * dy) < -dy,
{
    assert(2 * ((j + 1) * dx - (dx + 1) * dy) < -dy) by (nonlinear_arith)
        requires
            0 <= dx,
            0 <= j < dy,
    ;
}

/// The mirror image of the previous fact for the y axis.
proof fn lemma_no_y_overshoot(dx: int, dy: int, i: int)
    requires
        0 <= dy,
        0 <= i < dx,
    ensures
        2 * ((dy + 1) * dx - (i + 1) * dy) > dx,
{
    assert(2 * ((dy + 1) * dx - (i + 1) * dy) > dx) by (nonlinear_arith)
        requires
            0 <= dy,
            0 <= i < dx,
    ;
}

/// Positions reached by unit steps stay between the two endpoints.
proof fn lemma_step_position_bounds(a: int, s: int, i: int, d: int)
    requires
        s == 1 || s == -1,
        0 <= i <= d,
    ensures
        a - d <= a + i * s <= a + d,
        (a + i * s == a + d * s) <==> i == d,
{
    assert(a - d <= a + i * s <= a + d && ((a + i * s == a + d * s) <==> i == d))
        by (nonlinear_arith)
        requires
            s == 1 || s == -1,
            0 <= i <= d,
    ;
}

/// The error term stays in a range far inside the arithmetic type used
/// to accumulate it.
proof fn lemma_err_range(dx: int, dy: int, i: int, j: int)
    requires
        0 <= i <= dx <= 0xFFFF_FFFF,
        0 <= j <= dy <= 0xFFFF_FFFF,
    ensures
        -0x2_0000_0000_0000_0000 <= (j + 1) * dx - (i + 1) * dy <= 0x2_0000_0000_0000_0000,
{
    assert(-0x2_0000_0000_0000_0000 <= (j + 1) * dx - (i + 1) * dy <= 0x2_0000_0000_0000_0000)
        by (nonlinear_arith)
        requires
            0 <= i <= dx <= 0xFFFF_FFFF,
            0 <= j <= dy <= 0xFFFF_FFFF,
    ;
}

/// The far endpoint lies one full span of unit steps from the near one.
proof fn lemma_endpoint(a: int, b: int)
    ensures
        b == a + dist(a, b) * step_toward(a, b),
{
    if a < b {
        assert(b == a + (b - a) * 1) by (nonlinear_arith);
    } else {
        assert(b == a + (a - b) * -1) by (nonlinear_arith);
    }
}

/// A segment drawn between two tied coordinates plots exactly one pixel,
/// at that point.
pub proof fn lemma_line_degenerate(p: (int, int), pix: Seq<u32>, w: int, h: int, c: u32)
    ensures
        line_points(p, p) == seq![p],
        plot_points(pix, w, h, line_points(p, p), c) == plot1(pix, w, h, p, c),
{
    assert(line_points(p, p) =~= seq![p]);
    assert(seq![p].drop_first() =~= Seq::<(int, int)>::empty());
    assert(seq![p][0] == p);
    assert(plot_points(pix, w, h, seq![p], c) == plot_points(
        plot1(pix, w, h, p, c),
        w,
        h,
        seq![p].drop_first(),
        c,
    ));
}

/// Closed form for a horizontal run: only the x axis ever steps.
proof fn lemma_bres_horizontal(ax: int, ay: int, sx: int, sy: int, dx: int, i: int)
    requires
        0 <= i <= dx,
    ensures
        bres_seq(ax, ay, sx, sy, dx, 0, i, 0) =~= Seq::new(
            (dx - i + 1) as nat,
            |t: int| (ax + (i + t) * sx, ay),
        ),
    decreases dx - i,
{
    let f = Seq::new((dx - i + 1) as nat, |t: int| (ax + (i + t) * sx, ay));
    if i == dx {
        assert(f[0] == (ax + i * sx, ay));
    } else {
        lemma_bres_horizontal(ax, ay, sx, sy, dx, i + 1);
        let rest = Seq::new((dx - i) as nat, |t: int| (ax + (i + 1 + t) * sx, ay));
        assert(bres_seq(ax, ay, sx, sy, dx, 0, i, 0) == seq![(ax + i * sx, ay + 0 * sy)] + rest);
        assert forall|t: int| 0 <= t < f.len() implies f[t] == (seq![
            (ax + i * sx, ay + 0 * sy),
        ] + rest)[t] by {
            if t > 0 {
                assert((i + 1 + (t - 1)) == i + t);
            }
        }
    }
}

/// Closed form for a vertical run: only the y axis ever steps.
proof fn lemma_bres_vertical(ax: int, ay: int, sx: int, sy: int, dy: int, j: int)
    requires
        0 <= j <= dy,
    ensures
        bres_seq(ax, ay, sx, sy, 0, dy, 0, j) =~= Seq::new(
            (dy - j + 1) as nat,
            |t: int| (ax, ay + (j + t) * sy),
        ),
    decreases dy - j,
{
    let f = Seq::new((dy - j + 1) as nat, |t: int| (ax, ay + (j + t) * sy));
    if j == dy {
        assert(f[0] == (ax, ay + j * sy));
    } else {
        lemma_bres_vertical(ax, ay, sx, sy, dy, j + 1);
        let rest = Seq::new((dy - j) as nat, |t: int| (ax, ay + (j + 1 + t) * sy));
        assert(bres_seq(ax, ay, sx, sy, 0, dy, 0, j) == seq![(ax + 0 * sx, ay + j * sy)] + rest);
        assert forall|t: int| 0 <= t < f.len() implies f[t] == (seq![
            (ax + 0 * sx, ay + j * sy),
        ] + rest)[t] by {
            if t > 0 {
                assert((j + 1 + (t - 1)) == j + t);
            }
        }
    }
}

/// Closed form for an exact diagonal: both axes step together, so the
/// step counts stay equal on both axes throughout.
proof fn lemma_bres_diagonal(ax: int, ay: int, sx: int, sy: int, d: int, i: int)
    requires
        0 <= i <= d,
    ensures
        bres_seq(ax, ay, sx, sy, d, d, i, i) =~= Seq::new(
            (d - i + 1) as nat,
            |t: int| (ax + (i + t) * sx, ay + (i + t) * sy),
        ),
    decreases d - i,
{
    let f = Seq::new((d - i + 1) as nat, |t: int| (ax + (i + t) * sx, ay + (i + t) * sy));
    if i == d {
        assert(f[0] == (ax + i * sx, ay + i * sy));
    } else {
        lemma_bres_diagonal(ax, ay, sx, sy, d, i + 1);
        let rest = Seq::new((d - i) as nat, |t: int| (ax + (i + 1 + t) * sx, ay + (i + 1 + t) * sy));
        assert(2 * ((i + 1) * d - (i + 1) * d) == 0);
        assert(bres_seq(ax, ay, sx, sy, d, d, i, i) == seq![(ax + i * sx, ay + i * sy)] + rest);
        assert forall|t: int| 0 <= t < f.len() implies f[t] == (seq![
            (ax + i * sx, ay + i * sy),
        ] + rest)[t] by {
            if t > 0 {
                assert((i + 1 + (t - 1)) == i + t);
            }
        }
    }
}

/// A 45-degree segment visits exactly the pixels that advance one step
/// on each axis per pixel, endpoints included.
pub proof fn lemma_line_points_diagonal(a: (int, int), b: (int, int))
    requires
        dist(a.0, b.0) == dist(a.1, b.1),
    ensures
        line_points(a, b) =~= Seq::new(
            (dist(a.0, b.0) + 1) as nat,
            |t: int| (a.0 + t * step_toward(a.0, b.0), a.1 + t * step_toward(a.1, b.1)),
        ),
{
    let d = dist(a.0, b.0);
    let sx = step_toward(a.0, b.0);
    let sy = step_toward(a.1, b.1);
    lemma_bres_diagonal(a.0, a.1, sx, sy, d, 0);
    let f1 = Seq::new((d + 1) as nat, |t: int| (a.0 + (0 + t) * sx, a.1 + (0 + t) * sy));
    let f2 = Seq::new((d + 1) as nat, |t: int| (a.0 + t * sx, a.1 + t * sy));
    assert forall|t: int| 0 <= t < f2.len() implies f1[t] == f2[t] by {
        assert((0 + t) == t);
    }
    assert(f1 =~= f2);
}

/// The sets of pixels of a parametric run and of the same run walked from
/// the far end are equal.
proof fn lemma_param_reverse_set(x0: int, y0: int, sx: int, sy: int, d: int)
    requires
        d >= 0,
    ensures
        Seq::new((d + 1) as nat, |t: int| (x0 + t * sx, y0 + t * sy)).to_set() == Seq::new(
            (d + 1) as nat,
            |t: int| (x0 + (d - t) * sx, y0 + (d - t) * sy),
        ).to_set(),
{
    let fwd = Seq::new((d + 1) as nat, |t: int| (x0 + t * sx, y0 + t * sy));
    let bwd = Seq::new((d + 1) as nat, |t: int| (x0 + (d - t) * sx, y0 + (d - t) * sy));
    assert forall|e: (int, int)| fwd.to_set().contains(e) implies bwd.to_set().contains(e) by {
        let t = choose|t: int| 0 <= t < fwd.len() && fwd[t] == e;
        assert(bwd[d - t] == e);
        assert(bwd.contains(e));
    }
    assert forall|e: (int, int)| bwd.to_set().contains(e) implies fwd.to_set().contains(e) by {
        let t = choose|t: int| 0 <= t < bwd.len() && bwd[t] == e;
        assert(fwd[d - t] == e);
        assert(fwd.contains(e));
    }
    assert(fwd.to_set() =~= bwd.to_set());
}

/// Drawing a segment in either direction plots the same set of pixels,
/// for horizontal, vertical and exactly diagonal segments. (For other
/// slopes the two directions may break ties at half-steps differently,
/// so this symmetry does not hold in general.)
pub proof fn lemma_line_points_symmetric(a: (int, int), b: (int, int))
    requires
        a.0 == b.0 || a.1 == b.1 || dist(a.0, b.0) == dist(a.1, b.1),
    ensures
        line_points(a, b).to_set() == line_points(b, a).to_set(),
{
    lemma_endpoint(a.0, b.0);
    lemma_endpoint(a.1, b.1);
    lemma_endpoint(b.0, a.0);
    lemma_endpoint(b.1, a.1);
    if a == b {
    } else if a.1 == b.1 {
        let d = dist(a.0, b.0);
        let s = step_toward(a.0, b.0);
        let sr = step_toward(b.0, a.0);
        lemma_bres_horizontal(a.0, a.1, s, step_toward(a.1, b.1), d, 0);
        lemma_bres_horizontal(b.0, b.1, sr, step_toward(b.1, a.1), d, 0);
        let fwd = Seq::new((d + 1) as nat, |t: int| (a.0 + t * s, a.1 + t * 0));
        let bwd = Seq::new((d + 1) as nat, |t: int| (a.0 + (d - t) * s, a.1 + (d - t) * 0));
        assert(line_points(a, b) =~= fwd);
        assert forall|t: int| 0 <= t < d + 1 implies (b.0 + (0 + t) * sr, b.1) == bwd[t] by {
            assert(b.0 + (0 + t) * sr == a.0 + (d - t) * s) by (nonlinear_arith)
                requires
                    b.0 == a.0 + d * s,
                    sr == -s,
            ;
        }
        assert(line_points(b, a) =~= bwd);
        lemma_param_reverse_set(a.0, a.1, s, 0, d);
    } else if a.0 == b.0 {
        let d = dist(a.1, b.1);
        let s = step_toward(a.1, b.1);
        let sr = step_toward(b.1, a.1);
        lemma_bres_vertical(a.0, a.1, step_toward(a.0, b.0), s, d, 0);
        lemma_bres_vertical(b.0, b.1, step_toward(b.0, a.0), sr, d, 0);
        let fwd = Seq::new((d + 1) as nat, |t: int| (a.0 + t * 0, a.1 + t * s));
        let bwd = Seq::new((d + 1) as nat, |t: int| (a.0 + (d - t) * 0, a.1 + (d - t) * s));
        assert(line_points(a, b) =~= fwd);
        assert forall|t: int| 0 <= t < d + 1 implies (b.0, b.1 + (0 + t) * sr) == bwd[t] by {
            assert(b.1 + (0 + t) * sr == a.1 + (d - t) * s) by (nonlinear_arith)
                requires
                    b.1 == a.1 + d * s,
                    sr == -s,
            ;
        }
        assert(line_points(b, a) =~= bwd);
        lemma_param_reverse_set(a.0, a.1, 0, s, d);
    } else {
        let d = dist(a.0, b.0);
        let sx = step_toward(a.0, b.0);
        let sy = step_toward(a.1, b.1);
        let sxr = step_toward(b.0, a.0);
        let syr = step_toward(b.1, a.1);
        lemma_bres_diagonal(a.0, a.1, sx, sy, d, 0);
        lemma_bres_diagonal(b.0, b.1, sxr, syr, d, 0);
        let fwd = Seq::new((d + 1) as nat, |t: int| (a.0 + t * sx, a.1 + t * sy));
        let bwd = Seq::new((d + 1) as nat, |t: int| (a.0 + (d - t) * sx, a.1 + (d - t) * sy));
        assert(line_points(a, b) =~= fwd);
        assert forall|t: int| 0 <= t < d + 1 implies (b.0 + (0 + t) * sxr, b.1 + (0 + t) * syr)
            == bwd[t] by {
            assert(b.0 + (0 + t) * sxr == a.0 + (d - t) * sx && b.1 + (0 + t) * syr == a.1 + (d
                - t) * sy) by (nonlinear_arith)
                requires
                    b.0 == a.0 + d * sx,
                    b.1 == a.1 + d * sy,
                    sxr == -sx,
                    syr == -sy,
            ;
        }
        assert(line_points(b, a) =~= bwd);
        lemma_param_reverse_set(a.0, a.1, sx, sy, d);
    }
}

/// Draws the straight segment from `start` to `end` with the buffer's
/// current color, both endpoints included, by integer Bresenham stepping.
/// No clipping: pixels that fall off the buffer are silently dropped.
pub fn draw_line(fb: &mut Framebuffer, start: Point, end: Point)
    requires
        old(fb).wf(),
    ensures
        final(fb).wf(),
        final(fb).same_frame(old(fb)),
        final(fb).pixels@ == plot_points(
            old(fb).pixels@,
            old(fb).width as int,
            old(fb).height as int,
            line_points_of(start, end),
            old(fb).current_color,
        ),
{
    let ax = start.x as i64;
    let ay = start.y as i64;
    let ex = end.x as i64;
    let ey = end.y as i64;
    let dx: i128 = if ax < ex {
        (ex - ax) as i128
    } else {
        (ax - ex) as i128
    };
    let dy: i128 = if ay < ey {
        (ey - ay) as i128
    } else {
        (ay - ey) as i128
    };
    let sx: i64 = if ax < ex {
        1
    } else {
        -1
    };
    let sy: i64 = if ay < ey {
        1
    } else {
        -1
    };
    let mut err: i128 = dx - dy;
    let mut x = ax;
    let mut y = ay;
    let c = fb.current_color;
    let ghost gax = ax as int;
    let ghost gay = ay as int;
    let ghost gex = ex as int;
    let ghost gey = ey as int;
    let ghost gdx = dx as int;
    let ghost gdy = dy as int;
    let ghost gsx = sx as int;
    let ghost gsy = sy as int;
    let ghost w = old(fb).width as int;
    let ghost h = old(fb).height as int;
    let ghost lp = line_points_of(start, end);
    let ghost mut i: int = 0;
    let ghost mut j: int = 0;
    proof {
        lemma_step_position_bounds(gax, gsx, 0, gdx);
        lemma_step_position_bounds(gay, gsy, 0, gdy);
        assert(gex == gax + gdx * gsx && gey == gay + gdy * gsy) by (nonlinear_arith)
            requires
                gsx == step_toward(gax, gex),
                gsy == step_toward(gay, gey),
                gdx == dist(gax, gex),
                gdy == dist(gay, gey),
        ;
    }
    while !(x == ex && y == ey)
        invariant
            fb.wf(),
            fb.same_frame(old(fb)),
            c == old(fb).current_color,
            w == old(fb).width as int,
            h == old(fb).height as int,
            gsx == step_toward(gax, gex),
            gsy == step_toward(gay, gey),
            gdx == dist(gax, gex),
            gdy == dist(gay, gey),
            gax == ax as int && gay == ay as int && gex == ex as int && gey == ey as int,
            gdx == dx as int && gdy == dy as int && gsx == sx as int && gsy == sy as int,
            0 <= gdx <= 0xFFFF_FFFF,
            0 <= gdy <= 0xFFFF_FFFF,
            -0x8000_0000 <= gax <= 0x7FFF_FFFF,
            -0x8000_0000 <= gay <= 0x7FFF_FFFF,
            gex == gax + gdx * gsx,
            gey == gay + gdy * gsy,
            0 <= i <= gdx,
            0 <= j <= gdy,
            x as int == gax + i * gsx,
            y as int == gay + j * gsy,
            err as int == (j + 1) * gdx - (i + 1) * gdy,
            (x == ex) <==> i == gdx,
            (y == ey) <==> j == gdy,
            lp == line_points_of(start, end),
            plot_points(old(fb).pixels@, w, h, lp, c) == plot_points(
                fb.pixels@,
                w,
                h,
                bres_seq(gax, gay, gsx, gsy, gdx, gdy, i, j),
                c,
            ),
        decreases gdx - i + gdy - j,
    {
        let ghost pre = fb.pixels@;
        let ghost s = bres_seq(gax, gay, gsx, gsy, gdx, gdy, i, j);
        let ghost p = (x as int, y as int);
        fb.set_pixel(x, y, c);
        proof {
            lemma_err_range(gdx, gdy, i, j);
            lemma_step_position_bounds(gax, gsx, i, gdx);
            lemma_step_position_bounds(gay, gsy, j, gdy);
        }
        let e2: i128 = 2 * err;
        let ghost step_x_taken = e2 as int >= -gdy && i < gdx;
        let ghost step_y_taken = e2 as int <= gdx && j < gdy;
        proof {
            // The exec threshold tests agree with the spec's clamped steps:
            // at an exhausted axis the threshold test already fails.
            if i == gdx {
                lemma_no_x_overshoot(gdx, gdy, j);
            }
            if j == gdy {
                lemma_no_y_overshoot(gdx, gdy, i);
            }
            let ni = if step_x_taken { i + 1 } else { i };
            let nj = if step_y_taken { j + 1 } else { j };
            assert(s == seq![p] + bres_seq(gax, gay, gsx, gsy, gdx, gdy, ni, nj));
            assert((seq![p] + bres_seq(gax, gay, gsx, gsy, gdx, gdy, ni, nj)).drop_first()
                =~= bres_seq(gax, gay, gsx, gsy, gdx, gdy, ni, nj));
            assert(plot_points(pre, w, h, s, c) == plot_points(
                fb.pixels@,
                w,
                h,
                bres_seq(gax, gay, gsx, gsy, gdx, gdy, ni, nj),
                c,
            ));
        }
        if e2 >= -dy {
            err = err - dy;
            x = x + sx;
            proof {
                i = i + 1;
                assert(err as int == (j + 1) * gdx - (i + 1) * gdy
                    && x as int == gax + i * gsx) by (nonlinear_arith)
                    requires
                        err as int == (j + 1) * gdx - ((i - 1) + 1) * gdy - gdy,
                        x as int == gax + (i - 1) * gsx + gsx,
                ;
            }
        }
        if e2 <= dx {
            err = err + dx;
            y = y + sy;
            proof {
                j = j + 1;
                assert(err as int == (j + 1) * gdx - (i + 1) * gdy
                    && y as int == gay + j * gsy) by (nonlinear_arith)
                    requires
                        err as int == ((j - 1) + 1) * gdx - (i + 1) * gdy + gdx,
                        y as int == gay + (j - 1) * gsy + gsy,
                ;
            }
        }
        proof {
            lemma_step_position_bounds(gax, gsx, i, gdx);
            lemma_step_position_bounds(gay, gsy, j, gdy);
        }
    }
    let ghost pre = fb.pixels@;
    let ghost p = (x as int, y as int);
    fb.set_pixel(x, y, c);
    proof {
        assert(bres_seq(gax, gay, gsx, gsy, gdx, gdy, i, j) == seq![p]);
        assert(seq![p].drop_first() =~= Seq::<(int, int)>::empty());
        assert(seq![p][0] == p);
        assert(plot_points(pre, w, h, seq![p], c) == plot_points(
            plot1(pre, w, h, p, c),
            w,
            h,
            seq![p].drop_first(),
            c,
        ));
        assert(plot_points(plot1(pre, w, h, p, c), w, h, seq![p].drop_first(), c) == plot1(
            pre,
            w,
            h,
            p,
            c,
        ));
        assert(plot_points(pre, w, h, seq![p], c) == fb.pixels@);
    }
}

} // verus!
