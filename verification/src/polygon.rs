//! Polygon rasterization: even-odd scanline filling of a vertex ring and
//! outline drawing by chaining line segments over consecutive edges.
//!
//! An edge intersects a scanline when its y-span includes the scanline and
//! the edge is not horizontal; the crossing vertices shared by two such
//! edges are counted once per edge. The crossings of a scanline, kept in
//! ascending order, pair off into inclusive spans that are filled.

use vstd::prelude::*;
use crate::framebuffer::{Framebuffer, Point, plot1, lemma_row_major_index};
use crate::line::{draw_line, line_points, line_points_of, plot_points, lemma_plot_points_app};

verus! {

/// The vertex ring as integer pairs.
pub open spec fn poly_view(vs: Seq<Point>) -> Seq<(int, int)> {
    Seq::new(vs.len(), |i: int| (vs[i].x as int, vs[i].y as int))
}

/// The absolute value of an integer.
pub open spec fn iabs(n: int) -> int {
    if n < 0 {
        -n
    } else {
        n
    }
}

/// Integer division with the quotient truncated toward zero, as the
/// executable signed division rounds.
pub open spec fn trunc_div(n: int, d: int) -> int
    recommends
        d != 0,
{
    if (n < 0) != (d < 0) {
        -(iabs(n) / iabs(d))
    } else {
        iabs(n) / iabs(d)
    }
}

/// Whether the edge from `a` to `b` meets scanline `y`: the edge must not
/// be horizontal and its inclusive y-span must contain `y`.
pub open spec fn edge_crosses(a: (int, int), b: (int, int), y: int) -> bool {
    a.1 != b.1 && ((a.1 <= y && y <= b.1) || (b.1 <= y && y <= a.1))
}

/// The column where the edge from `a` to `b` meets scanline `y`, by
/// linear interpolation truncated toward zero.
pub open spec fn edge_x(a: (int, int), b: (int, int), y: int) -> int
    recommends
        a.1 != b.1,
{
    a.0 + trunc_div((y - a.1) * (b.0 - a.0), b.1 - a.1)
}

/// Ascending insertion: places `v` before the first larger element.
pub open spec fn ins(s: Seq<int>, v: int) -> Seq<int>
    decreases s.len(),
{
    if s.len() == 0 {
        seq![v]
    } else if s[0] > v {
        seq![v] + s
    } else {
        seq![s[0]] + ins(s.drop_first(), v)
    }
}

/// The crossings of scanline `y` with the first `n` edges of the ring
/// (edge `i` joins vertex `i` to vertex `i + 1`, the last edge closing
/// back to vertex `0`), kept in ascending order.
pub open spec fn sorted_crossings_upto(vs: Seq<(int, int)>, y: int, n: int) -> Seq<int>
    decreases n,
{
    if n <= 0 {
        Seq::empty()
    } else {
        let a = vs[n - 1];
        let b = vs[if n == vs.len() {
            0
        } else {
            n
        }];
        let prev = sorted_crossings_upto(vs, y, n - 1);
        if edge_crosses(a, b, y) {
            ins(prev, edge_x(a, b, y))
        } else {
            prev
        }
    }
}

/// All crossings of scanline `y` with the ring, in ascending order.
pub open spec fn sorted_crossings(vs: Seq<(int, int)>, y: int) -> Seq<int> {
    sorted_crossings_upto(vs, y, vs.len() as int)
}

/// The column where span `k` of the crossing list `s` opens.
pub open spec fn span_lo(s: Seq<int>, k: int) -> int {
    s[2 * k]
}

/// The column where span `k` of the crossing list `s` closes.
pub open spec fn span_hi(s: Seq<int>, k: int) -> int {
    s[2 * k + 1]
}

/// Whether column `x` lies in one of the inclusive spans paired off from
/// the crossing list `s`; a trailing unmatched crossing spans nothing.
pub open spec fn in_spans(s: Seq<int>, x: int) -> bool {
    exists|k: int| 0 <= k && 2 * k + 1 < s.len() && #[trigger] span_lo(s, k) <= x <= span_hi(s, k)
}

/// Whether column `x` lies in one of the first `k` spans of `s`.
pub open spec fn covered_upto(s: Seq<int>, k: int, x: int) -> bool {
    exists|j: int| 0 <= j < k && 2 * j + 1 < s.len() && #[trigger] span_lo(s, j) <= x <= span_hi(s, j)
}

/// Whether the even-odd scanline fill colors pixel `(x, y)` for the ring
/// `vs`. Rings of fewer than three vertices fill nothing.
pub open spec fn covers(vs: Seq<(int, int)>, x: int, y: int) -> bool {
    vs.len() >= 3 && in_spans(sorted_crossings(vs, y), x)
}

/// Nondecreasing order.
pub open spec fn sorted_int(s: Seq<int>) -> bool {
    forall|p: int, q: int| 0 <= p <= q < s.len() ==> s[p] <= s[q]
}

/// The sequence of a `Vec` of machine integers as mathematical integers.
pub open spec fn seq_as_int(s: Seq<i64>) -> Seq<int> {
    Seq::new(s.len(), |i: int| s[i] as int)
}

/// Distinct in-bounds pixel coordinates occupy distinct flat indices.
proof fn lemma_row_major_injective(w: int, h: int, x1: int, y1: int, x2: int, y2: int)
    requires
        0 <= x1 < w,
        0 <= y1 < h,
        0 <= x2 < w,
        0 <= y2 < h,
        !(x1 == x2 && y1 == y2),
    ensures
        y1 * w + x1 != y2 * w + x2,
{
    assert(y1 * w + x1 != y2 * w + x2) by (nonlinear_arith)
        requires
            0 <= x1 < w,
            0 <= y1 < h,
            0 <= x2 < w,
            0 <= y2 < h,
            !(x1 == x2 && y1 == y2),
    ;
}

/// Inserting into a sorted-position split yields the ascending insertion.
proof fn lemma_ins_position(s: Seq<int>, v: int, pos: int)
    requires
        0 <= pos <= s.len(),
        forall|k: int| 0 <= k < pos ==> s[k] <= v,
        pos < s.len() ==> s[pos] > v,
    ensures
        ins(s, v) == s.subrange(0, pos).push(v) + s.subrange(pos, s.len() as int),
    decreases pos,
{
    if pos == 0 {
        if s.len() == 0 {
            assert(ins(s, v) =~= s.subrange(0, 0).push(v) + s.subrange(0, 0));
        } else {
            assert(ins(s, v) =~= s.subrange(0, 0).push(v) + s.subrange(0, s.len() as int));
        }
    } else {
        let rest = s.drop_first();
        assert(forall|k: int| 0 <= k < pos - 1 ==> rest[k] <= v);
        lemma_ins_position(rest, v, pos - 1);
        assert(ins(s, v) =~= s.subrange(0, pos).push(v) + s.subrange(pos, s.len() as int));
    }
}

/// A scanline outside the y-range of every vertex has no crossings.
proof fn lemma_no_crossings_outside(vs: Seq<(int, int)>, y: int, n: int, lo: int, hi: int)
    requires
        0 <= n <= vs.len(),
        forall|k: int| 0 <= k < vs.len() ==> lo <= #[trigger] vs[k].1 <= hi,
        y < lo || y > hi,
    ensures
        sorted_crossings_upto(vs, y, n) == Seq::<int>::empty(),
    decreases n,
{
    if n > 0 {
        lemma_no_crossings_outside(vs, y, n - 1, lo, hi);
    }
}

/// Inserts `v` into an ascending vector, keeping it ascending.
fn insert_sorted(xs: &mut Vec<i64>, v: i64)
    requires
        sorted_int(seq_as_int(old(xs)@)),
    ensures
        final(xs)@.len() == old(xs)@.len() + 1,
        seq_as_int(final(xs)@) == ins(seq_as_int(old(xs)@), v as int),
        sorted_int(seq_as_int(final(xs)@)),
        forall|t: int| 0 <= t < final(xs)@.len()
            ==> final(xs)@[t] == v || old(xs)@.contains(#[trigger] final(xs)@[t]),
{
    let ghost s0 = seq_as_int(old(xs)@);
    let mut pos: usize = 0;
    while pos < xs.len() && xs[pos] <= v
        invariant
            pos <= xs.len(),
            xs == old(xs),
            forall|k: int| 0 <= k < pos ==> seq_as_int(xs@)[k] <= v as int,
        decreases xs.len() - pos,
    {
        pos = pos + 1;
    }
    xs.insert(pos, v);
    proof {
        lemma_ins_position(s0, v as int, pos as int);
        assert(seq_as_int(xs@) =~= s0.subrange(0, pos as int).push(v as int) + s0.subrange(
            pos as int,
            s0.len() as int,
        ));
        assert forall|t: int| 0 <= t < xs@.len() implies xs@[t] == v || old(xs)@.contains(
            #[trigger] xs@[t],
        ) by {
            if t != pos {
                let u = if t < pos {
                    t
                } else {
                    t - 1
                };
                assert(xs@[t] == old(xs)@[u]);
            }
        }
        let sn = seq_as_int(xs@);
        assert forall|p: int, q: int| 0 <= p <= q < sn.len() implies sn[p] <= sn[q] by {
            if p < pos && q > pos {
                assert(s0[p] <= v as int && (v as int) < s0[q - 1]);
            }
        }
    }
}

/// Truncating signed division, quotient rounded toward zero.
fn trunc_div_i128(n: i128, d: i128) -> (q: i128)
    requires
        d != 0,
        -0x1_0000_0000_0000_0000_0000 <= n <= 0x1_0000_0000_0000_0000_0000,
        -0x1_0000_0000_0000_0000_0000 <= d <= 0x1_0000_0000_0000_0000_0000,
    ensures
        q as int == trunc_div(n as int, d as int),
{
    let nn: u128 = if n < 0 {
        (-n) as u128
    } else {
        n as u128
    };
    let dd: u128 = if d < 0 {
        (-d) as u128
    } else {
        d as u128
    };
    let qq: u128 = nn / dd;
    proof {
        assert(nn as int / dd as int <= nn as int) by (nonlinear_arith)
            requires
                nn as int >= 0,
                dd as int >= 1,
        ;
    }
    if (n < 0) != (d < 0) {
        -(qq as i128)
    } else {
        qq as i128
    }
}

/// The columns where the ring's edges meet scanline `y`, ascending.
fn scanline_crossings(vertices: &Vec<Point>, y: i64) -> (xs: Vec<i64>)
    ensures
        seq_as_int(xs@) == sorted_crossings(poly_view(vertices@), y as int),
        sorted_int(seq_as_int(xs@)),
        forall|t: int| 0 <= t < xs@.len() ==> -0x8_0000_0000 <= #[trigger] xs@[t] <= 0x8_0000_0000,
{
    let n = vertices.len();
    let ghost pv = poly_view(vertices@);
    let mut xs: Vec<i64> = Vec::new();
    let mut i: usize = 0;
    assert(seq_as_int(xs@) =~= sorted_crossings_upto(pv, y as int, 0));
    while i < n
        invariant
            i <= n,
            n == vertices.len(),
            pv == poly_view(vertices@),
            seq_as_int(xs@) == sorted_crossings_upto(pv, y as int, i as int),
            sorted_int(seq_as_int(xs@)),
            forall|t: int| 0 <= t < xs@.len() ==> -0x8_0000_0000 <= #[trigger] xs@[t]
                <= 0x8_0000_0000,
        decreases n - i,
    {
        let a = vertices[i];
        let b = vertices[if i + 1 == n {
            0
        } else {
            i + 1
        }];
        let ghost ga = pv[i as int];
        let ghost gb = pv[if i + 1 == n {
            0int
        } else {
            i as int + 1
        }];
        if a.y != b.y {
            let ay = a.y as i64;
            let by = b.y as i64;
            let lo = if ay < by {
                ay
            } else {
                by
            };
            let hi = if ay < by {
                by
            } else {
                ay
            };
            if lo <= y && y <= hi {
                proof {
                    assert(-0x1_0000_0000_0000_0000 <= (y as int - ay as int) * (b.x as int
                        - a.x as int) <= 0x1_0000_0000_0000_0000) by (nonlinear_arith)
                        requires
                            -0x1_0000_0000 <= y as int - ay as int <= 0x1_0000_0000,
                            -0x1_0000_0000 <= b.x as int - a.x as int <= 0x1_0000_0000,
                    ;
                }
                let num: i128 = ((y - ay) as i128) * ((b.x as i64 - a.x as i64) as i128);
                let den: i128 = (by - ay) as i128;
                let q = trunc_div_i128(num, den);
                proof {
                    // |num| <= |den| * 2^32, so the quotient stays within
                    // one x-span of the edge.
                    assert(iabs(num as int) <= iabs(den as int) * 0x1_0000_0000)
                        by (nonlinear_arith)
                        requires
                            num as int == (y as int - ga.1) * (gb.0 - ga.0),
                            den as int == gb.1 - ga.1,
                            iabs(num as int) == (if (num as int) < 0 { -(num as int) } else { num as int }),
                            iabs(den as int) == (if (den as int) < 0 { -(den as int) } else { den as int }),
                            ga.1 <= y as int <= gb.1 || gb.1 <= y as int <= ga.1,
                            -0x8000_0000 <= ga.0 <= 0x7FFF_FFFF,
                            -0x8000_0000 <= gb.0 <= 0x7FFF_FFFF,
                    ;
                    assert(iabs(num as int) / iabs(den as int) <= 0x1_0000_0000)
                        by (nonlinear_arith)
                        requires
                            iabs(num as int) <= iabs(den as int) * 0x1_0000_0000,
                            iabs(den as int) >= 1,
                            iabs(num as int) >= 0,
                    ;
                }
                let cx = a.x as i64 + q as i64;
                assert(cx as int == edge_x(ga, gb, y as int));
                insert_sorted(&mut xs, cx);
                assert(edge_crosses(ga, gb, y as int));
            } else {
                assert(!edge_crosses(ga, gb, y as int));
            }
        } else {
            assert(!edge_crosses(ga, gb, y as int));
        }
        i = i + 1;
    }
    xs
}

/// Fills the spans of one scanline: pixel `(x, y)` takes `color` exactly
/// when `x` lies in a span of the scanline's sorted crossing list; every
/// other pixel keeps its value.
#[verifier::loop_isolation(false)]
fn fill_scanline(fb: &mut Framebuffer, vertices: &Vec<Point>, y: i64, color: u32)
    requires
        old(fb).wf(),
    ensures
        final(fb).wf(),
        final(fb).same_frame(old(fb)),
        final(fb).pixels@.len() == old(fb).pixels@.len(),
        forall|px: int, py: int| old(fb).in_bounds(px, py) ==> final(fb).pixel_at(px, py) == (
        if py == y as int && in_spans(sorted_crossings(poly_view(vertices@), y as int), px) {
            color
        } else {
            old(fb).pixel_at(px, py)
        }),
{
    let xs = scanline_crossings(vertices, y);
    let ghost s = sorted_crossings(poly_view(vertices@), y as int);
    let ghost w = fb.width as int;
    let ghost h = fb.height as int;
    let ghost gy = y as int;
    let mut k: usize = 0;
    while k < xs.len() / 2
        invariant
            fb.wf(),
            fb.same_frame(old(fb)),
            w == fb.width as int,
            h == fb.height as int,
            fb.pixels@.len() == old(fb).pixels@.len(),
            seq_as_int(xs@) == s,
            sorted_int(s),
            forall|t: int| 0 <= t < xs@.len() ==> -0x8_0000_0000 <= #[trigger] xs@[t]
                <= 0x8_0000_0000,
            k <= xs.len() / 2,
            forall|px: int, py: int| old(fb).in_bounds(px, py) ==> #[trigger] fb.pixel_at(px, py)
                == (if py == gy && covered_upto(s, k as int, px) {
                color
            } else {
                old(fb).pixel_at(px, py)
            }),
        decreases xs.len() - 2 * k,
    {
        let x0 = xs[2 * k];
        let x1 = xs[2 * k + 1];
        let ghost kk = k as int;
        assert(span_lo(s, kk) == x0 as int && span_hi(s, kk) == x1 as int);
        assert(x0 <= x1);
        let mut cx = x0;
        while cx <= x1
            invariant
                fb.wf(),
                fb.same_frame(old(fb)),
                w == fb.width as int,
                h == fb.height as int,
                fb.pixels@.len() == old(fb).pixels@.len(),
                x0 <= cx <= x1 + 1,
                -0x8_0000_0000 <= x0,
                x1 <= 0x8_0000_0000,
                span_lo(s, kk) == x0 as int && span_hi(s, kk) == x1 as int,
                0 <= kk && 2 * kk + 1 < s.len(),
                forall|px: int, py: int| old(fb).in_bounds(px, py) ==> #[trigger] fb.pixel_at(
                    px,
                    py,
                ) == (if py == gy && (covered_upto(s, kk, px) || (x0 as int <= px < cx as int)) {
                    color
                } else {
                    old(fb).pixel_at(px, py)
                }),
            decreases x1 + 1 - cx,
        {
            let ghost pre = *fb;
            fb.set_pixel(cx, y, color);
            proof {
                assert(fb.pixels@ == plot1(pre.pixels@, w, h, (cx as int, y as int), color));
                if 0 <= (cx as int) < w && 0 <= gy < h {
                    lemma_row_major_index(w, h, cx as int, gy);
                    assert(fb.pixels@ == pre.pixels@.update(gy * w + cx as int, color));
                } else {
                    assert(fb.pixels@ == pre.pixels@);
                }
                assert forall|px: int, py: int| old(fb).in_bounds(px, py) implies #[trigger] fb
                    .pixel_at(px, py) == (if py == gy && (covered_upto(s, kk, px) || (
                x0 as int <= px < cx as int + 1)) {
                    color
                } else {
                    old(fb).pixel_at(px, py)
                }) by {
                    assert(pre.pixel_at(px, py) == (if py == gy && (covered_upto(s, kk, px) || (
                    x0 as int <= px < cx as int)) {
                        color
                    } else {
                        old(fb).pixel_at(px, py)
                    }));
                    lemma_row_major_index(w, h, px, py);
                    let idxp = py * w + px;
                    assert(fb.pixel_at(px, py) == fb.pixels@[idxp]);
                    assert(pre.pixel_at(px, py) == pre.pixels@[idxp]);
                    if 0 <= (cx as int) < w && 0 <= gy < h {
                        lemma_row_major_index(w, h, cx as int, gy);
                        let idxc = gy * w + cx as int;
                        assert(fb.pixels@ == pre.pixels@.update(idxc, color));
                        assert(fb.pixels@[idxp] == pre.pixels@.update(idxc, color)[idxp]);
                        if px == cx as int && py == gy {
                            assert(pre.pixels@.update(idxc, color)[idxc] == color);
                        } else {
                            lemma_row_major_injective(w, h, px, py, cx as int, gy);
                            assert(pre.pixels@.update(idxc, color)[idxp] == pre.pixels@[idxp]);
                        }
                    } else {
                        assert(fb.pixels@ == pre.pixels@);
                    }
                }
            }
            cx = cx + 1;
        }
        proof {
            assert forall|px: int, py: int| old(fb).in_bounds(px, py) implies #[trigger] fb
                .pixel_at(px, py) == (if py == gy && covered_upto(s, kk + 1, px) {
                color
            } else {
                old(fb).pixel_at(px, py)
            }) by {
                if covered_upto(s, kk + 1, px) {
                    let j = choose|j: int|
                        0 <= j < kk + 1 && 2 * j + 1 < s.len() && #[trigger] span_lo(s, j) <= px
                            <= span_hi(s, j);
                    if j == kk {
                        assert(x0 as int <= px < cx as int);
                    } else {
                        assert(covered_upto(s, kk, px));
                    }
                }
                if covered_upto(s, kk, px) {
                    let j = choose|j: int|
                        0 <= j < kk && 2 * j + 1 < s.len() && #[trigger] span_lo(s, j) <= px
                            <= span_hi(s, j);
                    assert(0 <= j < kk + 1 && 2 * j + 1 < s.len() && span_lo(s, j) <= px
                        <= span_hi(s, j));
                }
                if x0 as int <= px < cx as int {
                    assert(0 <= kk < kk + 1 && 2 * kk + 1 < s.len() && span_lo(s, kk) <= px
                        <= span_hi(s, kk));
                }
            }
        }
        k = k + 1;
    }
    proof {
        assert forall|px: int, py: int| old(fb).in_bounds(px, py) implies #[trigger] fb.pixel_at(
            px,
            py,
        ) == (if py == gy && in_spans(s, px) {
            color
        } else {
            old(fb).pixel_at(px, py)
        }) by {
            if in_spans(s, px) {
                let j = choose|j: int|
                    0 <= j && 2 * j + 1 < s.len() && #[trigger] span_lo(s, j) <= px <= span_hi(
                        s,
                        j,
                    );
                assert(j < k as int);
                assert(covered_upto(s, k as int, px));
            }
            if covered_upto(s, k as int, px) {
                let j = choose|j: int|
                    0 <= j < k as int && 2 * j + 1 < s.len() && #[trigger] span_lo(s, j) <= px
                        <= span_hi(s, j);
                assert(in_spans(s, px));
            }
        }
    }
}

/// Fills the ring's interior with `color` by even-odd scanline filling:
/// an in-bounds pixel takes `color` exactly when the fill covers it, and
/// keeps its value otherwise. Rings of fewer than three vertices are a
/// no-op, not an error.
#[verifier::loop_isolation(false)]
pub fn fill_polygon(fb: &mut Framebuffer, vertices: &Vec<Point>, color: u32)
    requires
        old(fb).wf(),
    ensures
        final(fb).wf(),
        final(fb).same_frame(old(fb)),
        final(fb).pixels@.len() == old(fb).pixels@.len(),
        forall|px: int, py: int| old(fb).in_bounds(px, py) ==> final(fb).pixel_at(px, py) == (
        if covers(poly_view(vertices@), px, py) {
            color
        } else {
            old(fb).pixel_at(px, py)
        }),
        vertices@.len() < 3 ==> final(fb).pixels == old(fb).pixels,
{
    let n = vertices.len();
    let ghost pv = poly_view(vertices@);
    if n < 3 {
        return ;
    }
    let mut min_y = vertices[0].y;
    let mut max_y = vertices[0].y;
    let mut i: usize = 1;
    while i < n
        invariant
            1 <= i <= n,
            n == vertices.len(),
            min_y <= max_y,
            forall|t: int| 0 <= t < i ==> min_y as int <= #[trigger] poly_view(vertices@)[t].1
                <= max_y as int,
        decreases n - i,
    {
        let vy = vertices[i].y;
        if vy < min_y {
            min_y = vy;
        }
        if vy > max_y {
            max_y = vy;
        }
        i = i + 1;
    }
    let mut y: i64 = min_y as i64;
    while y <= max_y as i64
        invariant
            fb.wf(),
            fb.same_frame(old(fb)),
            fb.pixels@.len() == old(fb).pixels@.len(),
            pv == poly_view(vertices@),
            pv.len() >= 3,
            min_y as int <= y as int <= max_y as int + 1,
            forall|t: int| 0 <= t < pv.len() ==> min_y as int <= #[trigger] pv[t].1
                <= max_y as int,
            forall|px: int, py: int| old(fb).in_bounds(px, py) ==> #[trigger] fb.pixel_at(px, py)
                == (if min_y as int <= py < y as int && covers(pv, px, py) {
                color
            } else {
                old(fb).pixel_at(px, py)
            }),
        decreases max_y as int - y as int + 1,
    {
        let ghost pre = *fb;
        fill_scanline(fb, vertices, y, color);
        proof {
            assert forall|px: int, py: int| old(fb).in_bounds(px, py) implies #[trigger] fb
                .pixel_at(px, py) == (if min_y as int <= py < y as int + 1 && covers(pv, px, py) {
                color
            } else {
                old(fb).pixel_at(px, py)
            }) by {
                assert(fb.pixel_at(px, py) == (if py == y as int && in_spans(
                    sorted_crossings(pv, y as int),
                    px,
                ) {
                    color
                } else {
                    pre.pixel_at(px, py)
                }));
            }
        }
        y = y + 1;
    }
    proof {
        assert forall|px: int, py: int| old(fb).in_bounds(px, py) implies #[trigger] fb.pixel_at(
            px,
            py,
        ) == (if covers(pv, px, py) {
            color
        } else {
            old(fb).pixel_at(px, py)
        }) by {
            if py < min_y as int || py > max_y as int {
                lemma_no_crossings_outside(pv, py, pv.len() as int, min_y as int, max_y as int);
                assert(!in_spans(sorted_crossings(pv, py), px));
            }
        }
    }
}

/// The pixels of the first `n` edges of the ring's outline, in drawing
/// order (edge `i` joins vertex `i` to vertex `i + 1`, the last edge
/// closing back to vertex `0`).
pub open spec fn outline_points_upto(vs: Seq<(int, int)>, n: int) -> Seq<(int, int)>
    decreases n,
{
    if n <= 0 {
        Seq::empty()
    } else {
        outline_points_upto(vs, n - 1) + line_points(
            vs[n - 1],
            vs[if n == vs.len() {
                0
            } else {
                n
            }],
        )
    }
}

/// The pixels of the whole outline, in drawing order.
pub open spec fn outline_points(vs: Seq<(int, int)>) -> Seq<(int, int)> {
    outline_points_upto(vs, vs.len() as int)
}

/// Draws the ring's outline with the buffer's current color: one segment
/// per consecutive vertex pair, then the closing segment back to the
/// first vertex. Fewer than two vertices are a no-op.
pub fn draw_polygon(fb: &mut Framebuffer, vertices: &Vec<Point>)
    requires
        old(fb).wf(),
    ensures
        final(fb).wf(),
        final(fb).same_frame(old(fb)),
        vertices@.len() >= 2 ==> final(fb).pixels@ == plot_points(
            old(fb).pixels@,
            old(fb).width as int,
            old(fb).height as int,
            outline_points(poly_view(vertices@)),
            old(fb).current_color,
        ),
        vertices@.len() < 2 ==> final(fb).pixels == old(fb).pixels,
{
    let n = vertices.len();
    if n < 2 {
        return ;
    }
    let ghost pv = poly_view(vertices@);
    let ghost p0 = old(fb).pixels@;
    let ghost w = old(fb).width as int;
    let ghost h = old(fb).height as int;
    let ghost c = old(fb).current_color;
    let mut i: usize = 0;
    assert(fb.pixels@ == plot_points(p0, w, h, outline_points_upto(pv, 0), c));
    while i < n
        invariant
            i <= n,
            n == vertices.len(),
            fb.wf(),
            fb.same_frame(old(fb)),
            pv == poly_view(vertices@),
            p0 == old(fb).pixels@,
            w == old(fb).width as int,
            h == old(fb).height as int,
            c == old(fb).current_color,
            fb.pixels@ == plot_points(p0, w, h, outline_points_upto(pv, i as int), c),
        decreases n - i,
    {
        let a = vertices[i];
        let b = vertices[if i + 1 == n {
            0
        } else {
            i + 1
        }];
        draw_line(fb, a, b);
        proof {
            lemma_plot_points_app(
                p0,
                w,
                h,
                outline_points_upto(pv, i as int),
                line_points_of(a, b),
                c,
            );
            assert(outline_points_upto(pv, i as int + 1) == outline_points_upto(pv, i as int)
                + line_points_of(a, b));
        }
        i = i + 1;
    }
}

} // verus!
