//! The RGB canvas the previews and thumbnails are drawn on: conversion from a
//! captured frame, clipped pixel painting, and the shapes the annotations are
//! made of.
//!
//! Every shape is stated as the set of pixels it paints: the canvas after the
//! call is the canvas before it with exactly the pixels of that set (clipped
//! to the canvas) in the shape's colour.

use vstd::prelude::*;
use crate::arith::{lemma_grid_coords, lemma_grid_index_coords, lemma_index_in_grid};
use crate::hardware::capture::Frame;
use crate::hardware::picker::trunc_div;
use base64::Engine;

verus! {

/// The region box's colour, RGB.
pub const REGION: [u8; 3] = [192, 168, 74];
/// A match ring's colour, RGB.
pub const MATCH: [u8; 3] = [95, 174, 95];
/// The best match's crosshair colour, RGB.
pub const BEST: [u8; 3] = [255, 95, 95];
/// The step editor's region box, RGB.
pub const STEP_REGION: [u8; 3] = [74, 168, 235];
/// At most this many match rings are drawn.
pub const MAX_RINGS: usize = 20;
/// Previews wider than this are scaled down first.
pub const MAX_PREVIEW_WIDTH: u32 = 1280;

/// `s` with every pixel of `set` (by column and row in a canvas `w` wide) set
/// to `color`.
pub open spec fn paint(s: Seq<u8>, w: int, set: spec_fn(int, int) -> bool, color: [u8; 3]) -> Seq<u8> {
    Seq::new(
        s.len(),
        |k: int|
            if set((k / 3) % w, (k / 3) / w) {
                color@[k % 3]
            } else {
                s[k]
            },
    )
}

/// Painting one set and then another in the same colour paints their union.
pub proof fn lemma_paint_union(
    s: Seq<u8>,
    w: int,
    a: spec_fn(int, int) -> bool,
    b: spec_fn(int, int) -> bool,
    color: [u8; 3],
)
    ensures
        paint(paint(s, w, a, color), w, b, color) == paint(s, w, |x: int, y: int| a(x, y) || b(x, y), color),
{
    assert(paint(paint(s, w, a, color), w, b, color) =~= paint(
        s,
        w,
        |x: int, y: int| a(x, y) || b(x, y),
        color,
    ));
}

/// Painting the empty set changes nothing.
proof fn lemma_paint_nothing(s: Seq<u8>, w: int, set: spec_fn(int, int) -> bool, color: [u8; 3])
    requires
        forall|x: int, y: int| !#[trigger] set(x, y),
    ensures
        paint(s, w, set, color) == s,
{
    assert(paint(s, w, set, color) =~= s);
}

/// Two sets with the same pixels paint the same.
proof fn lemma_paint_same(
    s: Seq<u8>,
    w: int,
    a: spec_fn(int, int) -> bool,
    b: spec_fn(int, int) -> bool,
    color: [u8; 3],
)
    requires
        forall|x: int, y: int| #[trigger] a(x, y) == b(x, y),
    ensures
        paint(s, w, a, color) == paint(s, w, b, color),
{
    assert(paint(s, w, a, color) =~= paint(s, w, b, color));
}

/// The pixels of a rectangle outline `thickness` thick: rows `y1 ..` and
/// `.. y2` across `x1..=x2`, columns `x1 ..` and `.. x2` down `y1..=y2`.
pub open spec fn rect_outline(x1: int, y1: int, x2: int, y2: int, thickness: int, px: int, py: int) -> bool {
    ||| ((0 <= py - y1 < thickness) || (0 <= y2 - py < thickness)) && x1 <= px <= x2
    ||| ((0 <= px - x1 < thickness) || (0 <= x2 - px < thickness)) && y1 <= py <= y2
}

/// The part of a straight line's band from offset `lo` up to (not including)
/// `hi` across it.
pub open spec fn line_band(x1: int, y1: int, x2: int, y2: int, lo: int, hi: int, px: int, py: int) -> bool {
    if y1 == y2 {
        lo <= py - y1 < hi && (if x1 <= x2 { x1 <= px <= x2 } else { x2 <= px <= x1 })
    } else if x1 == x2 {
        lo <= px - x1 < hi && (if y1 <= y2 { y1 <= py <= y2 } else { y2 <= py <= y1 })
    } else {
        false
    }
}

/// The pixels of a horizontal or vertical line with `thickness / 2` (rounded
/// toward zero) pixels on each side; nothing for a diagonal.
pub open spec fn line_set(x1: int, y1: int, x2: int, y2: int, thickness: int, px: int, py: int) -> bool {
    let half = trunc_div(thickness, 2);
    line_band(x1, y1, x2, y2, -half, half + 1, px, py)
}

/// Whether `(dx, dy)` is one of the eight reflections of `(x, y)` across the
/// axes and diagonals.
pub open spec fn octant(x: int, y: int, dx: int, dy: int) -> bool {
    ||| dx == x && dy == y
    ||| dx == y && dy == x
    ||| dx == -y && dy == x
    ||| dx == -x && dy == y
    ||| dx == -x && dy == -y
    ||| dx == -y && dy == -x
    ||| dx == y && dy == -x
    ||| dx == x && dy == -y
}

/// One step of the midpoint circle walk: `y` moves up by one, and `x` in by
/// one when the error term says the circle has bent inward.
pub open spec fn midpoint_next(x: int, y: int, err: int) -> (int, int, int) {
    let y2 = y + 1;
    let e = err + 1 + 2 * y2;
    if 2 * (e - x) + 1 > 0 {
        (x - 1, y2, e + 1 - 2 * (x - 1))
    } else {
        (x, y2, e)
    }
}

/// The offsets the midpoint walk paints from state `(x, y, err)` on, until
/// `x` falls below `y`.
pub open spec fn ring_from(x: int, y: int, err: int, dx: int, dy: int) -> bool
    decreases x - y + 2,
{
    if x < y {
        false
    } else {
        let n = midpoint_next(x, y, err);
        octant(x, y, dx, dy) || ring_from(n.0, n.1, n.2, dx, dy)
    }
}

/// Whether `(px, py)` is on the midpoint circle of radius `r` around `(cx, cy)`.
pub open spec fn on_ring(cx: int, cy: int, r: int, px: int, py: int) -> bool {
    ring_from(r, 0, 0, px - cx, py - cy)
}

/// The pixels of a circle outline: the midpoint circles of every radius from
/// `radius - thickness + 1` (at least 1) to `radius`.
pub open spec fn circle_set(cx: int, cy: int, radius: int, thickness: int, px: int, py: int) -> bool {
    let lo = if radius - thickness + 1 > 1 {
        radius - thickness + 1
    } else {
        1
    };
    exists|r: int| lo <= r <= radius && #[trigger] on_ring(cx, cy, r, px, py)
}

/// `k` is the integer square root of `n`.
pub open spec fn is_isqrt(n: int, k: int) -> bool {
    0 <= k && k * k <= n < (k + 1) * (k + 1)
}

/// The integer square root of `n >= 0`.
pub open spec fn isqrt(n: int) -> int {
    choose|k: int| is_isqrt(n, k)
}

proof fn lemma_isqrt_unique(n: int, k: int)
    requires
        is_isqrt(n, k),
    ensures
        isqrt(n) == k,
{
    let j = choose|j: int| is_isqrt(n, j);
    assert(is_isqrt(n, j));
    if j < k {
        assert((j + 1) * (j + 1) <= k * k) by (nonlinear_arith)
            requires
                0 <= j < k,
        ;
    } else if j > k {
        assert((k + 1) * (k + 1) <= j * j) by (nonlinear_arith)
            requires
                0 <= k < j,
        ;
    }
}

/// The pixels of a filled disc: each row `dy` from the centre spans
/// `isqrt(radius² - dy²)` to either side.
pub open spec fn disc_set(cx: int, cy: int, radius: int, px: int, py: int) -> bool {
    let dy = py - cy;
    let run = isqrt(radius * radius - dy * dy);
    -radius <= dy <= radius && cx - run <= px <= cx + run
}

/// Point `i` of the `steps` evenly spaced points from `(x1, y1)` to
/// `(x2, y2)`, each coordinate rounded toward zero.
pub open spec fn stroke_point(x1: int, y1: int, x2: int, y2: int, steps: int, i: int) -> (int, int) {
    (x1 + trunc_div((x2 - x1) * i, steps), y1 + trunc_div((y2 - y1) * i, steps))
}

/// The number of steps a stroke takes: its longer axis, at least one.
pub open spec fn stroke_steps(x1: int, y1: int, x2: int, y2: int) -> int {
    let ax = if x2 - x1 < 0 { x1 - x2 } else { x2 - x1 };
    let ay = if y2 - y1 < 0 { y1 - y2 } else { y2 - y1 };
    let m = if ax > ay { ax } else { ay };
    if m > 1 { m } else { 1 }
}

/// Whether `(px, py)` is painted by the stamp at point `i` of a stroke: the
/// point itself for radius 0, a disc of that radius otherwise.
pub open spec fn stamp_at(x1: int, y1: int, x2: int, y2: int, radius: int, i: int, px: int, py: int) -> bool {
    let p = stroke_point(x1, y1, x2, y2, stroke_steps(x1, y1, x2, y2), i);
    if radius == 0 {
        px == p.0 && py == p.1
    } else {
        disc_set(p.0, p.1, radius, px, py)
    }
}

/// The pixels stamped by the first `k` points of a stroke.
pub open spec fn stroke_upto(x1: int, y1: int, x2: int, y2: int, radius: int, k: int, px: int, py: int) -> bool {
    exists|i: int| 0 <= i < k && #[trigger] stamp_at(x1, y1, x2, y2, radius, i, px, py)
}

/// The pixels of a thick stroke: a disc of radius `thickness / 2` (none when
/// that is not positive, a single pixel instead) stamped at every point.
pub open spec fn stroke_set(x1: int, y1: int, x2: int, y2: int, thickness: int, px: int, py: int) -> bool {
    exists|i: int|
        0 <= i <= stroke_steps(x1, y1, x2, y2) && #[trigger] stamp_at(
            x1,
            y1,
            x2,
            y2,
            stroke_radius(thickness),
            i,
            px,
            py,
        )
}

/// The radius of the disc a stroke stamps: `thickness / 2`, rounded toward
/// zero, and 0 when that is not positive.
pub open spec fn stroke_radius(thickness: int) -> int {
    if trunc_div(thickness, 2) > 0 {
        trunc_div(thickness, 2)
    } else {
        0
    }
}

/// The sum of channel `c` along row `y` over columns `x0..x1` of a buffer
/// with three bytes per pixel, `w` pixels wide.
pub open spec fn row_sum(s: Seq<u8>, w: int, x0: int, x1: int, y: int, c: int) -> int
    decreases x1 - x0,
{
    if x1 <= x0 {
        0
    } else {
        row_sum(s, w, x0, x1 - 1, y, c) + s[(y * w + x1 - 1) * 3 + c]
    }
}

/// The sum of channel `c` over rows `y0..y1` and columns `x0..x1`.
pub open spec fn block_sum(s: Seq<u8>, w: int, x0: int, x1: int, y0: int, y1: int, c: int) -> int
    decreases y1 - y0,
{
    if y1 <= y0 {
        0
    } else {
        block_sum(s, w, x0, x1, y0, y1 - 1, c) + row_sum(s, w, x0, x1, y1 - 1, c)
    }
}

proof fn lemma_row_sum_bound(s: Seq<u8>, w: int, x0: int, x1: int, y: int, c: int)
    requires
        x0 <= x1,
    ensures
        0 <= row_sum(s, w, x0, x1, y, c) <= 255 * (x1 - x0),
    decreases x1 - x0,
{
    if x1 > x0 {
        lemma_row_sum_bound(s, w, x0, x1 - 1, y, c);
    }
}

proof fn lemma_block_sum_bound(s: Seq<u8>, w: int, x0: int, x1: int, y0: int, y1: int, c: int)
    requires
        x0 <= x1,
        y0 <= y1,
    ensures
        0 <= block_sum(s, w, x0, x1, y0, y1, c) <= 255 * (x1 - x0) * (y1 - y0),
    decreases y1 - y0,
{
    if y1 > y0 {
        lemma_block_sum_bound(s, w, x0, x1, y0, y1 - 1, c);
        lemma_row_sum_bound(s, w, x0, x1, y1 - 1, c);
        assert(255 * (x1 - x0) * (y1 - 1 - y0) + 255 * (x1 - x0) == 255 * (x1 - x0) * (y1 - y0))
            by (nonlinear_arith);
    }
}

/// The rows (or columns) `lo..hi` of a source `len` long that output row `o`
/// of `n` averages when resizing: `o * len / n` up to `(o + 1) * len / n`, at
/// least one, cut off at `len`.
pub open spec fn resize_span(o: int, len: int, n: int) -> (int, int) {
    let lo = o * len / n;
    let hi0 = (o + 1) * len / n;
    let hi1 = if hi0 > lo + 1 {
        hi0
    } else {
        lo + 1
    };
    (lo, if hi1 < len {
        hi1
    } else {
        len
    })
}

/// A BGR buffer's bytes in RGB order.
pub open spec fn rgb_of(bgr: Seq<u8>) -> Seq<u8> {
    Seq::new(bgr.len(), |i: int| bgr[3 * (i / 3) + 2 - i % 3])
}

/// An RGB canvas, three bytes per pixel, row-major.
pub struct Canvas {
    pub rgb: Vec<u8>,
    pub width: i32,
    pub height: i32,
}

impl Canvas {
    pub open spec fn wf(&self) -> bool {
        &&& self.width >= 0
        &&& self.height >= 0
        &&& self.rgb@.len() == self.width * self.height * 3
    }

    /// Channel `c` (0 = R, 1 = G, 2 = B) of the pixel at `(x, y)`.
    pub open spec fn byte(&self, x: int, y: int, c: int) -> u8 {
        self.rgb@[(y * self.width + x) * 3 + c]
    }

    /// The canvas after painting `set` in `color`.
    pub open spec fn painted(&self, set: spec_fn(int, int) -> bool, color: [u8; 3]) -> Seq<u8> {
        paint(self.rgb@, self.width as int, set, color)
    }

    /// A captured BGR frame as an RGB canvas.
    pub fn from_frame(frame: &Frame) -> (c: Canvas)
        requires
            frame.wf(),
            frame.width <= i32::MAX,
            frame.height <= i32::MAX,
        ensures
            c.wf(),
            c.width == frame.width,
            c.height == frame.height,
            forall|i: int, k: int|
                0 <= i < frame.width * frame.height && 0 <= k < 3 ==> #[trigger] c.rgb@[3 * i + k]
                    == frame.bgr@[3 * i + 2 - k],
    {
        let n = frame.bgr.len() / 3;
        let mut rgb: Vec<u8> = Vec::new();
        let mut i: usize = 0;
        proof {
            assert(frame.bgr@.len() == frame.bgr.len());
            assert(n == frame.width * frame.height);
        }
        while i < n
            invariant
                n == frame.width * frame.height,
                frame.wf(),
                i <= n,
                rgb@.len() == 3 * i,
                forall|j: int, k: int|
                    0 <= j < i && 0 <= k < 3 ==> #[trigger] rgb@[3 * j + k] == frame.bgr@[3 * j + 2 - k],
            decreases n - i,
        {
            proof {
                assert(3 * i + 3 <= frame.bgr@.len());
                assert(frame.bgr@.len() == frame.bgr.len());
            }
            rgb.push(frame.bgr[3 * i + 2]);
            rgb.push(frame.bgr[3 * i + 1]);
            rgb.push(frame.bgr[3 * i]);
            i = i + 1;
        }
        proof {
            assert(frame.width * frame.height * 3 == 3 * n);
        }
        Canvas { rgb, width: frame.width as i32, height: frame.height as i32 }
    }

    /// Paint the pixel `(x, y)`; a pixel off the canvas is ignored.
    pub fn put(&mut self, x: i64, y: i64, color: [u8; 3])
        requires
            old(self).wf(),
        ensures
            final(self).wf(),
            final(self).width == old(self).width,
            final(self).height == old(self).height,
            final(self).rgb@ == old(self).painted(|px: int, py: int| px == x && py == y, color),
    {
        let ghost set = |px: int, py: int| px == x && py == y;
        let ghost before = self.rgb@;
        let w = self.width as i64;
        let h = self.height as i64;
        if x < 0 || y < 0 || x >= w || y >= h {
            proof {
                assert forall|k: int| 0 <= k < before.len() implies #[trigger] paint(
                    before,
                    w as int,
                    set,
                    color,
                )[k] == before[k] by {
                    lemma_grid_coords(k, 3, w * h);
                    lemma_grid_coords(k / 3, w as int, h as int);
                }
                assert(paint(before, w as int, set, color) =~= before);
            }
            return;
        }
        proof {
            lemma_index_in_grid(x as int, y as int, w as int, h as int);
            assert(self.rgb@.len() == self.rgb.len());
        }
        let i = ((y as usize) * (self.width as usize) + (x as usize)) * 3;
        self.rgb.set(i, color[0]);
        self.rgb.set(i + 1, color[1]);
        self.rgb.set(i + 2, color[2]);
        proof {
            assert forall|k: int| 0 <= k < before.len() implies #[trigger] self.rgb@[k] == paint(
                before,
                w as int,
                set,
                color,
            )[k] by {
                lemma_grid_coords(k, 3, w * h);
                lemma_grid_coords(k / 3, w as int, h as int);
                lemma_grid_index_coords(x as int, y as int, w as int);
                if (k / 3) % (w as int) == x && (k / 3) / (w as int) == y {
                    assert(k / 3 == y * w + x);
                } else {
                    assert(k / 3 != y * w + x);
                }
            }
            assert(self.rgb@ =~= paint(before, w as int, set, color));
        }
    }

    /// Paint the run of row `y` from column `x0` to `x1`, both included.
    pub fn hspan(&mut self, x0: i64, x1: i64, y: i64, color: [u8; 3])
        requires
            old(self).wf(),
            x1 < i64::MAX,
        ensures
            final(self).wf(),
            final(self).width == old(self).width,
            final(self).height == old(self).height,
            final(self).rgb@ == old(self).painted(
                |px: int, py: int| py == y && x0 <= px <= x1,
                color,
            ),
    {
        let ghost before = self.rgb@;
        let ghost w = self.width as int;
        let ghost h = self.height as int;
        if x0 > x1 {
            proof {
                lemma_paint_nothing(before, w, |px: int, py: int| py == y && x0 <= px <= x1, color);
            }
            return;
        }
        let mut x = x0;
        proof {
            lemma_paint_nothing(before, w, |px: int, py: int| py == y && x0 <= px < x0, color);
        }
        while x <= x1
            invariant
                self.wf(),
                self.width == w,
                self.height == h,
                x0 <= x <= x1 + 1,
                x1 < i64::MAX,
                self.rgb@ == paint(before, w, |px: int, py: int| py == y && x0 <= px < x, color),
            decreases x1 + 1 - x,
        {
            self.put(x, y, color);
            proof {
                lemma_paint_union(
                    before,
                    w,
                    |px: int, py: int| py == y && x0 <= px < x,
                    |px: int, py: int| px == x && py == y,
                    color,
                );
                lemma_paint_same(
                    before,
                    w,
                    |px: int, py: int| (py == y && x0 <= px < x) || (px == x && py == y),
                    |px: int, py: int| py == y && x0 <= px < x + 1,
                    color,
                );
            }
            x = x + 1;
        }
        proof {
            lemma_paint_same(
                before,
                w,
                |px: int, py: int| py == y && x0 <= px < x,
                |px: int, py: int| py == y && x0 <= px <= x1,
                color,
            );
        }
    }

    /// Paint the run of column `x` from row `y0` to `y1`, both included.
    pub fn vspan(&mut self, x: i64, y0: i64, y1: i64, color: [u8; 3])
        requires
            old(self).wf(),
            y1 < i64::MAX,
        ensures
            final(self).wf(),
            final(self).width == old(self).width,
            final(self).height == old(self).height,
            final(self).rgb@ == old(self).painted(
                |px: int, py: int| px == x && y0 <= py <= y1,
                color,
            ),
    {
        let ghost before = self.rgb@;
        let ghost w = self.width as int;
        let ghost h = self.height as int;
        if y0 > y1 {
            proof {
                lemma_paint_nothing(before, w, |px: int, py: int| px == x && y0 <= py <= y1, color);
            }
            return;
        }
        let mut y = y0;
        proof {
            lemma_paint_nothing(before, w, |px: int, py: int| px == x && y0 <= py < y0, color);
        }
        while y <= y1
            invariant
                self.wf(),
                self.width == w,
                self.height == h,
                y0 <= y <= y1 + 1,
                y1 < i64::MAX,
                self.rgb@ == paint(before, w, |px: int, py: int| px == x && y0 <= py < y, color),
            decreases y1 + 1 - y,
        {
            self.put(x, y, color);
            proof {
                lemma_paint_union(
                    before,
                    w,
                    |px: int, py: int| px == x && y0 <= py < y,
                    |px: int, py: int| px == x && py == y,
                    color,
                );
                lemma_paint_same(
                    before,
                    w,
                    |px: int, py: int| (px == x && y0 <= py < y) || (px == x && py == y),
                    |px: int, py: int| px == x && y0 <= py < y + 1,
                    color,
                );
            }
            y = y + 1;
        }
        proof {
            lemma_paint_same(
                before,
                w,
                |px: int, py: int| px == x && y0 <= py < y,
                |px: int, py: int| px == x && y0 <= py <= y1,
                color,
            );
        }
    }

    /// Axis-aligned rectangle outline with corners `(x1, y1)` and `(x2, y2)`,
    /// `thickness` pixels thick, drawn inward from each edge.
    pub fn rect(&mut self, x1: i32, y1: i32, x2: i32, y2: i32, color: [u8; 3], thickness: i32)
        requires
            old(self).wf(),
        ensures
            final(self).wf(),
            final(self).width == old(self).width,
            final(self).height == old(self).height,
            final(self).rgb@ == old(self).painted(
                |px: int, py: int| rect_outline(x1 as int, y1 as int, x2 as int, y2 as int, thickness as int, px, py),
                color,
            ),
    {
        let ghost before = self.rgb@;
        let ghost w = self.width as int;
        let ghost h = self.height as int;
        let (ax1, ay1, ax2, ay2) = (x1 as i64, y1 as i64, x2 as i64, y2 as i64);
        let mut t: i64 = 0;
        proof {
            lemma_paint_nothing(
                before,
                w,
                |px: int, py: int| rect_outline(x1 as int, y1 as int, x2 as int, y2 as int, 0, px, py),
                color,
            );
        }
        while t < thickness as i64
            invariant
                self.wf(),
                self.width == w,
                self.height == h,
                0 <= t,
                t <= thickness || t == 0,
                ax1 == x1 && ay1 == y1 && ax2 == x2 && ay2 == y2,
                self.rgb@ == paint(
                    before,
                    w,
                    |px: int, py: int| rect_outline(x1 as int, y1 as int, x2 as int, y2 as int, t as int, px, py),
                    color,
                ),
            decreases thickness - t,
        {
            let ghost s0 = |px: int, py: int| rect_outline(x1 as int, y1 as int, x2 as int, y2 as int, t as int, px, py);
            let ghost a = |px: int, py: int| py == y1 + t && x1 <= px <= x2;
            let ghost b = |px: int, py: int| py == y2 - t && x1 <= px <= x2;
            let ghost c = |px: int, py: int| px == x1 + t && y1 <= py <= y2;
            let ghost d = |px: int, py: int| px == x2 - t && y1 <= py <= y2;
            self.hspan(ax1, ax2, ay1 + t, color);
            self.hspan(ax1, ax2, ay2 - t, color);
            self.vspan(ax1 + t, ay1, ay2, color);
            self.vspan(ax2 - t, ay1, ay2, color);
            proof {
                lemma_paint_union(before, w, s0, a, color);
                let s1 = |px: int, py: int| s0(px, py) || a(px, py);
                lemma_paint_union(before, w, s1, b, color);
                let s2 = |px: int, py: int| s1(px, py) || b(px, py);
                lemma_paint_union(before, w, s2, c, color);
                let s3 = |px: int, py: int| s2(px, py) || c(px, py);
                lemma_paint_union(before, w, s3, d, color);
                let s4 = |px: int, py: int| s3(px, py) || d(px, py);
                lemma_paint_same(
                    before,
                    w,
                    s4,
                    |px: int, py: int| rect_outline(x1 as int, y1 as int, x2 as int, y2 as int, t + 1, px, py),
                    color,
                );
            }
            t = t + 1;
        }
        proof {
            if thickness <= 0 {
                lemma_paint_same(
                    before,
                    w,
                    |px: int, py: int| rect_outline(x1 as int, y1 as int, x2 as int, y2 as int, t as int, px, py),
                    |px: int, py: int| rect_outline(x1 as int, y1 as int, x2 as int, y2 as int, thickness as int, px, py),
                    color,
                );
            }
        }
    }

    /// A straight horizontal or vertical line, `thickness / 2` pixels to each
    /// side of it; a diagonal line draws nothing.
    pub fn line(&mut self, x1: i32, y1: i32, x2: i32, y2: i32, color: [u8; 3], thickness: i32)
        requires
            old(self).wf(),
        ensures
            final(self).wf(),
            final(self).width == old(self).width,
            final(self).height == old(self).height,
            final(self).rgb@ == old(self).painted(
                |px: int, py: int| line_set(x1 as int, y1 as int, x2 as int, y2 as int, thickness as int, px, py),
                color,
            ),
    {
        let ghost before = self.rgb@;
        let ghost w = self.width as int;
        let ghost h = self.height as int;
        let half = (thickness / 2) as i64;
        proof {
            assert(half == trunc_div(thickness as int, 2));
        }
        let (lo_x, hi_x) = if x1 <= x2 { (x1 as i64, x2 as i64) } else { (x2 as i64, x1 as i64) };
        let (lo_y, hi_y) = if y1 <= y2 { (y1 as i64, y2 as i64) } else { (y2 as i64, y1 as i64) };
        if y1 != y2 && x1 != x2 {
            proof {
                lemma_paint_nothing(
                    before,
                    w,
                    |px: int, py: int| line_set(x1 as int, y1 as int, x2 as int, y2 as int, thickness as int, px, py),
                    color,
                );
            }
            return;
        }
        let mut t: i64 = -half;
        proof {
            lemma_paint_nothing(
                before,
                w,
                |px: int, py: int| line_band(x1 as int, y1 as int, x2 as int, y2 as int, -half, -half, px, py),
                color,
            );
        }
        while t <= half
            invariant
                self.wf(),
                self.width == w,
                self.height == h,
                -half <= t,
                t <= half + 1 || t == -half,
                -0x4000_0000 <= half <= 0x4000_0000,
                y1 == y2 || x1 == x2,
                lo_x == if x1 <= x2 { x1 } else { x2 },
                hi_x == if x1 <= x2 { x2 } else { x1 },
                lo_y == if y1 <= y2 { y1 } else { y2 },
                hi_y == if y1 <= y2 { y2 } else { y1 },
                self.rgb@ == paint(
                    before,
                    w,
                    |px: int, py: int| line_band(x1 as int, y1 as int, x2 as int, y2 as int, -half, t as int, px, py),
                    color,
                ),
            decreases half + 1 - t,
        {
            let ghost s0 = |px: int, py: int| line_band(x1 as int, y1 as int, x2 as int, y2 as int, -half, t as int, px, py);
            if y1 == y2 {
                self.hspan(lo_x, hi_x, y1 as i64 + t, color);
                proof {
                    lemma_paint_union(before, w, s0, |px: int, py: int| py == y1 + t && lo_x <= px <= hi_x, color);
                }
            } else {
                self.vspan(x1 as i64 + t, lo_y, hi_y, color);
                proof {
                    lemma_paint_union(before, w, s0, |px: int, py: int| px == x1 + t && lo_y <= py <= hi_y, color);
                }
            }
            proof {
                lemma_paint_same(
                    before,
                    w,
                    |px: int, py: int| s0(px, py) || (if y1 == y2 {
                        py == y1 + t && lo_x <= px <= hi_x
                    } else {
                        px == x1 + t && lo_y <= py <= hi_y
                    }),
                    |px: int, py: int| line_band(x1 as int, y1 as int, x2 as int, y2 as int, -half, t + 1, px, py),
                    color,
                );
                if y1 != y2 {
                    lemma_paint_same(
                        before,
                        w,
                        |px: int, py: int| s0(px, py) || (px == x1 + t && lo_y <= py <= hi_y),
                        |px: int, py: int| line_band(x1 as int, y1 as int, x2 as int, y2 as int, -half, t + 1, px, py),
                        color,
                    );
                } else {
                    lemma_paint_same(
                        before,
                        w,
                        |px: int, py: int| s0(px, py) || (py == y1 + t && lo_x <= px <= hi_x),
                        |px: int, py: int| line_band(x1 as int, y1 as int, x2 as int, y2 as int, -half, t + 1, px, py),
                        color,
                    );
                }
            }
            t = t + 1;
        }
        proof {
            lemma_paint_same(
                before,
                w,
                |px: int, py: int| line_band(x1 as int, y1 as int, x2 as int, y2 as int, -half, t as int, px, py),
                |px: int, py: int| line_set(x1 as int, y1 as int, x2 as int, y2 as int, thickness as int, px, py),
                color,
            );
        }
    }

    /// The eight reflections of `(x, y)` around `(cx, cy)`.
    fn put_octants(&mut self, cx: i64, cy: i64, x: i64, y: i64, color: [u8; 3])
        requires
            old(self).wf(),
            -0x100_0000_0000 <= cx <= 0x100_0000_0000,
            -0x100_0000_0000 <= cy <= 0x100_0000_0000,
            -0x100_0000_0000 <= x <= 0x100_0000_0000,
            -0x100_0000_0000 <= y <= 0x100_0000_0000,
        ensures
            final(self).wf(),
            final(self).width == old(self).width,
            final(self).height == old(self).height,
            final(self).rgb@ == old(self).painted(
                |px: int, py: int| octant(x as int, y as int, px - cx, py - cy),
                color,
            ),
    {
        let ghost before = self.rgb@;
        let ghost w = self.width as int;
        self.put(cx + x, cy + y, color);
        self.put(cx + y, cy + x, color);
        self.put(cx - y, cy + x, color);
        self.put(cx - x, cy + y, color);
        self.put(cx - x, cy - y, color);
        self.put(cx - y, cy - x, color);
        self.put(cx + y, cy - x, color);
        self.put(cx + x, cy - y, color);
        proof {
            let p0 = |px: int, py: int| px == cx + x && py == cy + y;
            let p1 = |px: int, py: int| px == cx + y && py == cy + x;
            let p2 = |px: int, py: int| px == cx - y && py == cy + x;
            let p3 = |px: int, py: int| px == cx - x && py == cy + y;
            let p4 = |px: int, py: int| px == cx - x && py == cy - y;
            let p5 = |px: int, py: int| px == cx - y && py == cy - x;
            let p6 = |px: int, py: int| px == cx + y && py == cy - x;
            let p7 = |px: int, py: int| px == cx + x && py == cy - y;
            lemma_paint_union(before, w, p0, p1, color);
            let u1 = |px: int, py: int| p0(px, py) || p1(px, py);
            lemma_paint_union(before, w, u1, p2, color);
            let u2 = |px: int, py: int| u1(px, py) || p2(px, py);
            lemma_paint_union(before, w, u2, p3, color);
            let u3 = |px: int, py: int| u2(px, py) || p3(px, py);
            lemma_paint_union(before, w, u3, p4, color);
            let u4 = |px: int, py: int| u3(px, py) || p4(px, py);
            lemma_paint_union(before, w, u4, p5, color);
            let u5 = |px: int, py: int| u4(px, py) || p5(px, py);
            lemma_paint_union(before, w, u5, p6, color);
            let u6 = |px: int, py: int| u5(px, py) || p6(px, py);
            lemma_paint_union(before, w, u6, p7, color);
            let u7 = |px: int, py: int| u6(px, py) || p7(px, py);
            lemma_paint_same(
                before,
                w,
                u7,
                |px: int, py: int| octant(x as int, y as int, px - cx, py - cy),
                color,
            );
        }
    }

    /// Circle outline around `(cx, cy)` by the midpoint algorithm, thickened by
    /// drawing every radius from `radius - thickness + 1` (at least 1) to
    /// `radius`.
    pub fn circle(&mut self, cx: i32, cy: i32, radius: i32, color: [u8; 3], thickness: i32)
        requires
            old(self).wf(),
        ensures
            final(self).wf(),
            final(self).width == old(self).width,
            final(self).height == old(self).height,
            final(self).rgb@ == old(self).painted(
                |px: int, py: int| circle_set(cx as int, cy as int, radius as int, thickness as int, px, py),
                color,
            ),
    {
        let ghost before = self.rgb@;
        let ghost w = self.width as int;
        let ghost h = self.height as int;
        let lo0 = radius as i64 - thickness as i64 + 1;
        let lo: i64 = if lo0 > 1 {
            lo0
        } else {
            1
        };
        let ccx = cx as i64;
        let ccy = cy as i64;
        let mut r: i64 = lo;
        proof {
            lemma_paint_nothing(
                before,
                w,
                |px: int, py: int| exists|q: int| lo <= q < lo && #[trigger] on_ring(cx as int, cy as int, q, px, py),
                color,
            );
        }
        while r <= radius as i64
            invariant
                self.wf(),
                self.width == w,
                self.height == h,
                lo <= r,
                r <= radius + 1 || r == lo,
                1 <= lo,
                ccx == cx && ccy == cy,
                lo == (if radius - thickness + 1 > 1 { radius - thickness + 1 } else { 1 }),
                self.rgb@ == paint(
                    before,
                    w,
                    |px: int, py: int| exists|q: int| lo <= q < r && #[trigger] on_ring(cx as int, cy as int, q, px, py),
                    color,
                ),
            decreases radius + 1 - r,
        {
            let ghost base = self.rgb@;
            let ghost full = |px: int, py: int| on_ring(cx as int, cy as int, r as int, px, py);
            let mut x: i64 = r;
            let mut y: i64 = 0;
            let mut err: i128 = 0;
            let ghost mut seen: spec_fn(int, int) -> bool = |px: int, py: int| false;
            proof {
                lemma_paint_nothing(base, w, seen, color);
            }
            while x >= y
                invariant
                    self.wf(),
                    self.width == w,
                    self.height == h,
                    1 <= r <= 0x8000_0000,
                    -1 <= x <= r,
                    0 <= y <= x + 2,
                    y <= r + 2,
                    ccx == cx && ccy == cy,
                    err == x * x + y * y - r * r + 2 * y + 2 * (r - x),
                    forall|px: int, py: int| #[trigger] full(px, py) == (seen(px, py) || ring_from(
                        x as int,
                        y as int,
                        err as int,
                        px - cx,
                        py - cy,
                    )),
                    self.rgb@ == paint(base, w, seen, color),
                decreases x - y + 2,
            {
                let ghost oct = |px: int, py: int| octant(x as int, y as int, px - cx, py - cy);
                let ghost before_step = self.rgb@;
                self.put_octants(ccx, ccy, x, y, color);
                proof {
                    lemma_paint_union(base, w, seen, oct, color);
                }
                let ghost (ox, oy, oe) = (x as int, y as int, err as int);
                y = y + 1;
                proof {
                    assert(err + 1 + 2 * y <= 0x1_0000_0000_0000_0000_0000) by (nonlinear_arith)
                        requires
                            err == ox * ox + oy * oy - r * r + 2 * oy + 2 * (r - ox),
                            -1 <= ox <= r,
                            0 <= oy <= r + 2,
                            r <= 0x8000_0000,
                            y == oy + 1,
                    ;
                    assert(err >= -0x1_0000_0000_0000_0000_0000) by (nonlinear_arith)
                        requires
                            err == ox * ox + oy * oy - r * r + 2 * oy + 2 * (r - ox),
                            -1 <= ox <= r,
                            0 <= oy,
                            r <= 0x8000_0000,
                    ;
                }
                err = err + 1 + 2 * (y as i128);
                if 2 * (err - x as i128) + 1 > 0 {
                    x = x - 1;
                    err = err + 1 - 2 * (x as i128);
                }
                proof {
                    let n = midpoint_next(ox, oy, oe);
                    assert(x == n.0 && y == n.1 && err == n.2);
                    assert(err == x * x + y * y - r * r + 2 * y + 2 * (r - x)) by (nonlinear_arith)
                        requires
                            oe == ox * ox + oy * oy - r * r + 2 * oy + 2 * (r - ox),
                            n == midpoint_next(ox, oy, oe),
                            x == n.0,
                            y == n.1,
                            err == n.2,
                    ;
                    let seen2 = |px: int, py: int| seen(px, py) || oct(px, py);
                    assert forall|px: int, py: int| #[trigger] full(px, py) == (seen2(px, py) || ring_from(
                        x as int,
                        y as int,
                        err as int,
                        px - cx,
                        py - cy,
                    )) by {
                        assert(ring_from(ox, oy, oe, px - cx, py - cy) == (octant(ox, oy, px - cx, py - cy)
                            || ring_from(n.0, n.1, n.2, px - cx, py - cy)));
                    }
                    seen = seen2;
                }
            }
            proof {
                assert forall|px: int, py: int| #[trigger] full(px, py) == seen(px, py) by {
                    assert(!ring_from(x as int, y as int, err as int, px - cx, py - cy));
                }
                let prev = |px: int, py: int| exists|q: int| lo <= q < r && #[trigger] on_ring(cx as int, cy as int, q, px, py);
                lemma_paint_same(base, w, seen, full, color);
                lemma_paint_union(before, w, prev, full, color);
                assert forall|px: int, py: int|
                    (#[trigger] prev(px, py) || #[trigger] full(px, py)) == (exists|q: int| lo <= q < r + 1 && #[trigger] on_ring(cx as int, cy as int, q, px, py)) by {
                    if exists|q: int| lo <= q < r + 1 && #[trigger] on_ring(cx as int, cy as int, q, px, py) {
                        let q = choose|q: int| lo <= q < r + 1 && #[trigger] on_ring(cx as int, cy as int, q, px, py);
                        if q < r {
                            assert(prev(px, py));
                        }
                    }
                }
                lemma_paint_same(
                    before,
                    w,
                    |px: int, py: int| prev(px, py) || full(px, py),
                    |px: int, py: int| exists|q: int| lo <= q < r + 1 && #[trigger] on_ring(cx as int, cy as int, q, px, py),
                    color,
                );
            }
            r = r + 1;
        }
        proof {
            assert forall|px: int, py: int|
                #[trigger] circle_set(cx as int, cy as int, radius as int, thickness as int, px, py) == (exists|q: int| lo <= q < r && #[trigger] on_ring(cx as int, cy as int, q, px, py)) by {
                if circle_set(cx as int, cy as int, radius as int, thickness as int, px, py) {
                    let q = choose|q: int| lo <= q <= radius && #[trigger] on_ring(cx as int, cy as int, q, px, py);
                    assert(lo <= q < r && on_ring(cx as int, cy as int, q, px, py));
                }
            }
            lemma_paint_same(
                before,
                w,
                |px: int, py: int| exists|q: int| lo <= q < r && #[trigger] on_ring(cx as int, cy as int, q, px, py),
                |px: int, py: int| circle_set(cx as int, cy as int, radius as int, thickness as int, px, py),
                color,
            );
        }
    }

    /// A filled disc of `radius` around `(cx, cy)`.
    pub fn disc(&mut self, cx: i64, cy: i64, radius: i64, color: [u8; 3])
        requires
            old(self).wf(),
            -46340 <= radius <= 46340,
            -0x100_0000_0000 <= cx <= 0x100_0000_0000,
            -0x100_0000_0000 <= cy <= 0x100_0000_0000,
        ensures
            final(self).wf(),
            final(self).width == old(self).width,
            final(self).height == old(self).height,
            final(self).rgb@ == old(self).painted(
                |px: int, py: int| disc_set(cx as int, cy as int, radius as int, px, py),
                color,
            ),
    {
        let ghost before = self.rgb@;
        let ghost w = self.width as int;
        let ghost h = self.height as int;
        let mut dy: i64 = -radius;
        proof {
            lemma_paint_nothing(
                before,
                w,
                |px: int, py: int| disc_set(cx as int, cy as int, radius as int, px, py) && py - cy < -radius,
                color,
            );
        }
        while dy <= radius
            invariant
                self.wf(),
                self.width == w,
                self.height == h,
                -46340 <= radius <= 46340,
                -radius <= dy,
                dy <= radius + 1 || dy == -radius,
                -0x100_0000_0000 <= cx <= 0x100_0000_0000,
                -0x100_0000_0000 <= cy <= 0x100_0000_0000,
                self.rgb@ == paint(
                    before,
                    w,
                    |px: int, py: int| disc_set(cx as int, cy as int, radius as int, px, py) && py - cy < dy,
                    color,
                ),
            decreases radius + 1 - dy,
        {
            proof {
                assert(0 <= radius * radius <= 2147395600) by (nonlinear_arith)
                    requires
                        -46340 <= radius <= 46340,
                ;
                assert(0 <= dy * dy <= radius * radius) by (nonlinear_arith)
                    requires
                        -radius <= dy <= radius,
                ;
            }
            let n = radius * radius - dy * dy;
            proof {
                assert(0 <= n <= 46340 * 46340) by (nonlinear_arith)
                    requires
                        n == radius * radius - dy * dy,
                        -46340 <= radius <= 46340,
                        -radius <= dy <= radius,
                ;
            }
            let mut run: i64 = 0;
            while (run + 1) * (run + 1) <= n
                invariant
                    0 <= n <= 46340 * 46340,
                    0 <= run <= 46340,
                    run * run <= n,
                    (run + 1) * (run + 1) <= 46341 * 46341,
                decreases n - run * run,
            {
                proof {
                    assert(run + 1 <= 46340) by (nonlinear_arith)
                        requires
                            (run + 1) * (run + 1) <= n,
                            n <= 46340 * 46340,
                            run >= 0,
                    ;
                    assert((run + 1) * (run + 1) > run * run) by (nonlinear_arith)
                        requires
                            run >= 0,
                    ;
                    assert((run + 2) * (run + 2) <= 46341 * 46341) by (nonlinear_arith)
                        requires
                            0 <= run + 1 <= 46340,
                    ;
                }
                run = run + 1;
            }
            proof {
                lemma_isqrt_unique(n as int, run as int);
            }
            let ghost s0 = |px: int, py: int| disc_set(cx as int, cy as int, radius as int, px, py) && py - cy < dy;
            let ghost row = |px: int, py: int| py == cy + dy && cx - run <= px <= cx + run;
            self.hspan(cx - run, cx + run, cy + dy, color);
            proof {
                lemma_paint_union(before, w, s0, row, color);
                lemma_paint_same(
                    before,
                    w,
                    |px: int, py: int| s0(px, py) || row(px, py),
                    |px: int, py: int| disc_set(cx as int, cy as int, radius as int, px, py) && py - cy < dy + 1,
                    color,
                );
            }
            dy = dy + 1;
        }
        proof {
            lemma_paint_same(
                before,
                w,
                |px: int, py: int| disc_set(cx as int, cy as int, radius as int, px, py) && py - cy < dy,
                |px: int, py: int| disc_set(cx as int, cy as int, radius as int, px, py),
                color,
            );
        }
    }

    /// A line at any angle from `(x1, y1)` to `(x2, y2)`, thickened by
    /// stamping a disc of radius `thickness / 2` at each of its points.
    pub fn stroke(&mut self, x1: i32, y1: i32, x2: i32, y2: i32, color: [u8; 3], thickness: i32)
        requires
            old(self).wf(),
            thickness / 2 <= 46340,
        ensures
            final(self).wf(),
            final(self).width == old(self).width,
            final(self).height == old(self).height,
            final(self).rgb@ == old(self).painted(
                |px: int, py: int| stroke_set(x1 as int, y1 as int, x2 as int, y2 as int, thickness as int, px, py),
                color,
            ),
    {
        let ghost before = self.rgb@;
        let ghost w = self.width as int;
        let ghost h = self.height as int;
        let half = (thickness / 2) as i64;
        proof {
            assert(half == trunc_div(thickness as int, 2));
        }
        let radius: i64 = if half > 0 {
            half
        } else {
            0
        };
        let (ax1, ay1, ax2, ay2) = (x1 as i64, y1 as i64, x2 as i64, y2 as i64);
        let dx = ax2 - ax1;
        let dy = ay2 - ay1;
        let adx = if dx < 0 {
            -dx
        } else {
            dx
        };
        let ady = if dy < 0 {
            -dy
        } else {
            dy
        };
        let m = if adx > ady {
            adx
        } else {
            ady
        };
        let steps: i64 = if m > 1 {
            m
        } else {
            1
        };
        let mut i: i64 = 0;
        proof {
            lemma_paint_nothing(before, w, |qx: int, qy: int| stroke_upto(x1 as int, y1 as int, x2 as int, y2 as int, radius as int, 0, qx, qy), color);
        }
        while i <= steps
            invariant
                self.wf(),
                self.width == w,
                self.height == h,
                0 <= i <= steps + 1,
                1 <= steps <= 0x1_0000_0000,
                steps == stroke_steps(x1 as int, y1 as int, x2 as int, y2 as int),
                0 <= radius <= 46340,
                radius == stroke_radius(thickness as int),
                ax1 == x1 && ay1 == y1 && dx == x2 - x1 && dy == y2 - y1,
                -0x1_0000_0000 <= dx <= 0x1_0000_0000,
                -0x1_0000_0000 <= dy <= 0x1_0000_0000,
                self.rgb@ == paint(before, w, |qx: int, qy: int| stroke_upto(x1 as int, y1 as int, x2 as int, y2 as int, radius as int, i as int, qx, qy), color),
            decreases steps + 1 - i,
        {
            proof {
                lemma_step_bound(dx as int, i as int, steps as int);
                lemma_step_bound(dy as int, i as int, steps as int);
            }
            let qx = trunc_div_wide(dx as i128 * i as i128, steps as i128);
            let qy = trunc_div_wide(dy as i128 * i as i128, steps as i128);
            let px = ax1 + qx as i64;
            let py = ay1 + qy as i64;
            proof {
                assert(stroke_point(x1 as int, y1 as int, x2 as int, y2 as int, steps as int, i as int) == (px as int, py as int));
            }
            let ghost stamp = |qx: int, qy: int| stamp_at(x1 as int, y1 as int, x2 as int, y2 as int, radius as int, i as int, qx, qy);
            if radius == 0 {
                self.put(px, py, color);
                proof {
                    lemma_paint_same(before, w, |qx: int, qy: int| qx == px && qy == py, stamp, color);
                }
            } else {
                self.disc(px, py, radius, color);
                proof {
                    lemma_paint_same(
                        before,
                        w,
                        |qx: int, qy: int| disc_set(px as int, py as int, radius as int, qx, qy),
                        stamp,
                        color,
                    );
                }
            }
            proof {
                lemma_paint_union(before, w, |qx: int, qy: int| stroke_upto(x1 as int, y1 as int, x2 as int, y2 as int, radius as int, i as int, qx, qy), stamp, color);
                assert forall|qx: int, qy: int|
                    (#[trigger] stroke_upto(x1 as int, y1 as int, x2 as int, y2 as int, radius as int, i as int, qx, qy) || stamp(qx, qy)) == stroke_upto(x1 as int, y1 as int, x2 as int, y2 as int, radius as int, i + 1, qx, qy) by {
                    if stroke_upto(x1 as int, y1 as int, x2 as int, y2 as int, radius as int, i + 1, qx, qy) {
                        let j = choose|j: int| 0 <= j < i + 1 && #[trigger] stamp_at(x1 as int, y1 as int, x2 as int, y2 as int, radius as int, j, qx, qy);
                        if j < i {
                            assert(stroke_upto(x1 as int, y1 as int, x2 as int, y2 as int, radius as int, i as int, qx, qy));
                        }
                    }
                }
                lemma_paint_same(
                    before,
                    w,
                    |qx: int, qy: int| stroke_upto(x1 as int, y1 as int, x2 as int, y2 as int, radius as int, i as int, qx, qy) || stamp(qx, qy),
                    |qx: int, qy: int| stroke_upto(x1 as int, y1 as int, x2 as int, y2 as int, radius as int, i + 1, qx, qy),
                    color,
                );
            }
            i = i + 1;
        }
        proof {
            assert(i == steps + 1);
            assert forall|qx: int, qy: int| #[trigger] stroke_upto(x1 as int, y1 as int, x2 as int, y2 as int, radius as int, i as int, qx, qy) == stroke_set(
                x1 as int,
                y1 as int,
                x2 as int,
                y2 as int,
                thickness as int,
                qx,
                qy,
            ) by {
                if stroke_set(x1 as int, y1 as int, x2 as int, y2 as int, thickness as int, qx, qy) {
                    let j = choose|j: int| 0 <= j <= stroke_steps(x1 as int, y1 as int, x2 as int, y2 as int) && #[trigger] stamp_at(x1 as int, y1 as int, x2 as int, y2 as int, radius as int, j, qx, qy);
                    assert(0 <= j < i && stamp_at(x1 as int, y1 as int, x2 as int, y2 as int, radius as int, j, qx, qy));
                }
                if stroke_upto(x1 as int, y1 as int, x2 as int, y2 as int, radius as int, i as int, qx, qy) {
                    let j = choose|j: int| 0 <= j < i && #[trigger] stamp_at(x1 as int, y1 as int, x2 as int, y2 as int, radius as int, j, qx, qy);
                    assert(0 <= j <= stroke_steps(x1 as int, y1 as int, x2 as int, y2 as int));
                }
            }
            lemma_paint_same(
                before,
                w,
                |qx: int, qy: int| stroke_upto(x1 as int, y1 as int, x2 as int, y2 as int, radius as int, i as int, qx, qy),
                |qx: int, qy: int| stroke_set(x1 as int, y1 as int, x2 as int, y2 as int, thickness as int, qx, qy),
                color,
            );
        }
    }

    /// The sum of channel `c` over a block of the canvas.
    fn block_total(&self, x0: usize, x1: usize, y0: usize, y1: usize, c: usize) -> (t: u128)
        requires
            self.wf(),
            x0 <= x1 <= self.width,
            y0 <= y1 <= self.height,
            c < 3,
        ensures
            t == block_sum(self.rgb@, self.width as int, x0 as int, x1 as int, y0 as int, y1 as int, c as int),
    {
        let w = self.width as usize;
        let mut t: u128 = 0;
        let mut y = y0;
        while y < y1
            invariant
                self.wf(),
                w == self.width,
                x0 <= x1 <= self.width,
                y0 <= y <= y1 <= self.height,
                c < 3,
                t == block_sum(self.rgb@, w as int, x0 as int, x1 as int, y0 as int, y as int, c as int),
            decreases y1 - y,
        {
            let mut x = x0;
            let mut r: u128 = 0;
            while x < x1
                invariant
                    self.wf(),
                    w == self.width,
                    x0 <= x <= x1 <= self.width,
                    y0 <= y < y1 <= self.height,
                    c < 3,
                    r == row_sum(self.rgb@, w as int, x0 as int, x as int, y as int, c as int),
                decreases x1 - x,
            {
                proof {
                    lemma_row_sum_bound(self.rgb@, w as int, x0 as int, x as int, y as int, c as int);
                    lemma_index_in_grid(x as int, y as int, w as int, self.height as int);
                    assert((y * w + x) * 3 + c < w * self.height * 3) by (nonlinear_arith)
                        requires
                            y * w + x < w * self.height,
                            c < 3,
                    ;
                    assert(self.rgb@.len() == self.rgb.len());
                    assert(x - x0 <= 0x1_0000_0000);
                }
                r = r + self.rgb[(y * w + x) * 3 + c] as u128;
                x = x + 1;
            }
            proof {
                lemma_block_sum_bound(self.rgb@, w as int, x0 as int, x1 as int, y0 as int, y as int, c as int);
                lemma_row_sum_bound(self.rgb@, w as int, x0 as int, x1 as int, y as int, c as int);
                assert(255 * (x1 - x0) * (y - y0) + 255 * (x1 - x0) <= 255 * 0x8000_0000 * 0x8000_0001) by (nonlinear_arith)
                    requires
                        0 <= x1 - x0 <= 0x8000_0000,
                        0 <= y - y0 <= 0x8000_0000,
                ;
            }
            t = t + r;
            y = y + 1;
        }
        t
    }

    /// Box-average resize to `width` by `height` (each at least 1): output
    /// pixel `(ox, oy)` is the rounded-down mean of the source block
    /// `resize_span(ox, ..)` by `resize_span(oy, ..)`, 0 for an empty block.
    pub fn resized(&self, width: i32, height: i32) -> (out: Canvas)
        requires
            self.wf(),
            (if width > 1 { width as int } else { 1 }) * (if height > 1 { height as int } else { 1 }) * 3
                <= usize::MAX,
        ensures
            out.wf(),
            out.width == (if width > 1 { width } else { 1 }),
            out.height == (if height > 1 { height } else { 1 }),
            forall|ox: int, oy: int, k: int|
                0 <= ox < out.width && 0 <= oy < out.height && 0 <= k < 3 ==> {
                    let xs = resize_span(ox, self.width as int, out.width as int);
                    let ys = resize_span(oy, self.height as int, out.height as int);
                    let n = if xs.1 > xs.0 && ys.1 > ys.0 {
                        (xs.1 - xs.0) * (ys.1 - ys.0)
                    } else {
                        1
                    };
                    #[trigger] out.byte(ox, oy, k) == block_sum(
                        self.rgb@,
                        self.width as int,
                        xs.0,
                        xs.1,
                        ys.0,
                        ys.1,
                        k,
                    ) / n
                },
    {
        let ow: i64 = if width > 1 {
            width as i64
        } else {
            1
        };
        let oh: i64 = if height > 1 {
            height as i64
        } else {
            1
        };
        let sw = self.width as i64;
        let sh = self.height as i64;
        let mut rgb: Vec<u8> = Vec::new();
        let mut oy: i64 = 0;
        while oy < oh
            invariant
                self.wf(),
                sw == self.width,
                sh == self.height,
                ow == (if width > 1 { width } else { 1 }),
                oh == (if height > 1 { height } else { 1 }),
                ow * oh * 3 <= usize::MAX,
                0 <= oy <= oh,
                rgb@.len() == oy * ow * 3,
                forall|px: int, py: int, k: int|
                    0 <= px < ow && 0 <= py < oy && 0 <= k < 3 ==> {
                        let xs = resize_span(px, sw as int, ow as int);
                        let ys = resize_span(py, sh as int, oh as int);
                        let n = if xs.1 > xs.0 && ys.1 > ys.0 {
                            (xs.1 - xs.0) * (ys.1 - ys.0)
                        } else {
                            1
                        };
                        #[trigger] rgb@[(py * ow + px) * 3 + k] == block_sum(
                            self.rgb@,
                            sw as int,
                            xs.0,
                            xs.1,
                            ys.0,
                            ys.1,
                            k,
                        ) / n
                    },
            decreases oh - oy,
        {
            let ghost ys = resize_span(oy as int, sh as int, oh as int);
            let (y0, y1) = span_of(oy, sh, oh);
            let mut ox: i64 = 0;
            while ox < ow
                invariant
                    self.wf(),
                    sw == self.width,
                    sh == self.height,
                    ow == (if width > 1 { width } else { 1 }),
                    oh == (if height > 1 { height } else { 1 }),
                    ow * oh * 3 <= usize::MAX,
                    0 <= oy < oh,
                    0 <= ox <= ow,
                    (y0 as int, y1 as int) == ys,
                    ys == resize_span(oy as int, sh as int, oh as int),
                    0 <= y0 <= sh,
                    y0 <= y1 || y1 == sh,
                    y1 <= sh,
                    rgb@.len() == (oy * ow + ox) * 3,
                    forall|px: int, py: int, k: int|
                        0 <= px < ow && 0 <= py < oy && 0 <= k < 3 ==> {
                            let xs = resize_span(px, sw as int, ow as int);
                            let ys = resize_span(py, sh as int, oh as int);
                            let n = if xs.1 > xs.0 && ys.1 > ys.0 {
                                (xs.1 - xs.0) * (ys.1 - ys.0)
                            } else {
                                1
                            };
                            #[trigger] rgb@[(py * ow + px) * 3 + k] == block_sum(
                                self.rgb@,
                                sw as int,
                                xs.0,
                                xs.1,
                                ys.0,
                                ys.1,
                                k,
                            ) / n
                        },
                    forall|px: int, k: int|
                        0 <= px < ox && 0 <= k < 3 ==> {
                            let xs = resize_span(px, sw as int, ow as int);
                            let n = if xs.1 > xs.0 && ys.1 > ys.0 {
                                (xs.1 - xs.0) * (ys.1 - ys.0)
                            } else {
                                1
                            };
                            #[trigger] rgb@[(oy * ow + px) * 3 + k] == block_sum(
                                self.rgb@,
                                sw as int,
                                xs.0,
                                xs.1,
                                ys.0,
                                ys.1,
                                k,
                            ) / n
                        },
                decreases ow - ox,
            {
                let (x0, x1) = span_of(ox, sw, ow);
                let ghost xs = resize_span(ox as int, sw as int, ow as int);
                let n: u128 = if x1 > x0 && y1 > y0 {
                    proof {
                        assert(1 <= (x1 - x0) * (y1 - y0) <= 0x8000_0000 * 0x8000_0000) by (nonlinear_arith)
                            requires
                                0 < x1 - x0 <= 0x8000_0000,
                                0 < y1 - y0 <= 0x8000_0000,
                        ;
                    }
                    ((x1 - x0) * (y1 - y0)) as u128
                } else {
                    1
                };
                assert(n >= 1);
                let (bx0, bx1) = if x1 > x0 { (x0 as usize, x1 as usize) } else { (x0 as usize, x0 as usize) };
                let (by0, by1) = if y1 > y0 { (y0 as usize, y1 as usize) } else { (y0 as usize, y0 as usize) };
                let r = self.block_total(bx0, bx1, by0, by1, 0);
                let g = self.block_total(bx0, bx1, by0, by1, 1);
                let b = self.block_total(bx0, bx1, by0, by1, 2);
                proof {
                    lemma_block_sum_bound(self.rgb@, sw as int, bx0 as int, bx1 as int, by0 as int, by1 as int, 0);
                    lemma_block_sum_bound(self.rgb@, sw as int, bx0 as int, bx1 as int, by0 as int, by1 as int, 1);
                    lemma_block_sum_bound(self.rgb@, sw as int, bx0 as int, bx1 as int, by0 as int, by1 as int, 2);
                    if !(x1 > x0 && y1 > y0) {
                        assert(bx1 == bx0 || by1 == by0);
                        assert(255 * (bx1 - bx0) * (by1 - by0) == 0) by (nonlinear_arith)
                            requires
                                bx1 == bx0 || by1 == by0,
                        ;
                    } else {
                        assert(255 * (bx1 - bx0) * (by1 - by0) == 255 * n) by (nonlinear_arith)
                            requires
                                n == (x1 - x0) * (y1 - y0),
                                bx1 - bx0 == x1 - x0,
                                by1 - by0 == y1 - y0,
                        ;
                        assert(r / n <= 255 && g / n <= 255 && b / n <= 255) by (nonlinear_arith)
                            requires
                                r <= 255 * n,
                                g <= 255 * n,
                                b <= 255 * n,
                                n >= 1,
                        ;
                    }
                    assert(block_sum(self.rgb@, sw as int, xs.0, xs.1, ys.0, ys.1, 0) == r);
                }
                let ghost before = rgb@;
                rgb.push((r / n) as u8);
                rgb.push((g / n) as u8);
                rgb.push((b / n) as u8);
                proof {
                    assert forall|px: int, py: int, k: int|
                        0 <= px < ow && 0 <= py < oy && 0 <= k < 3 implies #[trigger] rgb@[(py * ow + px) * 3 + k]
                            == before[(py * ow + px) * 3 + k] by {
                        lemma_index_in_grid(px, py, ow as int, oy as int);
                        assert((py * ow + px) * 3 + k < (oy * ow) * 3) by (nonlinear_arith)
                            requires
                                py * ow + px < ow * oy,
                                0 <= k < 3,
                        ;
                    }
                    assert forall|px: int, k: int|
                        0 <= px < ox && 0 <= k < 3 implies #[trigger] rgb@[(oy * ow + px) * 3 + k]
                            == before[(oy * ow + px) * 3 + k] by {
                        assert((oy * ow + px) * 3 + k < (oy * ow + ox) * 3);
                    }
                }
                ox = ox + 1;
            }
            proof {
                assert((oy + 1) * ow == oy * ow + ow) by (nonlinear_arith);
            }
            oy = oy + 1;
        }
        proof {
            assert(oh * ow * 3 == ow * oh * 3) by (nonlinear_arith);
        }
        Canvas { rgb, width: ow as i32, height: oh as i32 }
    }

    /// A captured frame as an RGB canvas scaled down by `factor`: each output
    /// pixel is the rounded-down mean of its `factor` by `factor` block, and a
    /// partial block at the right or bottom edge is dropped. A factor of 1 or
    /// less is a plain conversion.
    pub fn from_frame_scaled(frame: &Frame, factor: u32) -> (c: Canvas)
        requires
            frame.wf(),
            frame.width <= i32::MAX,
            frame.height <= i32::MAX,
        ensures
            c.wf(),
            factor <= 1 ==> c.width == frame.width && c.height == frame.height && c.rgb@ == rgb_of(frame.bgr@),
            factor > 1 ==> {
                &&& c.width == frame.width / factor
                &&& c.height == frame.height / factor
                &&& forall|ox: int, oy: int, k: int|
                    0 <= ox < c.width && 0 <= oy < c.height && 0 <= k < 3 ==> #[trigger] c.byte(ox, oy, k)
                        == block_sum(
                        rgb_of(frame.bgr@),
                        frame.width as int,
                        ox * factor,
                        ox * factor + factor,
                        oy * factor,
                        oy * factor + factor,
                        k,
                    ) / (factor * factor)
            },
    {
        let base = Canvas::from_frame(frame);
        proof {
            assert(base.rgb@ =~= rgb_of(frame.bgr@)) by {
                assert forall|i: int| 0 <= i < base.rgb@.len() implies #[trigger] base.rgb@[i] == rgb_of(frame.bgr@)[i] by {
                    vstd::arithmetic::div_mod::lemma_fundamental_div_mod(i, 3);
                    assert(base.rgb@[3 * (i / 3) + i % 3] == frame.bgr@[3 * (i / 3) + 2 - i % 3]);
                }
            }
        }
        if factor <= 1 {
            return base;
        }
        let f = factor as usize;
        let fw = frame.width as usize;
        let fh = frame.height as usize;
        let ow = fw / f;
        let oh = fh / f;
        proof {
            assert(ow * f <= fw && oh * f <= fh) by (nonlinear_arith)
                requires
                    ow == fw / f,
                    oh == fh / f,
                    f >= 2,
            ;
            assert(ow <= fw && oh <= fh) by (nonlinear_arith)
                requires
                    ow * f <= fw,
                    oh * f <= fh,
                    f >= 2,
            ;
            assert(ow * oh * 3 <= fw * fh * 3) by (nonlinear_arith)
                requires
                    ow <= fw,
                    oh <= fh,
            ;
            assert(f * f <= fw * fh || ow * oh == 0) by (nonlinear_arith)
                requires
                    ow * f <= fw,
                    oh * f <= fh,
                    f >= 2,
            ;
        }
        let mut rgb: Vec<u8> = Vec::new();
        let mut oy: usize = 0;
        while oy < oh
            invariant
                base.wf(),
                base.width == frame.width,
                base.height == frame.height,
                base.rgb@ == rgb_of(frame.bgr@),
                f == factor,
                f >= 2,
                fw == frame.width,
                fh == frame.height,
                ow == fw / f,
                oh == fh / f,
                ow * f <= fw,
                oh * f <= fh,
                ow * oh * 3 <= fw * fh * 3,
                oy <= oh,
                rgb@.len() == oy * ow * 3,
                forall|px: int, py: int, k: int|
                    0 <= px < ow && 0 <= py < oy && 0 <= k < 3 ==> #[trigger] rgb@[(py * ow + px) * 3 + k]
                        == block_sum(base.rgb@, fw as int, px * f, px * f + f, py * f, py * f + f, k) / (f
                        * f),
            decreases oh - oy,
        {
            let mut ox: usize = 0;
            while ox < ow
                invariant
                    base.wf(),
                    base.width == frame.width,
                    base.height == frame.height,
                    f == factor,
                    f >= 2,
                    fw == frame.width,
                    fh == frame.height,
                    ow == fw / f,
                    oh == fh / f,
                    ow * f <= fw,
                    oh * f <= fh,
                    ow * oh * 3 <= fw * fh * 3,
                    oy < oh,
                    ox <= ow,
                    rgb@.len() == (oy * ow + ox) * 3,
                    forall|px: int, py: int, k: int|
                        0 <= px < ow && 0 <= py < oy && 0 <= k < 3 ==> #[trigger] rgb@[(py * ow + px) * 3 + k]
                            == block_sum(base.rgb@, fw as int, px * f, px * f + f, py * f, py * f + f, k)
                            / (f * f),
                    forall|px: int, k: int|
                        0 <= px < ox && 0 <= k < 3 ==> #[trigger] rgb@[(oy * ow + px) * 3 + k] == block_sum(
                            base.rgb@,
                            fw as int,
                            px * f,
                            px * f + f,
                            oy * f,
                            oy * f + f,
                            k,
                        ) / (f * f),
                decreases ow - ox,
            {
                proof {
                    assert(ox * f + f <= fw && oy * f + f <= fh) by (nonlinear_arith)
                        requires
                            ox < ow,
                            oy < oh,
                            ow * f <= fw,
                            oh * f <= fh,
                    ;
                    assert(f * f <= fw * fh) by (nonlinear_arith)
                        requires
                            f <= fw,
                            f <= fh,
                    ;
                }
                let x0 = ox * f;
                let y0 = oy * f;
                proof {
                    assert(f * f <= 0xFFFF_FFFF * 0xFFFF_FFFF) by (nonlinear_arith)
                        requires
                            f <= 0xFFFF_FFFF,
                    ;
                }
                let n = (f as u128) * (f as u128);
                let r = base.block_total(x0, x0 + f, y0, y0 + f, 0);
                let g = base.block_total(x0, x0 + f, y0, y0 + f, 1);
                let b = base.block_total(x0, x0 + f, y0, y0 + f, 2);
                proof {
                    lemma_block_sum_bound(base.rgb@, fw as int, x0 as int, x0 + f, y0 as int, y0 + f, 0);
                    lemma_block_sum_bound(base.rgb@, fw as int, x0 as int, x0 + f, y0 as int, y0 + f, 1);
                    lemma_block_sum_bound(base.rgb@, fw as int, x0 as int, x0 + f, y0 as int, y0 + f, 2);
                    assert(255 * (x0 + f - x0) * (y0 + f - y0) == 255 * n) by (nonlinear_arith)
                        requires
                            n == f * f,
                    ;
                    assert(n >= 1) by (nonlinear_arith)
                        requires
                            n == f * f,
                            f >= 2,
                    ;
                    assert(r / n <= 255 && g / n <= 255 && b / n <= 255) by (nonlinear_arith)
                        requires
                            r <= 255 * n,
                            g <= 255 * n,
                            b <= 255 * n,
                            n >= 1,
                    ;
                }
                let ghost before = rgb@;
                rgb.push((r / n) as u8);
                rgb.push((g / n) as u8);
                rgb.push((b / n) as u8);
                proof {
                    assert forall|px: int, py: int, k: int|
                        0 <= px < ow && 0 <= py < oy && 0 <= k < 3 implies #[trigger] rgb@[(py * ow + px) * 3 + k]
                            == before[(py * ow + px) * 3 + k] by {
                        lemma_index_in_grid(px, py, ow as int, oy as int);
                        assert((py * ow + px) * 3 + k < (oy * ow) * 3) by (nonlinear_arith)
                            requires
                                py * ow + px < ow * oy,
                                0 <= k < 3,
                        ;
                    }
                    assert forall|px: int, k: int|
                        0 <= px < ox && 0 <= k < 3 implies #[trigger] rgb@[(oy * ow + px) * 3 + k]
                            == before[(oy * ow + px) * 3 + k] by {
                        assert((oy * ow + px) * 3 + k < (oy * ow + ox) * 3);
                    }
                }
                ox = ox + 1;
            }
            proof {
                assert((oy + 1) * ow == oy * ow + ow) by (nonlinear_arith);
            }
            oy = oy + 1;
        }
        proof {
            assert(oh * ow * 3 == ow * oh * 3) by (nonlinear_arith);
            assert(fw <= i32::MAX && fh <= i32::MAX);
        }
        Canvas { rgb, width: ow as i32, height: oh as i32 }
    }
}

/// Stepping `i` of `steps` along a span of `d` stays within the span.
proof fn lemma_step_bound(d: int, i: int, steps: int)
    requires
        -0x1_0000_0000 <= d <= 0x1_0000_0000,
        0 <= i <= steps,
        1 <= steps <= 0x1_0000_0000,
    ensures
        -0x1_0000_0000_0000_0000_0000 <= d * i <= 0x1_0000_0000_0000_0000_0000,
        -0x1_0000_0000 <= trunc_div(d * i, steps) <= 0x1_0000_0000,
{
    assert(-0x1_0000_0000_0000_0000 <= d * i <= 0x1_0000_0000_0000_0000) by (nonlinear_arith)
        requires
            -0x1_0000_0000 <= d <= 0x1_0000_0000,
            0 <= i <= 0x1_0000_0000,
    ;
    if d >= 0 {
        assert(d * i <= d * steps) by (nonlinear_arith)
            requires
                d >= 0,
                i <= steps,
        ;
        assert((d * i) / steps <= d) by (nonlinear_arith)
            requires
                0 <= d * i <= d * steps,
                steps >= 1,
        ;
        assert(0 <= (d * i) / steps) by (nonlinear_arith)
            requires
                0 <= d * i,
                steps >= 1,
        ;
    } else {
        let e = -d;
        assert(e * i == -(d * i)) by (nonlinear_arith)
            requires
                e == -d,
        ;
        assert(0 <= e * i <= e * steps) by (nonlinear_arith)
            requires
                e > 0,
                0 <= i <= steps,
        ;
        assert((e * i) / steps <= e) by (nonlinear_arith)
            requires
                0 <= e * i <= e * steps,
                steps >= 1,
        ;
        assert(0 <= (e * i) / steps) by (nonlinear_arith)
            requires
                0 <= e * i,
                steps >= 1,
        ;
    }

}

/// `resize_span` computed.
fn span_of(o: i64, len: i64, n: i64) -> (r: (i64, i64))
    requires
        0 <= o < n <= 0x8000_0000,
        0 <= len <= 0x8000_0000,
    ensures
        (r.0 as int, r.1 as int) == resize_span(o as int, len as int, n as int),
        0 <= r.0 <= len,
        r.1 <= len,
        r.0 <= r.1 || r.1 == len,
        len > 0 ==> r.0 < r.1,
{
    proof {
        assert(0 <= o * len <= 0x8000_0000 * 0x8000_0000) by (nonlinear_arith)
            requires
                0 <= o <= 0x8000_0000,
                0 <= len <= 0x8000_0000,
        ;
        assert(0 <= (o + 1) * len <= 0x8000_0001 * 0x8000_0000) by (nonlinear_arith)
            requires
                0 <= o + 1 <= 0x8000_0001,
                0 <= len <= 0x8000_0000,
        ;
        assert(o * len / (n as int) <= len && (o * len / (n as int) < len || len == 0)) by (nonlinear_arith)
            requires
                0 <= o < n,
                0 <= len,
        ;
        assert(0 <= o * len / (n as int)) by (nonlinear_arith)
            requires
                0 <= o * len,
                n > 0,
        ;
    }
    let lo = o * len / n;
    let hi0 = (o + 1) * len / n;
    let hi1 = if hi0 > lo + 1 {
        hi0
    } else {
        lo + 1
    };
    (lo, if hi1 < len {
        hi1
    } else {
        len
    })
}

/// Division rounding toward zero.
fn trunc_div_wide(a: i128, b: i128) -> (q: i128)
    requires
        b > 0,
        -0x1_0000_0000_0000_0000_0000 <= a <= 0x1_0000_0000_0000_0000_0000,
    ensures
        q == trunc_div(a as int, b as int),
{
    if a >= 0 {
        a / b
    } else {
        -((-a) / b)
    }
}

/// The integer factor that brings `width` to at most `MAX_PREVIEW_WIDTH`,
/// rounding up.
pub fn preview_factor(width: u32) -> (f: u32)
    ensures
        width <= 1280 ==> f == 1,
        width > 1280 ==> f == (width + 1279) / 1280,
{
    if width <= MAX_PREVIEW_WIDTH {
        1
    } else {
        (width - 1) / MAX_PREVIEW_WIDTH + 1
    }
}


// ── Encoding ─────────────────────────────────────────────────────────────────

/// The RGB bytes of a BGR frame scaled down by `factor` (see
/// `Canvas::from_frame_scaled`): each pixel the rounded-down mean of its
/// block, or the plain conversion for a factor of 1 or less.
pub open spec fn scaled_rgb(bgr: Seq<u8>, width: int, height: int, factor: int) -> Seq<u8> {
    if factor <= 1 {
        rgb_of(bgr)
    } else {
        let w = width / factor;
        let h = height / factor;
        Seq::new(
            (w * h * 3) as nat,
            |i: int|
                {
                    let p = i / 3;
                    let ox = p % w;
                    let oy = p / w;
                    (block_sum(
                        rgb_of(bgr),
                        width,
                        ox * factor,
                        ox * factor + factor,
                        oy * factor,
                        oy * factor + factor,
                        i % 3,
                    ) / (factor * factor)) as u8
                },
        )
    }
}

proof fn lemma_scaled_rgb(c: &Canvas, frame: &Frame, factor: u32)
    requires
        c.wf(),
        frame.wf(),
        factor <= 1 ==> c.width == frame.width && c.height == frame.height && c.rgb@ == rgb_of(
            frame.bgr@,
        ),
        factor > 1 ==> {
            &&& c.width == frame.width / factor
            &&& c.height == frame.height / factor
            &&& forall|ox: int, oy: int, k: int|
                0 <= ox < c.width && 0 <= oy < c.height && 0 <= k < 3 ==> #[trigger] c.byte(ox, oy, k)
                    == block_sum(
                    rgb_of(frame.bgr@),
                    frame.width as int,
                    ox * factor,
                    ox * factor + factor,
                    oy * factor,
                    oy * factor + factor,
                    k,
                ) / (factor * factor)
        },
    ensures
        c.rgb@ == scaled_rgb(frame.bgr@, frame.width as int, frame.height as int, factor as int),
{
    if factor > 1 {
        let w = c.width as int;
        let h = c.height as int;
        let f = factor as int;
        let s = scaled_rgb(frame.bgr@, frame.width as int, frame.height as int, f);
        assert(s.len() == c.rgb@.len());
        assert forall|i: int| 0 <= i < c.rgb@.len() implies #[trigger] c.rgb@[i] == s[i] by {
            vstd::arithmetic::div_mod::lemma_fundamental_div_mod(i, 3);
            let p = i / 3;
            assert(0 <= p < w * h) by (nonlinear_arith)
                requires
                    i == 3 * p + i % 3,
                    0 <= i % 3 < 3,
                    0 <= i < w * h * 3,
            ;
            assert(w > 0) by (nonlinear_arith)
                requires
                    0 <= p < w * h,
                    w >= 0,
                    h >= 0,
            ;
            lemma_grid_coords(p, w, h);
            let ox = p % w;
            let oy = p / w;
            assert(c.byte(ox, oy, i % 3) == c.rgb@[(oy * w + ox) * 3 + i % 3]);
            assert((oy * w + ox) * 3 + i % 3 == i);
        }
        assert(c.rgb@ =~= s);
    }
}

/// One base64 digit of the standard alphabet.
pub open spec fn base64_digit(v: int) -> char {
    if v < 26 {
        ((0x41 + v) as u32) as char
    } else if v < 52 {
        ((0x61 + v - 26) as u32) as char
    } else if v < 62 {
        ((0x30 + v - 52) as u32) as char
    } else if v == 62 {
        '+'
    } else {
        '/'
    }
}

/// Standard base64 with `=` padding: every three bytes become four digits of
/// six bits each; a final one or two bytes become two or three digits padded
/// to four.
pub open spec fn base64_spec(b: Seq<u8>) -> Seq<char>
    decreases b.len(),
{
    if b.len() == 0 {
        Seq::empty()
    } else if b.len() == 1 {
        seq![base64_digit(b[0] as int / 4), base64_digit((b[0] as int % 4) * 16), '=', '=']
    } else if b.len() == 2 {
        seq![
            base64_digit(b[0] as int / 4),
            base64_digit((b[0] % 4) * 16 + b[1] / 16),
            base64_digit((b[1] % 16) * 4),
            '=',
        ]
    } else {
        seq![
            base64_digit(b[0] as int / 4),
            base64_digit((b[0] % 4) * 16 + b[1] / 16),
            base64_digit((b[1] % 16) * 4 + b[2] / 64),
            base64_digit(b[2] as int % 64),
        ] + base64_spec(b.skip(3))
    }
}

/// `base64::engine::general_purpose::STANDARD.encode`: the standard
/// alphabet with padding, as `base64_spec` writes it out.
#[verifier::external_body]
fn base64_encode(bytes: &Vec<u8>) -> (s: String)
    ensures
        s@ == base64_spec(bytes@),
{
    base64::engine::general_purpose::STANDARD.encode(bytes)
}

#[verifier::external_type_specification]
#[verifier::external_body]
pub struct ExPngEncodingError(png::EncodingError);

/// What the `png` encoder produces for an 8-bit RGB image of the given size,
/// with `Compression::Fast` when `fast` and the default compression
/// otherwise: the file's bytes, or `None` when it refuses the image.
pub uninterp spec fn png_rgb8(width: u32, height: u32, rgb: Seq<u8>, fast: bool) -> Option<Seq<u8>>;

/// Encodes an 8-bit RGB image as a PNG file in memory with `png::Encoder`
/// (`ColorType::Rgb`, `BitDepth::Eight`, fast or default compression). The
/// bytes are named, not stated; the encoder's source refuses a zero width or
/// height.
#[verifier::external_body]
fn png_encode_rgb8(width: u32, height: u32, rgb: &Vec<u8>, fast: bool) -> (r: Result<
    Vec<u8>,
    png::EncodingError,
>)
    requires
        rgb@.len() == 3 * width * height,
    ensures
        match r {
            Ok(bytes) => png_rgb8(width, height, rgb@, fast) == Some(bytes@),
            Err(_) => png_rgb8(width, height, rgb@, fast) is None,
        },
        width == 0 || height == 0 ==> r is Err,
{
    let mut buf = Vec::new();
    {
        let mut encoder = png::Encoder::new(std::io::Cursor::new(&mut buf), width, height);
        encoder.set_color(png::ColorType::Rgb);
        encoder.set_depth(png::BitDepth::Eight);
        encoder.set_compression(if fast {
            png::Compression::Fast
        } else {
            png::Compression::Default
        });
        encoder.write_header()?.write_image_data(rgb)?;
    }
    Ok(buf)
}

/// The base64 PNG of an RGB image, or nothing when the encoder refuses it.
pub open spec fn encoded_png(width: int, height: int, rgb: Seq<u8>) -> Seq<char> {
    match png_rgb8(width as u32, height as u32, rgb, true) {
        Some(bytes) => base64_spec(bytes),
        None => Seq::empty(),
    }
}

/// The canvas as a base64 PNG, compressed for speed; an encoder failure
/// gives the empty string.
pub fn encode(canvas: &Canvas) -> (s: String)
    requires
        canvas.wf(),
    ensures
        s@ == encoded_png(canvas.width as int, canvas.height as int, canvas.rgb@),
{
    proof {
        let w = canvas.width as int;
        let h = canvas.height as int;
        assert(w * h * 3 == 3 * w * h) by (nonlinear_arith);
        assert(canvas.width as u32 == w && canvas.height as u32 == h);
    }
    match png_encode_rgb8(canvas.width as u32, canvas.height as u32, &canvas.rgb, true) {
        Ok(bytes) => base64_encode(&bytes),
        Err(_) => String::new(),
    }
}

/// Why a PNG file could not be made.
#[derive(Debug, Clone, Copy, PartialEq, Eq, Structural)]
pub enum PngError {
    /// The encoder refused the image.
    Refused,
}

/// The PNG file a template is saved as: the frame as RGB, default
/// compression.
pub fn png_file_bytes(frame: &Frame) -> (r: Result<Vec<u8>, PngError>)
    requires
        frame.wf(),
        frame.width <= i32::MAX,
        frame.height <= i32::MAX,
    ensures
        match png_rgb8(frame.width, frame.height, rgb_of(frame.bgr@), false) {
            Some(bytes) => r matches Ok(b) && b@ == bytes,
            None => r == Err::<Vec<u8>, PngError>(PngError::Refused),
        },
{
    let canvas = Canvas::from_frame(frame);
    proof {
        assert(canvas.rgb@ =~= rgb_of(frame.bgr@)) by {
            assert forall|i: int| 0 <= i < canvas.rgb@.len() implies #[trigger] canvas.rgb@[i] == rgb_of(frame.bgr@)[i] by {
                vstd::arithmetic::div_mod::lemma_fundamental_div_mod(i, 3);
                assert(canvas.rgb@[3 * (i / 3) + i % 3] == frame.bgr@[3 * (i / 3) + 2 - i % 3]);
            }
        }
    }
    proof {
        let w = frame.width as int;
        let h = frame.height as int;
        assert(w * h * 3 == 3 * w * h) by (nonlinear_arith);
    }
    match png_encode_rgb8(frame.width, frame.height, &canvas.rgb, false) {
        Ok(bytes) => Ok(bytes),
        Err(_) => Err(PngError::Refused),
    }
}

// ── Annotated previews ───────────────────────────────────────────────────────

/// A full-frame coordinate on a preview scaled down by `factor`: divided
/// rounding toward zero, then taken as an `i32`.
pub open spec fn preview_coord(v: int, factor: int) -> i32 {
    trunc_div(v, factor) as i32
}

/// `s` with an eight-pixel ring, two thick, round each of `centres`.
pub open spec fn rings(s: Seq<u8>, w: int, centres: Seq<(i32, i32)>) -> Seq<u8>
    decreases centres.len(),
{
    if centres.len() == 0 {
        s
    } else {
        let c = centres.last();
        paint(
            rings(s, w, centres.drop_last()),
            w,
            |px: int, py: int| circle_set(c.0 as int, c.1 as int, 8, 2, px, py),
            MATCH,
        )
    }
}

/// `s` with the best-match marker at `(bx, by)`: a fourteen-pixel ring three
/// thick and a cross of two lines reaching twenty pixels out.
pub open spec fn best_marker(s: Seq<u8>, w: int, bx: int, by: int) -> Seq<u8> {
    let ring = paint(s, w, |px: int, py: int| circle_set(bx, by, 14, 3, px, py), BEST);
    let across = paint(ring, w, |px: int, py: int| line_set(bx - 20, by, bx + 20, by, 2, px, py), BEST);
    paint(across, w, |px: int, py: int| line_set(bx, by - 20, bx, by + 20, 2, px, py), BEST)
}

/// The centres of the first `MAX_RINGS` matches on a preview scaled by
/// `factor`.
pub open spec fn ring_centres(matches: Seq<(i64, i64)>, factor: int) -> Seq<(i32, i32)> {
    let n = if matches.len() < MAX_RINGS {
        matches.len() as int
    } else {
        MAX_RINGS as int
    };
    Seq::new(
        n as nat,
        |i: int| (preview_coord(matches[i].0 as int, factor), preview_coord(matches[i].1 as int, factor)),
    )
}

/// The point the best-match marker goes to: the given crosshair, else the
/// first match.
pub open spec fn marker_point(matches: Seq<(i64, i64)>, crosshair: Option<(i64, i64)>) -> Option<
    (i64, i64),
> {
    match crosshair {
        Some(p) => Some(p),
        None => if matches.len() > 0 {
            Some(matches[0])
        } else {
            None
        },
    }
}

/// The RGB bytes of the annotated preview of a frame `width` wide: the frame
/// scaled by `factor`, the region outlined two thick in `box_color`, a ring
/// per match and the best-match marker.
pub open spec fn annotated_rgb(
    bgr: Seq<u8>,
    width: int,
    height: int,
    factor: int,
    region: (i32, i32, i32, i32),
    box_color: [u8; 3],
    matches: Seq<(i64, i64)>,
    crosshair: Option<(i64, i64)>,
) -> Seq<u8> {
    let w = if factor <= 1 {
        width
    } else {
        width / factor
    };
    let boxed = paint(
        scaled_rgb(bgr, width, height, factor),
        w,
        |px: int, py: int|
            rect_outline(
                preview_coord(region.0 as int, factor) as int,
                preview_coord(region.1 as int, factor) as int,
                preview_coord(region.2 as int, factor) as int,
                preview_coord(region.3 as int, factor) as int,
                2,
                px,
                py,
            ),
        box_color,
    );
    let ringed = rings(boxed, w, ring_centres(matches, factor));
    match marker_point(matches, crosshair) {
        Some(p) => best_marker(
            ringed,
            w,
            preview_coord(p.0 as int, factor) as int,
            preview_coord(p.1 as int, factor) as int,
        ),
        None => ringed,
    }
}

/// The marker can be drawn at `p` without leaving the `i32` range.
pub open spec fn marker_fits(p: Option<(i64, i64)>, factor: int) -> bool {
    match p {
        Some(q) => {
            &&& i32::MIN + 20 <= preview_coord(q.0 as int, factor) <= i32::MAX - 20
            &&& i32::MIN + 20 <= preview_coord(q.1 as int, factor) <= i32::MAX - 20
        },
        None => true,
    }
}

/// The annotated preview as a base64 PNG.
pub open spec fn annotated_png(
    bgr: Seq<u8>,
    width: int,
    height: int,
    region: (i32, i32, i32, i32),
    box_color: [u8; 3],
    matches: Seq<(i64, i64)>,
    crosshair: Option<(i64, i64)>,
) -> Seq<char> {
    let factor = if width <= MAX_PREVIEW_WIDTH {
        1
    } else {
        (width + 1279) / 1280
    };
    let (w, h) = if factor <= 1 {
        (width, height)
    } else {
        (width / factor, height / factor)
    };
    encoded_png(
        w,
        h,
        annotated_rgb(bgr, width, height, factor, region, box_color, matches, crosshair),
    )
}

fn scale_coord(v: i64, factor: u32) -> (c: i32)
    requires
        factor >= 1,
    ensures
        c == preview_coord(v as int, factor as int),
{
    let q = if v >= 0 {
        v / (factor as i64)
    } else {
        -((-(v as i128)) / (factor as i128)) as i64
    };
    #[verifier::truncate]
    (q as i32)
}

/// The factor `preview_factor` gives for a frame `width` wide.
pub open spec fn preview_factor_spec(width: u32) -> int {
    if width <= MAX_PREVIEW_WIDTH {
        1
    } else {
        (width + 1279) / 1280
    }
}

/// Draws the region box, a ring per match (the first `MAX_RINGS`) and the
/// best-match marker on the frame, scaled down to at most
/// `MAX_PREVIEW_WIDTH` first, and encodes the result.
fn draw(
    frame: &Frame,
    region: (i32, i32, i32, i32),
    box_color: [u8; 3],
    matches: &[(i64, i64)],
    crosshair: Option<(i64, i64)>,
) -> (s: String)
    requires
        frame.wf(),
        frame.width <= i32::MAX,
        frame.height <= i32::MAX,
        marker_fits(marker_point(matches@, crosshair), preview_factor_spec(frame.width)),
    ensures
        s@ == annotated_png(
            frame.bgr@,
            frame.width as int,
            frame.height as int,
            region,
            box_color,
            matches@,
            crosshair,
        ),
{
    let factor = preview_factor(frame.width);
    let mut canvas = Canvas::from_frame_scaled(frame, factor);
    proof {
        lemma_scaled_rgb(&canvas, frame, factor);
    }
    let ghost f = factor as int;
    let ghost w = canvas.width as int;
    let ghost h = canvas.height as int;
    let ghost base = canvas.rgb@;
    let (x1, y1, x2, y2) = region;
    let sx1 = scale_coord(x1 as i64, factor);
    let sy1 = scale_coord(y1 as i64, factor);
    let sx2 = scale_coord(x2 as i64, factor);
    let sy2 = scale_coord(y2 as i64, factor);
    canvas.rect(sx1, sy1, sx2, sy2, box_color, 2);
    let ghost boxed = canvas.rgb@;
    let ghost centres = ring_centres(matches@, f);
    let n = if matches.len() < MAX_RINGS {
        matches.len()
    } else {
        MAX_RINGS
    };
    let mut i: usize = 0;
    proof {
        assert(centres.take(0) =~= Seq::<(i32, i32)>::empty());
    }
    while i < n
        invariant
            canvas.wf(),
            canvas.width == w,
            canvas.height == h,
            factor as int == f,
            f >= 1,
            centres == ring_centres(matches@, f),
            n == centres.len(),
            n <= matches@.len(),
            i <= n,
            canvas.rgb@ == rings(boxed, w, centres.take(i as int)),
        decreases n - i,
    {
        let (mx, my) = matches[i];
        let cx = scale_coord(mx, factor);
        let cy = scale_coord(my, factor);
        canvas.circle(cx, cy, 8, MATCH, 2);
        proof {
            let t = centres.take(i as int + 1);
            assert(t.drop_last() =~= centres.take(i as int));
            assert(t.last() == (cx, cy));
        }
        i = i + 1;
    }
    proof {
        assert(centres.take(n as int) =~= centres);
    }
    let point = match crosshair {
        Some(p) => Some(p),
        None => if matches.len() > 0 {
            Some(matches[0])
        } else {
            None
        },
    };
    if let Some((x, y)) = point {
        let bx = scale_coord(x, factor);
        let by = scale_coord(y, factor);
        canvas.circle(bx, by, 14, BEST, 3);
        canvas.line(bx - 20, by, bx + 20, by, BEST, 2);
        canvas.line(bx, by - 20, bx, by + 20, BEST, 2);
    }
    encode(&canvas)
}

/// The guard editor's preview: the region outlined in the guard colour, a
/// ring per match and the marker on the first match, as a base64 PNG (empty
/// when the encoder refuses the image). A match is given by its centre.
pub fn annotate(frame: &Frame, region: (i32, i32, i32, i32), matches: &[(i64, i64)]) -> (s: String)
    requires
        frame.wf(),
        frame.width <= i32::MAX,
        frame.height <= i32::MAX,
        marker_fits(marker_point(matches@, None), preview_factor_spec(frame.width)),
    ensures
        s@ == annotated_png(
            frame.bgr@,
            frame.width as int,
            frame.height as int,
            region,
            REGION,
            matches@,
            None,
        ),
{
    draw(frame, region, REGION, matches, None)
}

/// The step editor's preview: the region in the step colour, and the marker
/// on `crosshair` when one is given (a click step's fixed target), else on
/// the first match.
pub fn annotate_step(
    frame: &Frame,
    region: (i32, i32, i32, i32),
    matches: &[(i64, i64)],
    crosshair: Option<(i64, i64)>,
) -> (s: String)
    requires
        frame.wf(),
        frame.width <= i32::MAX,
        frame.height <= i32::MAX,
        marker_fits(marker_point(matches@, crosshair), preview_factor_spec(frame.width)),
    ensures
        s@ == annotated_png(
            frame.bgr@,
            frame.width as int,
            frame.height as int,
            region,
            STEP_REGION,
            matches@,
            crosshair,
        ),
{
    draw(frame, region, STEP_REGION, matches, crosshair)
}
} // verus!
