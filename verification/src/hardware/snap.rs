//! Snap-to-element: the "smart lasso" the screen pickers offer in place of a
//! hand-drawn box.
//!
//! Three methods each offer a box: a region grow from the pixel under the
//! cursor with a local and a global colour tolerance, the outlined shapes left
//! after closing short gaps in a map of sharp colour steps, and the four sides
//! found by walking out from the cursor along its row and column. The boxes are
//! ranked by how much of their perimeter sits on a real discontinuity. Every
//! box offered contains the cursor, lies inside the frame and is at least
//! [`MIN_SIDE`] pixels on each side.
//!
//! The share-of-perimeter and face-density measures are compared as exact
//! integer ratios.

use vstd::prelude::*;
use std::collections::VecDeque;
use crate::hardware::capture::Frame;
use crate::hardware::vision::image::{adjacent4, count_eq, lemma_count_eq_all, lemma_count_eq_update};
use crate::arith::lemma_index_in_grid;
use crate::hardware::vision::canny::adjacent8;
use crate::hardware::vision::image::{conn8, first_of_component, flag, ink_px, lemma_conn8_sym_trans, lemma_reach8_start, reach8, Gray};
use crate::hardware::regions::{covered_before, flags_whole, lemma_region_box_unique, region_box, region_box_of};

verus! {

/// A rectangle in frame pixels, `(x, y, w, h)`.
pub type Rect = (i32, i32, i32, i32);

/// How far a pixel may sit from the neighbour it was reached from.
pub const LOCAL: i32 = 14;

/// How far a pixel may sit from the seed however gradually it got there.
pub const GLOBAL: i32 = 72;

/// The window the grow searches around the cursor.
pub const SEARCH_W: i32 = 800;
pub const SEARCH_H: i32 = 480;

/// Smallest snap worth offering.
pub const MIN_SIDE: i32 = 14;

/// A result narrower than this on either side reads as a glyph, not a control.
pub const GLYPH: i32 = 26;

/// How far apart two touching pixels must be to count as an outline.
pub const EDGE: i32 = 18;

/// Blank runs shorter than these are closed before outlines are grouped.
pub const H_GAP: i32 = 14;
pub const V_GAP: i32 = 10;

/// The window the outline pass works in.
pub const INK_W: i32 = 640;
pub const INK_H: i32 = 400;

/// The window the side-walk works in.
pub const RULE_W: i32 = 1600;
pub const RULE_H: i32 = 1000;

/// How far either side of the cursor a difference must hold to be a side.
pub const RUN: i32 = 7;

/// What share of a run, in percent, has to be a difference.
pub const RUN_HIT: i32 = 70;

/// A frame the snap arithmetic can work on: well formed, and small enough that
/// a coordinate plus the widest search window still fits in an `i32`.
pub open spec fn snap_frame(frame: &Frame) -> bool {
    &&& frame.wf()
    &&& frame.width + 1600 <= i32::MAX
    &&& frame.height + 1600 <= i32::MAX
}

/// `r` lies inside the frame, with non-negative extents.
pub open spec fn rect_in_frame(r: Rect, frame: &Frame) -> bool {
    &&& 0 <= r.0
    &&& 0 <= r.1
    &&& 0 <= r.2
    &&& 0 <= r.3
    &&& r.0 + r.2 <= frame.width
    &&& r.1 + r.3 <= frame.height
}

/// Whether `(x, y)` lies inside `r` (half-open).
pub open spec fn holds_point_spec(r: Rect, x: int, y: int) -> bool {
    x >= r.0 && y >= r.1 && x < r.0 + r.2 && y < r.1 + r.3
}

/// What every box the lasso offers satisfies.
pub open spec fn snap_candidate(r: Rect, frame: &Frame, x: int, y: int) -> bool {
    rect_in_frame(r, frame) && holds_point_spec(r, x, y)
}

pub open spec fn abs_spec(v: int) -> int {
    if v < 0 {
        -v
    } else {
        v
    }
}

/// Per-channel distance: the largest absolute channel difference.
pub open spec fn dist_spec(a: (i32, i32, i32), b: (i32, i32, i32)) -> int {
    let d0 = abs_spec(a.0 - b.0);
    let d1 = abs_spec(a.1 - b.1);
    let d2 = abs_spec(a.2 - b.2);
    let m = if d0 >= d1 {
        d0
    } else {
        d1
    };
    if m >= d2 {
        m
    } else {
        d2
    }
}

/// The colour distance is the largest absolute difference of any one
/// channel: it bounds each channel's difference from above, equals one of
/// them, and does not depend on which pixel comes first.
pub proof fn lemma_dist_is_largest_channel_difference(a: (i32, i32, i32), b: (i32, i32, i32))
    ensures
        dist_spec(a, b) >= a.0 - b.0 && dist_spec(a, b) >= b.0 - a.0,
        dist_spec(a, b) >= a.1 - b.1 && dist_spec(a, b) >= b.1 - a.1,
        dist_spec(a, b) >= a.2 - b.2 && dist_spec(a, b) >= b.2 - a.2,
        dist_spec(a, b) == a.0 - b.0 || dist_spec(a, b) == b.0 - a.0 || dist_spec(a, b) == a.1
            - b.1 || dist_spec(a, b) == b.1 - a.1 || dist_spec(a, b) == a.2 - b.2 || dist_spec(a, b)
            == b.2 - a.2,
        dist_spec(a, b) == dist_spec(b, a),
{
}

/// Two pixels that differ in one channel only are a step exactly when that
/// channel's difference exceeds [`EDGE`], whichever channel it is.
pub proof fn lemma_single_channel_step(a: (i32, i32, i32), b: (i32, i32, i32))
    ensures
        a.0 == b.0 && a.1 == b.1 ==> (dist_spec(a, b) > EDGE <==> (a.2 - b.2 > EDGE || b.2 - a.2
            > EDGE)),
        a.0 == b.0 && a.2 == b.2 ==> (dist_spec(a, b) > EDGE <==> (a.1 - b.1 > EDGE || b.1 - a.1
            > EDGE)),
        a.1 == b.1 && a.2 == b.2 ==> (dist_spec(a, b) > EDGE <==> (a.0 - b.0 > EDGE || b.0 - a.0
            > EDGE)),
{
}

/// The colour at `(x, y)` as a channel triple.
pub open spec fn pixel_spec(frame: &Frame, x: int, y: int) -> (i32, i32, i32) {
    (frame.byte(x, y, 0) as i32, frame.byte(x, y, 1) as i32, frame.byte(x, y, 2) as i32)
}

/// The per-channel max-abs distance the guard colour match also uses.
pub fn dist(a: (i32, i32, i32), b: (i32, i32, i32)) -> (d: i32)
    requires
        0 <= a.0 <= 255,
        0 <= a.1 <= 255,
        0 <= a.2 <= 255,
        0 <= b.0 <= 255,
        0 <= b.1 <= 255,
        0 <= b.2 <= 255,
    ensures
        d == dist_spec(a, b),
        0 <= d <= 255,
        d >= a.0 - b.0 && d >= b.0 - a.0,
        d >= a.1 - b.1 && d >= b.1 - a.1,
        d >= a.2 - b.2 && d >= b.2 - a.2,
        d == a.0 - b.0 || d == b.0 - a.0 || d == a.1 - b.1 || d == b.1 - a.1 || d == a.2 - b.2
            || d == b.2 - a.2,
{
    let d0 = if a.0 >= b.0 {
        a.0 - b.0
    } else {
        b.0 - a.0
    };
    let d1 = if a.1 >= b.1 {
        a.1 - b.1
    } else {
        b.1 - a.1
    };
    let d2 = if a.2 >= b.2 {
        a.2 - b.2
    } else {
        b.2 - a.2
    };
    let m = if d0 >= d1 {
        d0
    } else {
        d1
    };
    if m >= d2 {
        m
    } else {
        d2
    }
}

/// The colour at `(x, y)`.
pub fn pixel(frame: &Frame, x: i32, y: i32) -> (p: (i32, i32, i32))
    requires
        frame.wf(),
        0 <= x < frame.width,
        0 <= y < frame.height,
    ensures
        p == pixel_spec(frame, x as int, y as int),
        0 <= p.0 <= 255,
        0 <= p.1 <= 255,
        0 <= p.2 <= 255,
{
    proof {
        lemma_index_in_grid(x as int, y as int, frame.width as int, frame.height as int);
        assert((y * frame.width + x) * 3 + 2 < frame.width * frame.height * 3) by (nonlinear_arith)
            requires
                y * frame.width + x < frame.width * frame.height,
        ;
    }
    assert(frame.bgr@.len() == frame.bgr.len());
    let i = ((y as usize) * (frame.width as usize) + (x as usize)) * 3;
    (frame.bgr[i] as i32, frame.bgr[i + 1] as i32, frame.bgr[i + 2] as i32)
}

pub open spec fn area_spec(r: Rect) -> int {
    r.2 * r.3
}

/// `w * h`, widened so it cannot overflow.
pub fn area(r: Rect) -> (a: i64)
    ensures
        a == area_spec(r),
{
    proof {
        assert(-0x4000_0000_0000_0000 <= r.2 * r.3 <= 0x4000_0000_0000_0000) by (nonlinear_arith)
            requires
                i32::MIN <= r.2 <= i32::MAX,
                i32::MIN <= r.3 <= i32::MAX,
        ;
    }
    (r.2 as i64) * (r.3 as i64)
}

pub open spec fn contains_spec(outer: Rect, inner: Rect) -> bool {
    outer.0 <= inner.0 && outer.1 <= inner.1 && outer.0 + outer.2 >= inner.0 + inner.2 && outer.1
        + outer.3 >= inner.1 + inner.3
}

/// Whether `outer` covers `inner`.
pub fn contains(outer: Rect, inner: Rect) -> (b: bool)
    ensures
        b == contains_spec(outer, inner),
{
    (outer.0 as i64) <= (inner.0 as i64) && (outer.1 as i64) <= (inner.1 as i64) && (outer.0 as i64)
        + (outer.2 as i64) >= (inner.0 as i64) + (inner.2 as i64) && (outer.1 as i64) + (
    outer.3 as i64) >= (inner.1 as i64) + (inner.3 as i64)
}

/// Whether `(x, y)` lies inside `r`.
pub fn holds_point(r: Rect, x: i32, y: i32) -> (b: bool)
    ensures
        b == holds_point_spec(r, x as int, y as int),
{
    (x as i64) >= (r.0 as i64) && (y as i64) >= (r.1 as i64) && (x as i64) < (r.0 as i64) + (
    r.2 as i64) && (y as i64) < (r.1 as i64) + (r.3 as i64)
}

pub open spec fn is_control_spec(r: Rect) -> bool {
    r.2 >= GLYPH && r.3 >= GLYPH
}

/// Big enough to read as a control rather than a letter of one's label.
pub fn is_control(r: Rect) -> (b: bool)
    ensures
        b == is_control_spec(r),
{
    r.2 >= GLYPH && r.3 >= GLYPH
}

fn min_i32(a: i32, b: i32) -> (r: i32)
    ensures
        r == if a <= b {
            a
        } else {
            b
        },
{
    if a <= b {
        a
    } else {
        b
    }
}

fn max_i32(a: i32, b: i32) -> (r: i32)
    ensures
        r == if a >= b {
            a
        } else {
            b
        },
{
    if a >= b {
        a
    } else {
        b
    }
}

/// The grow's search window around `(sx, sy)`, as `(x0, y0, x1, y1)`.
pub open spec fn grow_window(frame: &Frame, sx: int, sy: int) -> (int, int, int, int) {
    (
        if sx - SEARCH_W / 2 > 0 {
            sx - SEARCH_W / 2
        } else {
            0
        },
        if sy - SEARCH_H / 2 > 0 {
            sy - SEARCH_H / 2
        } else {
            0
        },
        if sx + SEARCH_W / 2 < frame.width {
            sx + SEARCH_W / 2
        } else {
            frame.width as int
        },
        if sy + SEARCH_H / 2 < frame.height {
            sy + SEARCH_H / 2
        } else {
            frame.height as int
        },
    )
}

pub open spec fn in_window(win: (int, int, int, int), x: int, y: int) -> bool {
    win.0 <= x < win.2 && win.1 <= y < win.3
}

/// One step of the grow from `(sx, sy)`: `(qx, qy)` is an edge neighbour of
/// `(px, py)` inside the window, within [`LOCAL`] of it and within [`GLOBAL`]
/// of the seed.
pub open spec fn grow_step(frame: &Frame, sx: int, sy: int, px: int, py: int, qx: int, qy: int) -> bool {
    &&& adjacent4(px, py, qx, qy)
    &&& in_window(grow_window(frame, sx, sy), qx, qy)
    &&& dist_spec(pixel_spec(frame, px, py), pixel_spec(frame, qx, qy)) <= LOCAL
    &&& dist_spec(pixel_spec(frame, sx, sy), pixel_spec(frame, qx, qy)) <= GLOBAL
}

/// `(qx, qy)` is reached from the seed in at most `k` grow steps.
pub open spec fn grow_reach(frame: &Frame, sx: int, sy: int, qx: int, qy: int, k: nat) -> bool
    decreases k,
{
    (qx == sx && qy == sy) || (k > 0 && exists|px: int, py: int|
        #![trigger adjacent4(px, py, qx, qy)]
        grow_reach(frame, sx, sy, px, py, (k - 1) as nat) && grow_step(frame, sx, sy, px, py, qx, qy))
}

/// `(qx, qy)` is reached by the grow from `(sx, sy)`.
pub open spec fn grown(frame: &Frame, sx: int, sy: int, qx: int, qy: int) -> bool {
    exists|k: nat| grow_reach(frame, sx, sy, qx, qy, k)
}

/// Window flag `(x, y)` of a plane laid over `win`.
pub open spec fn wflag(seen: Seq<bool>, win: (int, int, int, int), x: int, y: int) -> bool {
    seen[(y - win.1) * (win.2 - win.0) + (x - win.0)]
}

/// Which pixels of the window the grow reaches, row by row.
pub open spec fn grown_flags(frame: &Frame, sx: int, sy: int) -> Seq<bool> {
    let win = grow_window(frame, sx, sy);
    let ww = win.2 - win.0;
    Seq::new(
        (ww * (win.3 - win.1)) as nat,
        |i: int| grown(frame, sx, sy, win.0 + i % ww, win.1 + i / ww),
    )
}

/// How many pixels the grow reaches.
pub open spec fn grown_count(frame: &Frame, sx: int, sy: int) -> int {
    count_eq(grown_flags(frame, sx, sy), true) as int
}

/// How many pixels the grow may reach: three fifths of its window.
pub open spec fn grow_budget(frame: &Frame, sx: int, sy: int) -> int {
    let win = grow_window(frame, sx, sy);
    (win.2 - win.0) * (win.3 - win.1) * 3 / 5
}

/// The grow reached the edge of its window somewhere the frame does not end.
pub open spec fn grow_escapes(frame: &Frame, sx: int, sy: int) -> bool {
    let win = grow_window(frame, sx, sy);
    exists|qx: int, qy: int|
        #[trigger] grown(frame, sx, sy, qx, qy) && ((qx == win.0 && win.0 > 0) || (qy == win.1 && win.1 > 0)
            || (qx == win.2 - 1 && win.2 < frame.width) || (qy == win.3 - 1 && win.3 < frame.height))
}

/// `b` is the bounding box of what the grow from `(sx, sy)` reaches: every
/// reached pixel lies in it and each of its four sides touches one.
pub open spec fn grown_box(frame: &Frame, sx: int, sy: int, b: Rect) -> bool {
    &&& forall|qx: int, qy: int|
        #[trigger] grown(frame, sx, sy, qx, qy) ==> b.0 <= qx < b.0 + b.2 && b.1 <= qy < b.1 + b.3
    &&& exists|qx: int, qy: int| #[trigger] grown(frame, sx, sy, qx, qy) && qx == b.0
    &&& exists|qx: int, qy: int| #[trigger] grown(frame, sx, sy, qx, qy) && qx == b.0 + b.2 - 1
    &&& exists|qx: int, qy: int| #[trigger] grown(frame, sx, sy, qx, qy) && qy == b.1
    &&& exists|qx: int, qy: int| #[trigger] grown(frame, sx, sy, qx, qy) && qy == b.1 + b.3 - 1
}

/// What [`grow`] gives for the seed `(sx, sy)`.
pub open spec fn grow_spec(frame: &Frame, sx: int, sy: int) -> Option<Rect> {
    if !(0 <= sx < frame.width && 0 <= sy < frame.height) || grown_count(frame, sx, sy) > grow_budget(
        frame,
        sx,
        sy,
    ) || grow_escapes(frame, sx, sy) {
        None
    } else {
        Some(choose|b: Rect| grown_box(frame, sx, sy, b))
    }
}

/// A grow has one bounding box.
proof fn lemma_grown_box_unique(frame: &Frame, sx: int, sy: int, a: Rect, b: Rect)
    requires
        grown_box(frame, sx, sy, a),
        grown_box(frame, sx, sy, b),
    ensures
        a == b,
{
    let (p, q) = choose|qx: int, qy: int| #[trigger] grown(frame, sx, sy, qx, qy) && qx == a.0;
    let (p, q) = choose|qx: int, qy: int| #[trigger] grown(frame, sx, sy, qx, qy) && qx == b.0;
    let (p, q) = choose|qx: int, qy: int| #[trigger] grown(frame, sx, sy, qx, qy) && qx == a.0 + a.2 - 1;
    let (p, q) = choose|qx: int, qy: int| #[trigger] grown(frame, sx, sy, qx, qy) && qx == b.0 + b.2 - 1;
    let (p, q) = choose|qx: int, qy: int| #[trigger] grown(frame, sx, sy, qx, qy) && qy == a.1;
    let (p, q) = choose|qx: int, qy: int| #[trigger] grown(frame, sx, sy, qx, qy) && qy == b.1;
    let (p, q) = choose|qx: int, qy: int| #[trigger] grown(frame, sx, sy, qx, qy) && qy == a.1 + a.3 - 1;
    let (p, q) = choose|qx: int, qy: int| #[trigger] grown(frame, sx, sy, qx, qy) && qy == b.1 + b.3 - 1;
}

proof fn lemma_count_bool(s: Seq<bool>)
    ensures
        count_eq(s, true) + count_eq(s, false) == s.len(),
    decreases s.len(),
{
    if s.len() > 0 {
        lemma_count_bool(s.drop_last());
    }
}

proof fn lemma_count_true_mono(a: Seq<bool>, b: Seq<bool>)
    requires
        a.len() == b.len(),
        forall|i: int| 0 <= i < a.len() && #[trigger] a[i] ==> b[i],
    ensures
        count_eq(a, true) <= count_eq(b, true),
    decreases a.len(),
{
    if a.len() > 0 {
        lemma_count_true_mono(a.drop_last(), b.drop_last());
    }
}

proof fn lemma_grow_complete(frame: &Frame, sx: int, sy: int, seen: Seq<bool>, qx: int, qy: int, k: nat)
    requires
        ({
            let win = grow_window(frame, sx, sy);
            &&& in_window(win, sx, sy)
            &&& wflag(seen, win, sx, sy)
            &&& forall|px: int, py: int, rx: int, ry: int|
                #![trigger adjacent4(px, py, rx, ry)]
                in_window(win, px, py) && wflag(seen, win, px, py) && grow_step(frame, sx, sy, px, py, rx, ry)
                    ==> wflag(seen, win, rx, ry)
        }),
        grow_reach(frame, sx, sy, qx, qy, k),
    ensures
        in_window(grow_window(frame, sx, sy), qx, qy),
        wflag(seen, grow_window(frame, sx, sy), qx, qy),
    decreases k,
{
    if !(qx == sx && qy == sy) {
        let (px, py) = choose|px: int, py: int|
            #![trigger adjacent4(px, py, qx, qy)]
            grow_reach(frame, sx, sy, px, py, (k - 1) as nat) && grow_step(frame, sx, sy, px, py, qx, qy);
        lemma_grow_complete(frame, sx, sy, seen, px, py, (k - 1) as nat);
    }
}

/// Every pixel the flags mark is reached, so the flags count no more than the
/// grow reaches.
proof fn lemma_seen_within_grown(frame: &Frame, sx: int, sy: int, seen: Seq<bool>, win: (int, int, int, int))
    requires
        win == grow_window(frame, sx, sy),
        win.0 < win.2,
        win.1 < win.3,
        seen.len() == (win.2 - win.0) * (win.3 - win.1),
        forall|px: int, py: int|
            in_window(win, px, py) && #[trigger] wflag(seen, win, px, py) ==> grown(frame, sx, sy, px, py),
    ensures
        count_eq(seen, true) <= grown_count(frame, sx, sy),
{
    let ww = win.2 - win.0;
    let wh = win.3 - win.1;
    let g = grown_flags(frame, sx, sy);
    assert(ww * wh > 0) by (nonlinear_arith)
        requires
            ww > 0,
            wh > 0,
    ;
    assert(g.len() == seen.len());
    assert forall|i: int| 0 <= i < seen.len() && #[trigger] seen[i] implies g[i] by {
        crate::arith::lemma_grid_coords(i, ww, wh);
        let px = win.0 + i % ww;
        let py = win.1 + i / ww;
        assert(in_window(win, px, py));
        assert(wflag(seen, win, px, py));
    }
    lemma_count_true_mono(seen, g);
}

/// Once the flags hold the seed and are closed under grow steps, they mark
/// exactly the pixels the grow reaches.
proof fn lemma_grown_is_seen(frame: &Frame, sx: int, sy: int, seen: Seq<bool>, win: (int, int, int, int))
    requires
        win == grow_window(frame, sx, sy),
        in_window(win, sx, sy),
        seen.len() == (win.2 - win.0) * (win.3 - win.1),
        wflag(seen, win, sx, sy),
        forall|px: int, py: int|
            in_window(win, px, py) && #[trigger] wflag(seen, win, px, py) ==> grown(frame, sx, sy, px, py),
        forall|px: int, py: int, rx: int, ry: int|
            #![trigger adjacent4(px, py, rx, ry)]
            in_window(win, px, py) && wflag(seen, win, px, py) && grow_step(frame, sx, sy, px, py, rx, ry)
                ==> wflag(seen, win, rx, ry),
    ensures
        forall|qx: int, qy: int|
            #[trigger] grown(frame, sx, sy, qx, qy) ==> in_window(win, qx, qy) && wflag(seen, win, qx, qy),
        count_eq(seen, true) == grown_count(frame, sx, sy),
{
    assert forall|qx: int, qy: int| #[trigger] grown(frame, sx, sy, qx, qy) implies in_window(win, qx, qy)
        && wflag(seen, win, qx, qy) by {
        let k = choose|k: nat| grow_reach(frame, sx, sy, qx, qy, k);
        lemma_grow_complete(frame, sx, sy, seen, qx, qy, k);
    }
    let ww = win.2 - win.0;
    let wh = win.3 - win.1;
    let g = grown_flags(frame, sx, sy);
    assert(ww * wh > 0) by (nonlinear_arith)
        requires
            ww > 0,
            wh > 0,
    ;
    assert forall|i: int| 0 <= i < seen.len() implies #[trigger] seen[i] == g[i] by {
        crate::arith::lemma_grid_coords(i, ww, wh);
        let px = win.0 + i % ww;
        let py = win.1 + i / ww;
        assert(in_window(win, px, py));
        assert(wflag(seen, win, px, py) == seen[i]);
        if g[i] {
            assert(grown(frame, sx, sy, px, py));
        }
    }
    assert(seen =~= g);
}

/// Visit the four edge neighbours of `(x, y)`: each one inside the window,
/// not yet flagged, within [`LOCAL`] of `(x, y)` and within [`GLOBAL`] of the
/// seed is flagged and queued.
fn grow_expand(
    frame: &Frame,
    seen: &mut Vec<bool>,
    queue: &mut VecDeque<(i32, i32)>,
    x0: i32,
    y0: i32,
    x1: i32,
    y1: i32,
    sx: i32,
    sy: i32,
    seed: (i32, i32, i32),
    x: i32,
    y: i32,
    Ghost(win): Ghost<(int, int, int, int)>,
)
    requires
        snap_frame(frame),
        win == grow_window(frame, sx as int, sy as int),
        win == (x0 as int, y0 as int, x1 as int, y1 as int),
        0 <= x0 <= sx < x1 <= frame.width,
        0 <= y0 <= sy < y1 <= frame.height,
        x1 - x0 <= SEARCH_W,
        y1 - y0 <= SEARCH_H,
        old(seen)@.len() == (x1 - x0) * (y1 - y0),
        x0 <= x < x1,
        y0 <= y < y1,
        seed == pixel_spec(frame, sx as int, sy as int),
        grown(frame, sx as int, sy as int, x as int, y as int),
        forall|px: int, py: int|
            in_window(win, px, py) && #[trigger] wflag(old(seen)@, win, px, py) ==> grown(
                frame,
                sx as int,
                sy as int,
                px,
                py,
            ),
        forall|j: int|
            0 <= j < old(queue)@.len() ==> in_window(win, (#[trigger] old(queue)@[j]).0 as int, old(queue)@[j].1 as int)
                && wflag(old(seen)@, win, old(queue)@[j].0 as int, old(queue)@[j].1 as int),
    ensures
        final(seen)@.len() == old(seen)@.len(),
        count_eq(final(seen)@, false) + (final(queue)@.len() - old(queue)@.len()) == count_eq(old(seen)@, false),
        count_eq(final(seen)@, true) + count_eq(final(seen)@, false) == final(seen)@.len(),
        final(queue)@.len() >= old(queue)@.len(),
        forall|j: int| 0 <= j < old(queue)@.len() ==> final(queue)@[j] == #[trigger] old(queue)@[j],
        forall|j: int|
            0 <= j < final(queue)@.len() ==> in_window(win, (#[trigger] final(queue)@[j]).0 as int, final(queue)@[j].1 as int)
                && wflag(final(seen)@, win, final(queue)@[j].0 as int, final(queue)@[j].1 as int),
        forall|px: int, py: int|
            in_window(win, px, py) && #[trigger] wflag(final(seen)@, win, px, py) ==> grown(
                frame,
                sx as int,
                sy as int,
                px,
                py,
            ),
        forall|px: int, py: int|
            in_window(win, px, py) && #[trigger] wflag(old(seen)@, win, px, py) ==> wflag(final(seen)@, win, px, py),
        forall|px: int, py: int|
            in_window(win, px, py) && #[trigger] wflag(final(seen)@, win, px, py) && !wflag(old(seen)@, win, px, py)
                ==> final(queue)@.contains((px as i32, py as i32)),
        forall|qx: int, qy: int|
            #[trigger] grow_step(frame, sx as int, sy as int, x as int, y as int, qx, qy) ==> wflag(
                final(seen)@,
                win,
                qx,
                qy,
            ),
{
    let ghost gx = sx as int;
    let ghost gy = sy as int;
    let ghost px0 = x as int;
    let ghost py0 = y as int;
    let ghost seen0 = seen@;
    let ghost q0 = queue@;
    let ww = x1 - x0;
    let wh = y1 - y0;
    proof {
        assert(0 <= ww * wh <= 800 * 480) by (nonlinear_arith)
            requires
                0 < ww <= 800,
                0 < wh <= 480,
        ;
        lemma_count_bool(seen@);
    }
    let here = pixel(frame, x, y);
    let mut d: usize = 0;
    while d < 4
        invariant
            snap_frame(frame),
            win == grow_window(frame, gx, gy),
            win == (x0 as int, y0 as int, x1 as int, y1 as int),
            0 <= x0 <= sx < x1 <= frame.width,
            0 <= y0 <= sy < y1 <= frame.height,
            x1 - x0 <= SEARCH_W,
            y1 - y0 <= SEARCH_H,
            ww == x1 - x0,
            wh == y1 - y0,
            0 <= ww * wh <= 800 * 480,
            gx == sx,
            gy == sy,
            px0 == x,
            py0 == y,
            x0 <= x < x1,
            y0 <= y < y1,
            seen@.len() == seen0.len(),
            seen0.len() == ww * wh,
            here == pixel_spec(frame, px0, py0),
            0 <= here.0 <= 255,
            0 <= here.1 <= 255,
            0 <= here.2 <= 255,
            seed == pixel_spec(frame, gx, gy),
            0 <= seed.0 <= 255,
            0 <= seed.1 <= 255,
            0 <= seed.2 <= 255,
            grown(frame, gx, gy, px0, py0),
            d <= 4,
            count_eq(seen@, false) + (queue@.len() - q0.len()) == count_eq(seen0, false),
            count_eq(seen@, true) + count_eq(seen@, false) == seen@.len(),
            queue@.len() >= q0.len(),
            forall|j: int| 0 <= j < q0.len() ==> queue@[j] == #[trigger] q0[j],
            forall|j: int|
                0 <= j < queue@.len() ==> in_window(win, (#[trigger] queue@[j]).0 as int, queue@[j].1 as int)
                    && wflag(seen@, win, queue@[j].0 as int, queue@[j].1 as int),
            forall|px: int, py: int|
                in_window(win, px, py) && #[trigger] wflag(seen@, win, px, py) ==> grown(frame, gx, gy, px, py),
            forall|px: int, py: int|
                in_window(win, px, py) && #[trigger] wflag(seen0, win, px, py) ==> wflag(seen@, win, px, py),
            forall|px: int, py: int|
                in_window(win, px, py) && #[trigger] wflag(seen@, win, px, py) && !wflag(seen0, win, px, py)
                    ==> queue@.contains((px as i32, py as i32)),
            forall|qx: int, qy: int|
                #[trigger] grow_step(frame, gx, gy, px0, py0, qx, qy) && (if qx == px0 - 1 {
                    0int
                } else if qx == px0 + 1 {
                    1int
                } else if qy == py0 - 1 {
                    2int
                } else {
                    3int
                }) < d ==> wflag(seen@, win, qx, qy),
        decreases 4 - d,
    {
        let nx = if d == 0 {
            x - 1
        } else if d == 1 {
            x + 1
        } else {
            x
        };
        let ny = if d == 2 {
            y - 1
        } else if d == 3 {
            y + 1
        } else {
            y
        };
        let ghost seen_d = seen@;
        let ghost queue_d = queue@;
        if !(nx < x0 || ny < y0 || nx >= x1 || ny >= y1) {
            proof {
                lemma_index_in_grid((nx - x0) as int, (ny - y0) as int, ww as int, wh as int);
            }
            let i = ((ny - y0) as usize) * (ww as usize) + ((nx - x0) as usize);
            if !seen[i] {
                let there = pixel(frame, nx, ny);
                if !(dist(here, there) > LOCAL || dist(seed, there) > GLOBAL) {
                    proof {
                        lemma_count_eq_update(seen@, i as int, false, true);
                    }
                    seen.set(i, true);
                    queue.push_back((nx, ny));
                    proof {
                        lemma_count_bool(seen@);
                        lemma_count_bool(seen_d);
                        assert forall|px: int, py: int| in_window(win, px, py) implies #[trigger] wflag(
                            seen@,
                            win,
                            px,
                            py,
                        ) == (wflag(seen_d, win, px, py) || (px, py) == (nx as int, ny as int)) by {
                            lemma_index_in_grid(px - x0, py - y0, ww as int, wh as int);
                            if (px, py) != (nx as int, ny as int) {
                                crate::arith::lemma_index_distinct(px - x0, py - y0, nx - x0, ny - y0, ww as int);
                            }
                        }
                        assert(adjacent4(px0, py0, nx as int, ny as int));
                        assert(grow_step(frame, gx, gy, px0, py0, nx as int, ny as int));
                        let kk = choose|kk: nat| grow_reach(frame, gx, gy, px0, py0, kk);
                        assert(grow_reach(frame, gx, gy, nx as int, ny as int, kk + 1));
                        assert(grown(frame, gx, gy, nx as int, ny as int));
                        assert(queue@[queue@.len() - 1] == (nx, ny));
                        assert forall|j: int| 0 <= j < queue@.len() implies in_window(
                            win,
                            (#[trigger] queue@[j]).0 as int,
                            queue@[j].1 as int,
                        ) && wflag(seen@, win, queue@[j].0 as int, queue@[j].1 as int) by {
                            if j < queue_d.len() {
                                assert(queue@[j] == queue_d[j]);
                            }
                        }
                        assert forall|j: int| 0 <= j < q0.len() implies queue@[j] == #[trigger] q0[j] by {
                            assert(queue@[j] == queue_d[j]);
                        }
                        assert forall|px: int, py: int|
                            in_window(win, px, py) && #[trigger] wflag(seen@, win, px, py) && !wflag(
                                seen0,
                                win,
                                px,
                                py,
                            ) implies queue@.contains((px as i32, py as i32)) by {
                            if (px, py) != (nx as int, ny as int) {
                                assert(wflag(seen_d, win, px, py));
                                let j = choose|j: int| 0 <= j < queue_d.len() && queue_d[j] == (px as i32, py as i32);
                                assert(queue@[j] == queue_d[j]);
                            } else {
                                assert(queue@[queue@.len() - 1] == (px as i32, py as i32));
                            }
                        }
                    }
                }
            }
        }
        proof {
            assert forall|qx: int, qy: int|
                #[trigger] grow_step(frame, gx, gy, px0, py0, qx, qy) && (if qx == px0 - 1 {
                    0int
                } else if qx == px0 + 1 {
                    1int
                } else if qy == py0 - 1 {
                    2int
                } else {
                    3int
                }) < d + 1 implies wflag(seen@, win, qx, qy) by {
                if qx == nx && qy == ny {
                    lemma_index_in_grid((nx - x0) as int, (ny - y0) as int, ww as int, wh as int);
                } else {
                    assert(wflag(seen_d, win, qx, qy));
                }
            }
        }
        d = d + 1;
    }
}

/// Grow from `(sx, sy)` and return the bounding box of everything reached.
///
/// A pixel joins when it is within [`LOCAL`] of the pixel it was reached from
/// and within [`GLOBAL`] of the seed ([`grown`]). `None` when the seed is off
/// the frame, when the grow reached more than three fifths of its search
/// window, or when it reached the edge of its window anywhere the frame itself
/// does not end.
#[verifier::spinoff_prover]
#[verifier::rlimit(60)]
pub fn grow(frame: &Frame, sx: i32, sy: i32) -> (r: Option<Rect>)
    requires
        snap_frame(frame),
    ensures
        r matches Some(b) ==> snap_candidate(b, frame, sx as int, sy as int) && 1 <= b.2 <= SEARCH_W
            && 1 <= b.3 <= SEARCH_H,
        !(0 <= sx < frame.width && 0 <= sy < frame.height) ==> r is None,
        (0 <= sx < frame.width && 0 <= sy < frame.height) ==> (r is None <==> (grown_count(
            frame,
            sx as int,
            sy as int,
        ) > grow_budget(frame, sx as int, sy as int) || grow_escapes(frame, sx as int, sy as int))),
        r matches Some(b) ==> grown_box(frame, sx as int, sy as int, b),
        r == grow_spec(frame, sx as int, sy as int),
{
    let fw = frame.width as i32;
    let fh = frame.height as i32;
    if sx < 0 || sy < 0 || sx >= fw || sy >= fh {
        return None;
    }
    let x0 = max_i32(sx - SEARCH_W / 2, 0);
    let y0 = max_i32(sy - SEARCH_H / 2, 0);
    let x1 = min_i32(sx + SEARCH_W / 2, fw);
    let y1 = min_i32(sy + SEARCH_H / 2, fh);
    let ww = x1 - x0;
    let wh = y1 - y0;
    let ghost win = grow_window(frame, sx as int, sy as int);
    let ghost gx = sx as int;
    let ghost gy = sy as int;
    let seed = pixel(frame, sx, sy);
    proof {
        assert(win == (x0 as int, y0 as int, x1 as int, y1 as int));
        assert(0 <= ww * wh <= 800 * 480) by (nonlinear_arith)
            requires
                0 < ww <= 800,
                0 < wh <= 480,
        ;
    }
    let budget: i64 = (ww as i64) * (wh as i64) * 3 / 5;
    let n: usize = (ww as usize) * (wh as usize);
    let mut seen: Vec<bool> = vec![false; n];
    let mut queue: VecDeque<(i32, i32)> = VecDeque::new();
    proof {
        lemma_index_in_grid((sx - x0) as int, (sy - y0) as int, ww as int, wh as int);
        lemma_count_eq_all(seen@, false);
        lemma_count_eq_update(seen@, (sy - y0) * ww + (sx - x0), false, true);
        lemma_count_bool(seen@);
    }
    seen.set(((sy - y0) as usize) * (ww as usize) + ((sx - x0) as usize), true);
    queue.push_back((sx, sy));
    proof {
        lemma_count_bool(seen@);
        assert forall|px: int, py: int| in_window(win, px, py) implies #[trigger] wflag(seen@, win, px, py) == (
        (px, py) == (gx, gy)) by {
            lemma_index_in_grid(px - x0, py - y0, ww as int, wh as int);
            if (px, py) != (gx, gy) {
                crate::arith::lemma_index_distinct(px - x0, py - y0, sx - x0, sy - y0, ww as int);
            }
        }
        assert(grow_reach(frame, gx, gy, gx, gy, 0));
        assert(grown(frame, gx, gy, gx, gy));
        assert(queue@[0] == (sx, sy));
        assert(queue@.contains((sx, sy)));
    }
    let mut bx0 = sx;
    let mut by0 = sy;
    let mut bx1 = sx;
    let mut by1 = sy;
    let mut filled: i64 = 0;
    while queue.len() > 0
        invariant
            snap_frame(frame),
            fw == frame.width,
            fh == frame.height,
            0 <= x0 <= sx < x1 <= fw,
            0 <= y0 <= sy < y1 <= fh,
            x1 - x0 <= SEARCH_W,
            y1 - y0 <= SEARCH_H,
            ww == x1 - x0,
            wh == y1 - y0,
            n == ww * wh,
            n <= 800 * 480,
            win == (x0 as int, y0 as int, x1 as int, y1 as int),
            win == grow_window(frame, gx, gy),
            gx == sx,
            gy == sy,
            budget == (ww * wh) * 3 / 5,
            seen@.len() == n,
            seed == pixel_spec(frame, gx, gy),
            x0 <= bx0 <= sx <= bx1 < x1,
            y0 <= by0 <= sy <= by1 < y1,
            0 <= filled <= budget,
            filled + queue@.len() == count_eq(seen@, true),
            count_eq(seen@, true) + count_eq(seen@, false) == n,
            wflag(seen@, win, gx, gy),
            forall|j: int|
                0 <= j < queue@.len() ==> in_window(win, (#[trigger] queue@[j]).0 as int, queue@[j].1 as int)
                    && wflag(seen@, win, queue@[j].0 as int, queue@[j].1 as int),
            forall|px: int, py: int|
                in_window(win, px, py) && #[trigger] wflag(seen@, win, px, py) ==> grown(frame, gx, gy, px, py),
            forall|px: int, py: int, qx: int, qy: int|
                #![trigger adjacent4(px, py, qx, qy)]
                in_window(win, px, py) && wflag(seen@, win, px, py) && !queue@.contains((px as i32, py as i32))
                    && grow_step(frame, gx, gy, px, py, qx, qy) ==> wflag(seen@, win, qx, qy),
            forall|px: int, py: int|
                in_window(win, px, py) && #[trigger] wflag(seen@, win, px, py) && !queue@.contains(
                    (px as i32, py as i32),
                ) ==> bx0 <= px <= bx1 && by0 <= py <= by1,
            grown(frame, gx, gy, gx, gy),
            exists|qx: int, qy: int| #[trigger] grown(frame, gx, gy, qx, qy) && qx == bx0,
            exists|qx: int, qy: int| #[trigger] grown(frame, gx, gy, qx, qy) && qx == bx1,
            exists|qx: int, qy: int| #[trigger] grown(frame, gx, gy, qx, qy) && qy == by0,
            exists|qx: int, qy: int| #[trigger] grown(frame, gx, gy, qx, qy) && qy == by1,
        decreases count_eq(seen@, false), queue@.len(),
    {
        let ghost full_queue = queue@;
        let ghost seen_mid = seen@;
        let (x, y) = queue.pop_front().unwrap();
        let ghost queue_mid = queue@;
        let ghost px0 = x as int;
        let ghost py0 = y as int;
        proof {
            assert(full_queue == seq![(x, y)] + queue@);
            assert(full_queue[0] == (x, y));
            assert(wflag(seen@, win, px0, py0));
            assert(grown(frame, gx, gy, px0, py0));
            assert forall|j: int| 0 <= j < queue@.len() implies in_window(
                win,
                (#[trigger] queue@[j]).0 as int,
                queue@[j].1 as int,
            ) && wflag(seen@, win, queue@[j].0 as int, queue@[j].1 as int) by {
                assert(queue@[j] == full_queue[j + 1]);
            }
        }
        filled = filled + 1;
        if filled > budget {
            proof {
                lemma_seen_within_grown(frame, gx, gy, seen@, win);
            }
            return None;
        }
        let ghost b_old = (bx0 as int, by0 as int, bx1 as int, by1 as int);
        bx0 = min_i32(bx0, x);
        by0 = min_i32(by0, y);
        bx1 = max_i32(bx1, x);
        by1 = max_i32(by1, y);
        grow_expand(frame, &mut seen, &mut queue, x0, y0, x1, y1, sx, sy, seed, x, y, Ghost(win));
        proof {
            assert forall|px: int, py: int|
                in_window(win, px, py) && #[trigger] wflag(seen@, win, px, py) && !queue@.contains(
                    (px as i32, py as i32),
                ) implies wflag(seen_mid, win, px, py) && ((px, py) == (px0, py0) || !full_queue.contains(
                (px as i32, py as i32),
            )) by {
                if !wflag(seen_mid, win, px, py) {
                    assert(queue@.contains((px as i32, py as i32)));
                }
                if (px, py) != (px0, py0) && full_queue.contains((px as i32, py as i32)) {
                    let j = choose|j: int| 0 <= j < full_queue.len() && full_queue[j] == (px as i32, py as i32);
                    assert(j > 0);
                    assert(queue_mid[j - 1] == full_queue[j]);
                    assert(queue@[j - 1] == queue_mid[j - 1]);
                }
            }
            assert forall|px: int, py: int, qx: int, qy: int|
                #![trigger adjacent4(px, py, qx, qy)]
                in_window(win, px, py) && wflag(seen@, win, px, py) && !queue@.contains((px as i32, py as i32))
                    && grow_step(frame, gx, gy, px, py, qx, qy) implies wflag(seen@, win, qx, qy) by {
                if (px, py) == (px0, py0) {
                    assert(grow_step(frame, gx, gy, px0, py0, qx, qy));
                } else {
                    assert(wflag(seen_mid, win, px, py) && !full_queue.contains((px as i32, py as i32)));
                    assert(wflag(seen_mid, win, qx, qy));
                }
            }
            assert forall|px: int, py: int|
                in_window(win, px, py) && #[trigger] wflag(seen@, win, px, py) && !queue@.contains(
                    (px as i32, py as i32),
                ) implies bx0 <= px <= bx1 && by0 <= py <= by1 by {
                if (px, py) != (px0, py0) {
                    assert(wflag(seen_mid, win, px, py) && !full_queue.contains((px as i32, py as i32)));
                }
            }
            assert(wflag(seen@, win, gx, gy));
        }
    }
    proof {
        assert forall|px: int, py: int, qx: int, qy: int|
            #![trigger adjacent4(px, py, qx, qy)]
            in_window(win, px, py) && wflag(seen@, win, px, py) && grow_step(frame, gx, gy, px, py, qx, qy)
                implies wflag(seen@, win, qx, qy) by {
            assert(!queue@.contains((px as i32, py as i32)));
        }
        lemma_grown_is_seen(frame, gx, gy, seen@, win);
    }
    let escaped = (bx0 == x0 && x0 > 0) || (by0 == y0 && y0 > 0) || (bx1 == x1 - 1 && x1 < fw) || (
    by1 == y1 - 1 && y1 < fh);
    proof {
        assert forall|qx: int, qy: int| #[trigger] grown(frame, gx, gy, qx, qy) implies bx0 <= qx <= bx1 && by0
            <= qy <= by1 by {
            assert(in_window(win, qx, qy) && wflag(seen@, win, qx, qy));
            assert(!queue@.contains((qx as i32, qy as i32)));
        }
        assert(filled == count_eq(seen@, true));
    }
    if escaped {
        return None;
    }
    let b = (bx0, by0, bx1 - bx0 + 1, by1 - by0 + 1);
    proof {
        assert(grown_box(frame, gx, gy, b));
        let c = choose|c: Rect| grown_box(frame, gx, gy, c);
        lemma_grown_box_unique(frame, gx, gy, b, c);
    }
    Some(b)
}

/// Where [`enclosing`] seeds its `k`-th grow: just outside the middle of the
/// left, right, top and bottom side of `inner`.
pub open spec fn enclosing_seed(inner: Rect, k: int) -> (int, int) {
    if k == 0 {
        (inner.0 - 3, inner.1 + inner.3 / 2)
    } else if k == 1 {
        (inner.0 + inner.2 - 1 + 3, inner.1 + inner.3 / 2)
    } else if k == 2 {
        (inner.0 + inner.2 / 2, inner.1 - 3)
    } else {
        (inner.0 + inner.2 / 2, inner.1 + inner.3 - 1 + 3)
    }
}

/// The best surface after weighing the `k`-th grow against `best`.
pub open spec fn enclosing_step(frame: &Frame, inner: Rect, best: Option<Rect>, k: int) -> Option<Rect> {
    let seed = enclosing_seed(inner, k);
    match grow_spec(frame, seed.0, seed.1) {
        Some(o) => if contains_spec(o, inner) && area_spec(o) >= area_spec(inner) * 2 && (match best {
            None => true,
            Some(b) => area_spec(o) >= area_spec(b),
        }) {
            Some(o)
        } else {
            best
        },
        None => best,
    }
}

/// The best surface among the first `k` grows.
pub open spec fn enclosing_upto(frame: &Frame, inner: Rect, k: nat) -> Option<Rect>
    decreases k,
{
    if k == 0 {
        None
    } else {
        enclosing_step(frame, inner, enclosing_upto(frame, inner, (k - 1) as nat), k - 1)
    }
}

/// The surface `inner` sits on, if any: grows from just outside each side in
/// turn and keeps the largest result that covers `inner` and at least doubles
/// its area (the last of equally large ones).
pub fn enclosing(frame: &Frame, inner: Rect) -> (r: Option<Rect>)
    requires
        snap_frame(frame),
        rect_in_frame(inner, frame),
    ensures
        r matches Some(b) ==> rect_in_frame(b, frame) && contains_spec(b, inner),
        r == enclosing_upto(frame, inner, 4),
{
    let (x, y, w, h) = inner;
    let mut best: Option<Rect> = None;
    let mut k: usize = 0;
    while k < 4
        invariant
            snap_frame(frame),
            rect_in_frame(inner, frame),
            inner == (x, y, w, h),
            k <= 4,
            best matches Some(b) ==> rect_in_frame(b, frame) && contains_spec(b, inner),
            best == enclosing_upto(frame, inner, k as nat),
        decreases 4 - k,
    {
        let (sx, sy) = if k == 0 {
            (x - 3, y + h / 2)
        } else if k == 1 {
            (x + w - 1 + 3, y + h / 2)
        } else if k == 2 {
            (x + w / 2, y - 3)
        } else {
            (x + w / 2, y + h - 1 + 3)
        };
        if let Some(outer) = grow(frame, sx, sy) {
            if contains(outer, inner) && (area(outer) as i128) >= (area(inner) as i128) * 2 {
                let better = match best {
                    None => true,
                    Some(b) => area(outer) >= area(b),
                };
                if better {
                    best = Some(outer);
                }
            }
        }
        k = k + 1;
    }
    best
}

/// 1 when the side pixel `(ix, iy)` differs sharply from `(ox, oy)` just
/// outside it, or `(ox, oy)` is off the frame; 0 otherwise.
pub open spec fn side_hit(frame: &Frame, ix: int, iy: int, ox: int, oy: int) -> int {
    if !(0 <= ox < frame.width && 0 <= oy < frame.height) {
        1
    } else if dist_spec(pixel_spec(frame, ix, iy), pixel_spec(frame, ox, oy)) > EDGE {
        1
    } else {
        0
    }
}

/// The hits on the left and right sides of `r` over its rows below `yy`.
pub open spec fn upright_hits(frame: &Frame, r: Rect, yy: int) -> int
    decreases yy - r.1,
{
    if yy <= r.1 {
        0
    } else {
        let y = yy - 1;
        upright_hits(frame, r, y) + side_hit(frame, r.0 as int, y, r.0 - 1, y) + side_hit(
            frame,
            r.0 + r.2 - 1,
            y,
            r.0 + r.2,
            y,
        )
    }
}

/// The hits on the top and bottom sides of `r` over its columns left of `xx`.
pub open spec fn level_hits(frame: &Frame, r: Rect, xx: int) -> int
    decreases xx - r.0,
{
    if xx <= r.0 {
        0
    } else {
        let x = xx - 1;
        level_hits(frame, r, x) + side_hit(frame, x, r.1 as int, x, r.1 - 1) + side_hit(
            frame,
            x,
            r.1 + r.3 - 1,
            x,
            r.1 + r.3,
        )
    }
}

/// How much of `rect`'s perimeter sits on a real discontinuity, as
/// `(hits, total)`: every side pixel is compared with the pixel just outside
/// it, and a side on the frame's own edge counts as a hit.
pub fn border_support(frame: &Frame, rect: Rect) -> (s: (i64, i64))
    requires
        snap_frame(frame),
        rect_in_frame(rect, frame),
        rect.2 >= 1,
        rect.3 >= 1,
    ensures
        s.0 == upright_hits(frame, rect, rect.1 + rect.3) + level_hits(frame, rect, rect.0 + rect.2),
        s.1 == 2 * (rect.2 + rect.3),
        0 <= s.0 <= s.1,
{
    let (x, y, w, h) = rect;
    let fw = frame.width as i32;
    let fh = frame.height as i32;
    let mut hits: i64 = 0;
    let mut total: i64 = 0;
    let mut yy = y;
    while yy < y + h
        invariant
            snap_frame(frame),
            rect_in_frame(rect, frame),
            rect == (x, y, w, h),
            w >= 1,
            h >= 1,
            fw == frame.width,
            fh == frame.height,
            y <= yy <= y + h,
            hits == upright_hits(frame, rect, yy as int),
            0 <= hits <= total,
            total == 2 * (yy - y),
        decreases y + h - yy,
    {
        // left side
        total = total + 1;
        if x - 1 < 0 {
            hits = hits + 1;
        } else if dist(pixel(frame, x, yy), pixel(frame, x - 1, yy)) > EDGE {
            hits = hits + 1;
        }
        // right side
        total = total + 1;
        if x + w >= fw {
            hits = hits + 1;
        } else if dist(pixel(frame, x + w - 1, yy), pixel(frame, x + w, yy)) > EDGE {
            hits = hits + 1;
        }
        yy = yy + 1;
    }
    let ghost upright = hits;
    let mut xx = x;
    while xx < x + w
        invariant
            snap_frame(frame),
            rect_in_frame(rect, frame),
            rect == (x, y, w, h),
            w >= 1,
            h >= 1,
            fw == frame.width,
            fh == frame.height,
            x <= xx <= x + w,
            upright == upright_hits(frame, rect, y + h),
            0 <= upright <= 2 * h,
            hits == upright + level_hits(frame, rect, xx as int),
            0 <= hits <= total,
            total == 2 * h + 2 * (xx - x),
        decreases x + w - xx,
    {
        total = total + 1;
        if y - 1 < 0 {
            hits = hits + 1;
        } else if dist(pixel(frame, xx, y), pixel(frame, xx, y - 1)) > EDGE {
            hits = hits + 1;
        }
        total = total + 1;
        if y + h >= fh {
            hits = hits + 1;
        } else if dist(pixel(frame, xx, y + h - 1), pixel(frame, xx, y + h)) > EDGE {
            hits = hits + 1;
        }
        xx = xx + 1;
    }
    (hits, total)
}

/// 1 when the sample at `(x, y)` differs sharply from the pixel to its left
/// or the one above.
pub open spec fn sample_hit(frame: &Frame, x: int, y: int) -> int {
    if dist_spec(pixel_spec(frame, x, y), pixel_spec(frame, x - 1, y)) > EDGE || dist_spec(
        pixel_spec(frame, x, y),
        pixel_spec(frame, x, y - 1),
    ) > EDGE {
        1
    } else {
        0
    }
}

/// How many of `a, a + 3, a + 6, ...` lie below `b`.
pub open spec fn steps3(a: int, b: int) -> int
    decreases (if a < b {
        b - a
    } else {
        0
    }),
{
    if a >= b {
        0
    } else {
        1 + steps3(a + 3, b)
    }
}

/// The hits among the samples `(x, y), (x + 3, y), ...` left of `x1`.
pub open spec fn grid_row_hits(frame: &Frame, y: int, x: int, x1: int) -> int
    decreases (if x < x1 {
        x1 - x
    } else {
        0
    }),
{
    if x >= x1 {
        0
    } else {
        sample_hit(frame, x, y) + grid_row_hits(frame, y, x + 3, x1)
    }
}

/// The hits over the sample rows `y, y + 3, ...` above `y1`.
pub open spec fn grid_hits(frame: &Frame, y: int, y1: int, x0: int, x1: int) -> int
    decreases (if y < y1 {
        y1 - y
    } else {
        0
    }),
{
    if y >= y1 {
        0
    } else {
        grid_row_hits(frame, y, x0, x1) + grid_hits(frame, y + 3, y1, x0, x1)
    }
}

/// How busy the face of `rect` is, as `(hits, total)` over a coarse grid of
/// samples three pixels apart, starting one pixel in from the top left and
/// stopping short of the last row and column: a sample hits when it differs
/// sharply from the pixel to its left or the one above.
pub fn ink_density(frame: &Frame, rect: Rect) -> (s: (i64, i64))
    requires
        snap_frame(frame),
        rect_in_frame(rect, frame),
        rect.2 <= RULE_W,
        rect.3 <= RULE_H,
    ensures
        s.0 == grid_hits(frame, rect.1 + 1, rect.1 + rect.3 - 1, rect.0 + 1, rect.0 + rect.2 - 1),
        s.1 == steps3(rect.1 + 1, rect.1 + rect.3 - 1) * steps3(rect.0 + 1, rect.0 + rect.2 - 1),
        0 <= s.0 <= s.1 <= 1003 * 1600,
{
    let (x, y, w, h) = rect;
    let x0 = x + 1;
    let y0 = y + 1;
    let x1 = x + w - 1;
    let y1 = y + h - 1;
    let ghost per_row = steps3(x0 as int, x1 as int);
    let ghost all_hits = grid_hits(frame, y0 as int, y1 as int, x0 as int, x1 as int);
    let ghost all_total = steps3(y0 as int, y1 as int) * per_row;
    let mut hits: i64 = 0;
    let mut total: i64 = 0;
    let mut yy = y0;
    while yy < y1
        invariant
            snap_frame(frame),
            rect_in_frame(rect, frame),
            rect == (x, y, w, h),
            w <= RULE_W,
            h <= RULE_H,
            x0 == x + 1,
            y0 == y + 1,
            x1 == x + w - 1,
            y1 == y + h - 1,
            y0 <= yy <= y1 + 2,
            per_row == steps3(x0 as int, x1 as int),
            hits + grid_hits(frame, yy as int, y1 as int, x0 as int, x1 as int) == all_hits,
            total + steps3(yy as int, y1 as int) * per_row == all_total,
            0 <= hits <= total,
            total <= (yy - y0) * w,
        decreases y1 + 3 - yy,
    {
        let mut xx = x0;
        let ghost row_start = total;
        let ghost row_hits = hits;
        proof {
            assert(steps3(yy as int, y1 as int) * per_row == per_row + steps3(yy + 3, y1 as int) * per_row)
                by (nonlinear_arith)
                requires
                    steps3(yy as int, y1 as int) == 1 + steps3(yy + 3, y1 as int),
            ;
        }
        while xx < x1
            invariant
                snap_frame(frame),
                rect_in_frame(rect, frame),
                rect == (x, y, w, h),
                w <= RULE_W,
                h <= RULE_H,
                x0 == x + 1,
                y0 == y + 1,
                x1 == x + w - 1,
                y1 == y + h - 1,
                y0 <= yy < y1,
                x0 <= xx <= x1 + 2,
                hits + grid_row_hits(frame, yy as int, xx as int, x1 as int) == row_hits + grid_row_hits(
                    frame,
                    yy as int,
                    x0 as int,
                    x1 as int,
                ),
                total + steps3(xx as int, x1 as int) == row_start + steps3(x0 as int, x1 as int),
                0 <= hits <= total,
                total <= row_start + (xx - x0),
                row_start <= (yy - y0) * w,
            decreases x1 + 3 - xx,
        {
            proof {
                assert((yy - y0) * w <= 1000 * 1600) by (nonlinear_arith)
                    requires
                        0 <= yy - y0 <= 1000,
                        0 <= w <= 1600,
                ;
            }
            total = total + 1;
            let here = pixel(frame, xx, yy);
            if dist(here, pixel(frame, xx - 1, yy)) > EDGE || dist(here, pixel(frame, xx, yy - 1)) > EDGE {
                hits = hits + 1;
            }
            xx = xx + 3;
        }
        proof {
            assert((yy - y0) * w + w <= (yy + 3 - y0) * w) by (nonlinear_arith)
                requires
                    w >= 0,
            ;
        }
        yy = yy + 3;
    }
    proof {
        assert((yy - y0) * w <= 1003 * 1600) by (nonlinear_arith)
            requires
                0 <= yy - y0 <= 1003,
                0 <= w <= 1600,
        ;
    }
    (hits, total)
}

/// The window of rows (or columns) within [`RUN`] of `s`, clipped to `0..n`.
pub open spec fn run_window(s: int, n: int) -> (int, int) {
    (if s - RUN > 0 {
        s - RUN
    } else {
        0
    }, if s + RUN + 1 < n {
        s + RUN + 1
    } else {
        n
    })
}

/// The rows `y0 <= y < y1` on which columns `c - 1` and `c` differ sharply.
pub open spec fn column_step_hits(frame: &Frame, c: int, y0: int, y1: int) -> int
    decreases y1 - y0,
{
    if y1 <= y0 {
        0
    } else {
        column_step_hits(frame, c, y0, y1 - 1) + if dist_spec(
            pixel_spec(frame, c - 1, y1 - 1),
            pixel_spec(frame, c, y1 - 1),
        ) > EDGE {
            1int
        } else {
            0int
        }
    }
}

/// The columns `x0 <= x < x1` on which rows `r - 1` and `r` differ sharply.
pub open spec fn row_step_hits(frame: &Frame, r: int, x0: int, x1: int) -> int
    decreases x1 - x0,
{
    if x1 <= x0 {
        0
    } else {
        row_step_hits(frame, r, x0, x1 - 1) + if dist_spec(
            pixel_spec(frame, x1 - 1, r - 1),
            pixel_spec(frame, x1 - 1, r),
        ) > EDGE {
            1int
        } else {
            0int
        }
    }
}

/// A side runs between columns `c - 1` and `c` near row `sy`: at least
/// [`RUN_HIT`] percent of the rows within [`RUN`] of it differ sharply.
pub open spec fn vertical_side_spec(frame: &Frame, c: int, sy: int) -> bool {
    let (y0, y1) = run_window(sy, frame.height as int);
    column_step_hits(frame, c, y0, y1) * 100 >= (y1 - y0) * RUN_HIT
}

/// A side runs between rows `r - 1` and `r` near column `sx`.
pub open spec fn horizontal_side_spec(frame: &Frame, r: int, sx: int) -> bool {
    let (x0, x1) = run_window(sx, frame.width as int);
    row_step_hits(frame, r, x0, x1) * 100 >= (x1 - x0) * RUN_HIT
}

/// See [`vertical_side_spec`].
pub fn vertical_side(frame: &Frame, c: i32, sy: i32) -> (b: bool)
    requires
        snap_frame(frame),
        1 <= c < frame.width,
        0 <= sy < frame.height,
    ensures
        b == vertical_side_spec(frame, c as int, sy as int),
{
    let fh = frame.height as i32;
    let y0 = max_i32(sy - RUN, 0);
    let y1 = min_i32(sy + RUN + 1, fh);
    let mut hits: i32 = 0;
    let mut y = y0;
    while y < y1
        invariant
            snap_frame(frame),
            1 <= c < frame.width,
            fh == frame.height,
            0 <= y0 <= y <= y1 <= fh,
            y1 - y0 <= 15,
            hits == column_step_hits(frame, c as int, y0 as int, y as int),
            0 <= hits <= y - y0,
        decreases y1 - y,
    {
        if dist(pixel(frame, c - 1, y), pixel(frame, c, y)) > EDGE {
            hits = hits + 1;
        }
        y = y + 1;
    }
    hits * 100 >= (y1 - y0) * RUN_HIT
}

/// See [`horizontal_side_spec`].
pub fn horizontal_side(frame: &Frame, r: i32, sx: i32) -> (b: bool)
    requires
        snap_frame(frame),
        1 <= r < frame.height,
        0 <= sx < frame.width,
    ensures
        b == horizontal_side_spec(frame, r as int, sx as int),
{
    let fw = frame.width as i32;
    let x0 = max_i32(sx - RUN, 0);
    let x1 = min_i32(sx + RUN + 1, fw);
    let mut hits: i32 = 0;
    let mut x = x0;
    while x < x1
        invariant
            snap_frame(frame),
            1 <= r < frame.height,
            fw == frame.width,
            0 <= x0 <= x <= x1 <= fw,
            x1 - x0 <= 15,
            hits == row_step_hits(frame, r as int, x0 as int, x as int),
            0 <= hits <= x - x0,
        decreases x1 - x,
    {
        if dist(pixel(frame, x, r - 1), pixel(frame, x, r)) > EDGE {
            hits = hits + 1;
        }
        x = x + 1;
    }
    hits * 100 >= (x1 - x0) * RUN_HIT
}

/// `a / b < c / d` for non-negative counts, where a zero denominator stands
/// for the ratio 0.
fn ratio_less(a: i64, b: i64, c: i64, d: i64) -> (r: bool)
    requires
        0 <= a <= b <= 0x4_0000_0000,
        0 <= c <= d <= 0x4_0000_0000,
    ensures
        b > 0 && d > 0 ==> (r <==> a * d < c * b),
{
    let (a, b) = if b == 0 {
        (0i64, 1i64)
    } else {
        (a, b)
    };
    let (c, d) = if d == 0 {
        (0i64, 1i64)
    } else {
        (c, d)
    };
    proof {
        assert(0 <= (a as i128) * (d as i128) <= 0x4_0000_0000 * 0x4_0000_0000) by (nonlinear_arith)
            requires
                0 <= a <= 0x4_0000_0000,
                0 <= d <= 0x4_0000_0000,
        ;
        assert(0 <= (c as i128) * (b as i128) <= 0x4_0000_0000 * 0x4_0000_0000) by (nonlinear_arith)
            requires
                0 <= c <= 0x4_0000_0000,
                0 <= b <= 0x4_0000_0000,
        ;
    }
    (a as i128) * (d as i128) < (c as i128) * (b as i128)
}

/// Walking down from column `c` to just above `lo`: the first column with a
/// side ([`vertical_side_spec`]) near row `sy`.
pub open spec fn side_left(frame: &Frame, sy: int, c: int, lo: int) -> Option<int>
    decreases (if c > lo {
        c - lo
    } else {
        0
    }),
{
    if c <= lo {
        None
    } else if vertical_side_spec(frame, c, sy) {
        Some(c)
    } else {
        side_left(frame, sy, c - 1, lo)
    }
}

/// Walking up from column `c` to just below `hi`: the first column with a
/// side near row `sy`.
pub open spec fn side_right(frame: &Frame, sy: int, c: int, hi: int) -> Option<int>
    decreases (if c < hi {
        hi - c
    } else {
        0
    }),
{
    if c >= hi {
        None
    } else if vertical_side_spec(frame, c, sy) {
        Some(c)
    } else {
        side_right(frame, sy, c + 1, hi)
    }
}

/// Walking up the rows from `r` to just below `lo`: the first row with a
/// side ([`horizontal_side_spec`]) near column `sx`.
pub open spec fn side_top(frame: &Frame, sx: int, r: int, lo: int) -> Option<int>
    decreases (if r > lo {
        r - lo
    } else {
        0
    }),
{
    if r <= lo {
        None
    } else if horizontal_side_spec(frame, r, sx) {
        Some(r)
    } else {
        side_top(frame, sx, r - 1, lo)
    }
}

/// Walking down the rows from `r` to just above `hi`: the first row with a
/// side near column `sx`.
pub open spec fn side_bottom(frame: &Frame, sx: int, r: int, hi: int) -> Option<int>
    decreases (if r < hi {
        hi - r
    } else {
        0
    }),
{
    if r >= hi {
        None
    } else if horizontal_side_spec(frame, r, sx) {
        Some(r)
    } else {
        side_bottom(frame, sx, r + 1, hi)
    }
}

/// A walk's answer: the side it found, or the frame's own edge when the
/// walk's window reached it, or nothing.
pub open spec fn settle(found: Option<int>, window_edge: int, frame_edge: int) -> Option<int> {
    match found {
        Some(c) => Some(c),
        None => if window_edge == frame_edge {
            Some(frame_edge)
        } else {
            None
        },
    }
}

/// A box whose sides are not clearly stronger than its face: under 70% of
/// the perimeter on edges, or less than a quarter above the face's density
/// (taken as 0 when the face has no samples). As exact ratios.
pub open spec fn weak_box(h1: int, t1: int, h2: int, t2: int) -> bool {
    10 * h1 < 7 * t1 || if t2 == 0 {
        4 * h1 < t1
    } else {
        4 * h1 * t2 < 4 * h2 * t1 + t1 * t2
    }
}

/// The box the four side walks from `(sx, sy)` make, when it is at least
/// [`MIN_SIDE`] each way, covers at most three fifths of the frame, and its
/// sides stand out from its face.
pub open spec fn ruled_spec(frame: &Frame, sx: int, sy: int) -> Option<Rect> {
    let fw = frame.width as int;
    let fh = frame.height as int;
    let wx0 = if sx - RULE_W / 2 > 0 {
        sx - RULE_W / 2
    } else {
        0
    };
    let wy0 = if sy - RULE_H / 2 > 0 {
        sy - RULE_H / 2
    } else {
        0
    };
    let wx1 = if sx + RULE_W / 2 < fw {
        sx + RULE_W / 2
    } else {
        fw
    };
    let wy1 = if sy + RULE_H / 2 < fh {
        sy + RULE_H / 2
    } else {
        fh
    };
    match (
        settle(side_left(frame, sy, sx, wx0), wx0, 0),
        settle(side_right(frame, sy, sx + 1, wx1), wx1, fw),
        settle(side_top(frame, sx, sy, wy0), wy0, 0),
        settle(side_bottom(frame, sx, sy + 1, wy1), wy1, fh),
    ) {
        (Some(l), Some(r), Some(t), Some(b)) => {
            let rect = (l as i32, t as i32, (r - l) as i32, (b - t) as i32);
            if r - l < MIN_SIDE || b - t < MIN_SIDE {
                None
            } else if (r - l) * (b - t) > fw * fh * 3 / 5 {
                None
            } else if weak_box(
                upright_hits(frame, rect, b) + level_hits(frame, rect, r),
                2 * ((r - l) + (b - t)),
                grid_hits(frame, t + 1, b - 1, l + 1, r - 1),
                steps3(t + 1, b - 1) * steps3(l + 1, r - 1),
            ) {
                None
            } else {
                Some(rect)
            }
        },
        _ => None,
    }
}

/// Walk out from the cursor in all four directions and return the box the
/// four sides make; `None` when a walk ran off its window before the frame
/// ended, when the box is too small or covers most of the frame, or when its
/// sides are not clearly stronger than its face.
#[verifier::spinoff_prover]
#[verifier::rlimit(40)]
pub fn ruled(frame: &Frame, sx: i32, sy: i32) -> (r: Option<Rect>)
    requires
        snap_frame(frame),
        0 <= sx < frame.width,
        0 <= sy < frame.height,
    ensures
        r == ruled_spec(frame, sx as int, sy as int),
        r matches Some(b) ==> snap_candidate(b, frame, sx as int, sy as int) && b.2 >= MIN_SIDE && b.3
            >= MIN_SIDE,
{
    let fw = frame.width as i32;
    let fh = frame.height as i32;
    let wx0 = max_i32(sx - RULE_W / 2, 0);
    let wy0 = max_i32(sy - RULE_H / 2, 0);
    let wx1 = min_i32(sx + RULE_W / 2, fw);
    let wy1 = min_i32(sy + RULE_H / 2, fh);

    // Left: the nearest side at or left of the cursor.
    let mut c = sx;
    let mut found = false;
    while !found && c > wx0
        invariant
            snap_frame(frame),
            fw == frame.width,
            fh == frame.height,
            0 <= sy < fh,
            0 <= wx0 <= c <= sx < fw,
            found ==> c > wx0,
            side_left(frame, sy as int, sx as int, wx0 as int) == (if found {
                Some(c as int)
            } else {
                side_left(frame, sy as int, c as int, wx0 as int)
            }),
        decreases c - wx0, if found { 0int } else { 1int },
    {
        if vertical_side(frame, c, sy) {
            found = true;
        } else {
            c = c - 1;
        }
    }
    let left = if found {
        c
    } else if wx0 == 0 {
        0
    } else {
        return None;
    };
    // Right: the nearest side right of the cursor.
    let mut c = sx + 1;
    let mut found = false;
    while !found && c < wx1
        invariant
            snap_frame(frame),
            fw == frame.width,
            fh == frame.height,
            0 <= sy < fh,
            0 <= sx,
            sx + 1 <= c,
            wx1 <= fw,
            found ==> c < wx1,
            side_right(frame, sy as int, sx + 1, wx1 as int) == (if found {
                Some(c as int)
            } else {
                side_right(frame, sy as int, c as int, wx1 as int)
            }),
        decreases wx1 - c, if found { 0int } else { 1int },
    {
        if vertical_side(frame, c, sy) {
            found = true;
        } else {
            c = c + 1;
        }
    }
    let right = if found {
        c
    } else if wx1 == fw {
        fw
    } else {
        return None;
    };
    // Top.
    let mut rr = sy;
    let mut found = false;
    while !found && rr > wy0
        invariant
            snap_frame(frame),
            fw == frame.width,
            fh == frame.height,
            0 <= sx < fw,
            0 <= wy0 <= rr <= sy < fh,
            found ==> rr > wy0,
            side_top(frame, sx as int, sy as int, wy0 as int) == (if found {
                Some(rr as int)
            } else {
                side_top(frame, sx as int, rr as int, wy0 as int)
            }),
        decreases rr - wy0, if found { 0int } else { 1int },
    {
        if horizontal_side(frame, rr, sx) {
            found = true;
        } else {
            rr = rr - 1;
        }
    }
    let top = if found {
        rr
    } else if wy0 == 0 {
        0
    } else {
        return None;
    };
    // Bottom.
    let mut rr = sy + 1;
    let mut found = false;
    while !found && rr < wy1
        invariant
            snap_frame(frame),
            fw == frame.width,
            fh == frame.height,
            0 <= sx < fw,
            0 <= sy,
            sy + 1 <= rr,
            wy1 <= fh,
            found ==> rr < wy1,
            side_bottom(frame, sx as int, sy + 1, wy1 as int) == (if found {
                Some(rr as int)
            } else {
                side_bottom(frame, sx as int, rr as int, wy1 as int)
            }),
        decreases wy1 - rr, if found { 0int } else { 1int },
    {
        if horizontal_side(frame, rr, sx) {
            found = true;
        } else {
            rr = rr + 1;
        }
    }
    let bottom = if found {
        rr
    } else if wy1 == fh {
        fh
    } else {
        return None;
    };

    let rect = (left, top, right - left, bottom - top);
    if rect.2 < MIN_SIDE || rect.3 < MIN_SIDE {
        return None;
    }
    proof {
        assert(0 <= (fw as i128) * (fh as i128) <= 0x1_0000_0000 * 0x1_0000_0000) by (nonlinear_arith)
            requires
                0 <= fw <= 0x1_0000_0000,
                0 <= fh <= 0x1_0000_0000,
        ;
    }
    if (area(rect) as i128) > (fw as i128) * (fh as i128) * 3 / 5 {
        return None;
    }
    let support = border_support(frame, rect);
    let density = ink_density(frame, rect);
    // support < 0.7, or support < density + 0.25
    let (h1, t1) = support;
    let (h2, t2) = density;
    proof {
        assert(0 <= 4 * (h1 as i128) * (t2 as i128) <= 4 * 0x1_0000_0000 * 0x1_0000_0000) by (nonlinear_arith)
            requires
                0 <= h1 <= 0x1_0000_0000,
                0 <= t2 <= 0x1_0000_0000,
        ;
        assert(0 <= 4 * (h2 as i128) * (t1 as i128) <= 4 * 0x1_0000_0000 * 0x1_0000_0000) by (nonlinear_arith)
            requires
                0 <= h2 <= 0x1_0000_0000,
                0 <= t1 <= 0x1_0000_0000,
        ;
        assert(0 <= (t1 as i128) * (t2 as i128) <= 0x1_0000_0000 * 0x1_0000_0000) by (nonlinear_arith)
            requires
                0 <= t1 <= 0x1_0000_0000,
                0 <= t2 <= 0x1_0000_0000,
        ;
    }
    let weak = (h1 as i128) * 10 < (t1 as i128) * 7 || if t2 == 0 {
        (h1 as i128) * 4 < (t1 as i128)
    } else {
        4 * (h1 as i128) * (t2 as i128) < 4 * (h2 as i128) * (t1 as i128) + (t1 as i128) * (t2 as i128)
    };
    if weak {
        return None;
    }
    Some(rect)
}

/// How many lines [`close_runs`] walks: rows when `horizontal`, else columns.
pub open spec fn line_count(ww: int, wh: int, horizontal: bool) -> int {
    if horizontal {
        wh
    } else {
        ww
    }
}

/// How long each line [`close_runs`] walks is.
pub open spec fn line_len(ww: int, wh: int, horizontal: bool) -> int {
    if horizontal {
        ww
    } else {
        wh
    }
}

/// The flat index of cell `pos` of line `line` in a grid `ww` wide.
pub open spec fn line_index(ww: int, horizontal: bool, line: int, pos: int) -> int {
    if horizontal {
        line * ww + pos
    } else {
        pos * ww + line
    }
}

/// Whether line `line` has a mark of `ink` at `pos`.
pub open spec fn ink_on(ink: Seq<bool>, ww: int, horizontal: bool, line: int, pos: int) -> bool {
    ink[line_index(ww, horizontal, line, pos)]
}

/// Cell `pos` of line `line` lies in a blank run of at most `gap` cells
/// between two marks, the later of which comes before `lim`.
pub open spec fn bridged(ink: Seq<bool>, ww: int, horizontal: bool, gap: int, line: int, pos: int, lim: int) -> bool {
    exists|a: int, b: int|
        #![trigger ink_on(ink, ww, horizontal, line, a), ink_on(ink, ww, horizontal, line, b)]
        0 <= a < pos < b < lim && b - a - 1 <= gap && ink_on(ink, ww, horizontal, line, a) && ink_on(
            ink,
            ww,
            horizontal,
            line,
            b,
        ) && forall|t: int| a < t < b ==> !#[trigger] ink_on(ink, ww, horizontal, line, t)
}

proof fn lemma_line_index(ww: int, wh: int, horizontal: bool, l: int, p: int, l2: int, p2: int)
    requires
        0 < ww,
        0 < wh,
        0 <= l < line_count(ww, wh, horizontal),
        0 <= p < line_len(ww, wh, horizontal),
        0 <= l2 < line_count(ww, wh, horizontal),
        0 <= p2 < line_len(ww, wh, horizontal),
    ensures
        0 <= line_index(ww, horizontal, l, p) < ww * wh,
        (l, p) != (l2, p2) ==> line_index(ww, horizontal, l, p) != line_index(ww, horizontal, l2, p2),
{
    if horizontal {
        lemma_index_in_grid(p, l, ww, wh);
        if (l, p) != (l2, p2) {
            crate::arith::lemma_index_distinct(p, l, p2, l2, ww);
        }
    } else {
        lemma_index_in_grid(l, p, ww, wh);
        if (l, p) != (l2, p2) {
            crate::arith::lemma_index_distinct(l, p, l2, p2, ww);
        }
    }
}

/// Bridge the blank runs of at most `gap` cells between marks of `ink` along
/// one axis, writing the bridges into `out`. Both axes read the same original
/// marks, so bridges never feed further bridges.
pub fn close_runs(out: &mut Vec<bool>, ink: &Vec<bool>, ww: i32, wh: i32, gap: i32, horizontal: bool)
    requires
        0 < ww <= INK_W,
        0 < wh <= INK_H,
        old(out)@.len() == ww * wh,
        ink@.len() == ww * wh,
    ensures
        final(out)@.len() == old(out)@.len(),
        forall|l: int, p: int|
            0 <= l < line_count(ww as int, wh as int, horizontal) && 0 <= p < line_len(ww as int, wh as int, horizontal)
                ==> #[trigger] final(out)@[line_index(ww as int, horizontal, l, p)] == (old(out)@[line_index(
                ww as int,
                horizontal,
                l,
                p,
            )] || bridged(ink@, ww as int, horizontal, gap as int, l, p, line_len(ww as int, wh as int, horizontal))),
{
    let ghost w = ww as int;
    let ghost h = wh as int;
    let ghost orig = out@;
    let ghost nl = line_count(w, h, horizontal);
    let ghost nlen = line_len(w, h, horizontal);
    proof {
        assert(ww * wh <= 640 * 400) by (nonlinear_arith)
            requires
                0 < ww <= 640,
                0 < wh <= 400,
        ;
    }
    let (lines, len) = if horizontal {
        (wh, ww)
    } else {
        (ww, wh)
    };
    let mut line: i32 = 0;
    while line < lines
        invariant
            0 < ww <= INK_W,
            0 < wh <= INK_H,
            ww * wh <= 640 * 400,
            w == ww,
            h == wh,
            out@.len() == ww * wh,
            ink@.len() == ww * wh,
            orig.len() == ww * wh,
            lines == nl,
            len == nlen,
            nl == line_count(w, h, horizontal),
            nlen == line_len(w, h, horizontal),
            0 <= line <= lines,
            forall|l: int, p: int|
                0 <= l < nl && 0 <= p < nlen ==> #[trigger] out@[line_index(w, horizontal, l, p)] == (
                orig[line_index(w, horizontal, l, p)] || (l < line && bridged(ink@, w, horizontal, gap as int, l, p, nlen))),
        decreases lines - line,
    {
        let mut last: i32 = -1;
        let mut i: i32 = 0;
        let ghost ln = line as int;
        while i < len
            invariant
                0 < ww <= INK_W,
                0 < wh <= INK_H,
                ww * wh <= 640 * 400,
                w == ww,
                h == wh,
                out@.len() == ww * wh,
                ink@.len() == ww * wh,
                orig.len() == ww * wh,
                lines == nl,
                len == nlen,
                nl == line_count(w, h, horizontal),
                nlen == line_len(w, h, horizontal),
                0 <= line < lines,
                ln == line,
                0 <= i <= len,
                -1 <= last < i,
                last == -1 ==> forall|t: int| 0 <= t < i ==> !#[trigger] ink_on(ink@, w, horizontal, ln, t),
                last >= 0 ==> ink_on(ink@, w, horizontal, ln, last as int),
                forall|t: int| last < t < i ==> !#[trigger] ink_on(ink@, w, horizontal, ln, t),
                forall|l: int, p: int|
                    0 <= l < nl && 0 <= p < nlen && l != ln ==> #[trigger] out@[line_index(w, horizontal, l, p)] == (
                    orig[line_index(w, horizontal, l, p)] || (l < ln && bridged(ink@, w, horizontal, gap as int, l, p, nlen))),
                forall|p: int|
                    0 <= p < nlen ==> #[trigger] out@[line_index(w, horizontal, ln, p)] == (orig[line_index(
                        w,
                        horizontal,
                        ln,
                        p,
                    )] || bridged(ink@, w, horizontal, gap as int, ln, p, i as int)),
            decreases len - i,
        {
            proof {
                lemma_line_index(w, h, horizontal, ln, i as int, ln, i as int);
                if horizontal {
                    lemma_index_in_grid(i as int, line as int, ww as int, wh as int);
                } else {
                    lemma_index_in_grid(line as int, i as int, ww as int, wh as int);
                }
            }
            let at = if horizontal {
                (line * ww + i) as usize
            } else {
                (i * ww + line) as usize
            };
            let ghost out_i = out@;
            if ink[at] {
                proof {
                    assert(ink_on(ink@, w, horizontal, ln, i as int));
                }
                if last >= 0 {
                    let blank = i - last - 1;
                    if blank > 0 && blank <= gap {
                        let mut j = last + 1;
                        while j < i
                            invariant
                                0 < ww <= INK_W,
                                0 < wh <= INK_H,
                                ww * wh <= 640 * 400,
                                w == ww,
                                h == wh,
                                out@.len() == ww * wh,
                                lines == nl,
                                len == nlen,
                                nl == line_count(w, h, horizontal),
                                nlen == line_len(w, h, horizontal),
                                0 <= line < lines,
                                ln == line,
                                0 <= last < j <= i < len,
                                forall|l: int, p: int|
                                    0 <= l < nl && 0 <= p < nlen ==> #[trigger] out@[line_index(w, horizontal, l, p)]
                                        == (out_i[line_index(w, horizontal, l, p)] || (l == ln && last < p < j)),
                            decreases i - j,
                        {
                            proof {
                                if horizontal {
                                    lemma_index_in_grid(j as int, line as int, ww as int, wh as int);
                                } else {
                                    lemma_index_in_grid(line as int, j as int, ww as int, wh as int);
                                }
                            }
                            let aj = if horizontal {
                                (line * ww + j) as usize
                            } else {
                                (j * ww + line) as usize
                            };
                            let ghost out_j = out@;
                            out.set(aj, true);
                            proof {
                                assert forall|l: int, p: int| 0 <= l < nl && 0 <= p < nlen implies #[trigger] out@[line_index(
                                    w,
                                    horizontal,
                                    l,
                                    p,
                                )] == (out_i[line_index(w, horizontal, l, p)] || (l == ln && last < p < j + 1)) by {
                                    lemma_line_index(w, h, horizontal, l, p, ln, j as int);
                                }
                            }
                            j = j + 1;
                        }
                    }
                }
                proof {
                    assert forall|p: int| 0 <= p < nlen implies bridged(ink@, w, horizontal, gap as int, ln, p, i + 1)
                        == (bridged(ink@, w, horizontal, gap as int, ln, p, i as int) || (last >= 0 && last < p < i && i
                        - last - 1 <= gap)) by {
                        if last >= 0 && last < p < i && i - last - 1 <= gap {
                            assert(ink_on(ink@, w, horizontal, ln, last as int));
                            assert(ink_on(ink@, w, horizontal, ln, i as int));
                        }
                        if bridged(ink@, w, horizontal, gap as int, ln, p, i + 1) && !bridged(
                            ink@,
                            w,
                            horizontal,
                            gap as int,
                            ln,
                            p,
                            i as int,
                        ) {
                            let (a, b) = choose|a: int, b: int|
                                #![trigger ink_on(ink@, w, horizontal, ln, a), ink_on(ink@, w, horizontal, ln, b)]
                                0 <= a < p < b < i + 1 && b - a - 1 <= gap && ink_on(ink@, w, horizontal, ln, a)
                                    && ink_on(ink@, w, horizontal, ln, b) && forall|t: int|
                                    a < t < b ==> !#[trigger] ink_on(ink@, w, horizontal, ln, t);
                            assert(b == i);
                            if last == -1 {
                                assert(!ink_on(ink@, w, horizontal, ln, a));
                            } else if a < last {
                                assert(!ink_on(ink@, w, horizontal, ln, last as int));
                            } else if a > last {
                                assert(!ink_on(ink@, w, horizontal, ln, a));
                            }
                        }
                    }
                }
                last = i;
            } else {
                proof {
                    assert(!ink_on(ink@, w, horizontal, ln, i as int));
                    assert forall|p: int| 0 <= p < nlen implies bridged(ink@, w, horizontal, gap as int, ln, p, i + 1)
                        == bridged(ink@, w, horizontal, gap as int, ln, p, i as int) by {
                        if bridged(ink@, w, horizontal, gap as int, ln, p, i + 1) {
                            let (a, b) = choose|a: int, b: int|
                                #![trigger ink_on(ink@, w, horizontal, ln, a), ink_on(ink@, w, horizontal, ln, b)]
                                0 <= a < p < b < i + 1 && b - a - 1 <= gap && ink_on(ink@, w, horizontal, ln, a)
                                    && ink_on(ink@, w, horizontal, ln, b) && forall|t: int|
                                    a < t < b ==> !#[trigger] ink_on(ink@, w, horizontal, ln, t);
                            assert(b != i);
                        }
                    }
                }
            }
            i = i + 1;
        }
        line = line + 1;
    }
}

/// `s` with `r` inserted after the last element whose area is at most `r`'s.
pub open spec fn insert_by_area(s: Seq<Rect>, r: Rect) -> Seq<Rect>
    decreases s.len(),
{
    if s.len() == 0 || area_spec(s.last()) <= area_spec(r) {
        s.push(r)
    } else {
        insert_by_area(s.drop_last(), r).push(s.last())
    }
}

/// `s` sorted by area, smallest first, keeping the order of equal areas.
pub open spec fn area_sorted(s: Seq<Rect>) -> Seq<Rect>
    decreases s.len(),
{
    if s.len() == 0 {
        s
    } else {
        insert_by_area(area_sorted(s.drop_last()), s.last())
    }
}

proof fn lemma_insert_by_area_at(s: Seq<Rect>, r: Rect, j: int)
    requires
        0 <= j <= s.len(),
        j == 0 || area_spec(s[j - 1]) <= area_spec(r),
        forall|t: int| j <= t < s.len() ==> area_spec(#[trigger] s[t]) > area_spec(r),
    ensures
        insert_by_area(s, r) == s.subrange(0, j).push(r) + s.subrange(j, s.len() as int),
    decreases s.len(),
{
    if j == s.len() {
        assert(s.subrange(0, j) =~= s);
        assert(s.subrange(j, s.len() as int) =~= Seq::<Rect>::empty());
        assert(s.push(r) + Seq::<Rect>::empty() =~= s.push(r));
    } else {
        let d = s.drop_last();
        lemma_insert_by_area_at(d, r, j);
        assert(d.subrange(0, j) =~= s.subrange(0, j));
        assert((d.subrange(0, j).push(r) + d.subrange(j, d.len() as int)).push(s.last()) =~= s.subrange(0, j).push(r)
            + s.subrange(j, s.len() as int));
    }
}

/// `a` comes before `b` by area, then by the tuple order.
pub open spec fn key_less(a: Rect, b: Rect) -> bool {
    area_spec(a) < area_spec(b) || (area_spec(a) == area_spec(b) && lex_less(a, b))
}

proof fn lemma_insert_by_area_elements(q: Seq<Rect>, r: Rect)
    ensures
        insert_by_area(q, r).len() == q.len() + 1,
        forall|x: Rect| #[trigger] insert_by_area(q, r).contains(x) ==> x == r || q.contains(x),
    decreases q.len(),
{
    if !(q.len() == 0 || area_spec(q.last()) <= area_spec(r)) {
        lemma_insert_by_area_elements(q.drop_last(), r);
        assert forall|x: Rect| #[trigger] insert_by_area(q, r).contains(x) implies x == r || q.contains(x) by {
            let t = choose|t: int| 0 <= t < insert_by_area(q, r).len() && insert_by_area(q, r)[t] == x;
            if t < q.len() {
                assert(insert_by_area(q.drop_last(), r)[t] == x);
                assert(insert_by_area(q.drop_last(), r).contains(x));
                if x != r {
                    let u = choose|u: int| 0 <= u < q.drop_last().len() && q.drop_last()[u] == x;
                    assert(q[u] == x);
                }
            } else {
                assert(q[q.len() - 1] == x);
            }
        }
    } else {
        assert forall|x: Rect| #[trigger] insert_by_area(q, r).contains(x) implies x == r || q.contains(x) by {
            let t = choose|t: int| 0 <= t < insert_by_area(q, r).len() && insert_by_area(q, r)[t] == x;
            if t < q.len() {
                assert(q[t] == x);
            }
        }
    }
}

proof fn lemma_area_sorted_elements(s: Seq<Rect>)
    ensures
        area_sorted(s).len() == s.len(),
        forall|x: Rect| #[trigger] area_sorted(s).contains(x) ==> s.contains(x),
    decreases s.len(),
{
    if s.len() > 0 {
        lemma_area_sorted_elements(s.drop_last());
        lemma_insert_by_area_elements(area_sorted(s.drop_last()), s.last());
        assert forall|x: Rect| #[trigger] area_sorted(s).contains(x) implies s.contains(x) by {
            if x == s.last() {
                assert(s[s.len() - 1] == x);
            } else {
                assert(area_sorted(s.drop_last()).contains(x));
                let u = choose|u: int| 0 <= u < s.drop_last().len() && s.drop_last()[u] == x;
                assert(s[u] == x);
            }
        }
    }
}

proof fn lemma_insert_by_area_keyed(q: Seq<Rect>, r: Rect)
    requires
        forall|a: int, b: int| 0 <= a < b < q.len() ==> key_less(#[trigger] q[a], #[trigger] q[b]),
        forall|t: int| 0 <= t < q.len() ==> lex_less(#[trigger] q[t], r),
    ensures
        forall|a: int, b: int|
            0 <= a < b < insert_by_area(q, r).len() ==> key_less(
                #[trigger] insert_by_area(q, r)[a],
                #[trigger] insert_by_area(q, r)[b],
            ),
    decreases q.len(),
{
    lemma_insert_by_area_elements(q, r);
    let res = insert_by_area(q, r);
    if q.len() == 0 || area_spec(q.last()) <= area_spec(r) {
        assert forall|a: int, b: int| 0 <= a < b < res.len() implies key_less(#[trigger] res[a], #[trigger] res[b]) by {
            if b == q.len() {
                if a < q.len() - 1 {
                    assert(key_less(q[a], q[q.len() - 1]));
                }
                assert(lex_less(q[a], r));
            } else {
                assert(res[a] == q[a] && res[b] == q[b]);
            }
        }
    } else {
        let d = q.drop_last();
        lemma_insert_by_area_keyed(d, r);
        lemma_insert_by_area_elements(d, r);
        let inner = insert_by_area(d, r);
        assert forall|a: int, b: int| 0 <= a < b < res.len() implies key_less(#[trigger] res[a], #[trigger] res[b]) by {
            if b == res.len() - 1 {
                assert(res[b] == q.last());
                assert(res[a] == inner[a]);
                assert(inner.contains(inner[a]));
                if inner[a] != r {
                    let u = choose|u: int| 0 <= u < d.len() && d[u] == inner[a];
                    assert(key_less(q[u], q[q.len() - 1]));
                }
            } else {
                assert(res[a] == inner[a] && res[b] == inner[b]);
            }
        }
    }
}

/// Sorting a sequence already strictly in tuple order by area leaves it
/// strictly ordered by area, then tuple.
proof fn lemma_area_sorted_keyed(s: Seq<Rect>)
    requires
        forall|a: int, b: int| 0 <= a < b < s.len() ==> lex_less(#[trigger] s[a], #[trigger] s[b]),
    ensures
        forall|a: int, b: int|
            0 <= a < b < area_sorted(s).len() ==> key_less(#[trigger] area_sorted(s)[a], #[trigger] area_sorted(s)[b]),
    decreases s.len(),
{
    if s.len() > 0 {
        let d = s.drop_last();
        lemma_area_sorted_keyed(d);
        lemma_area_sorted_elements(d);
        let q = area_sorted(d);
        assert forall|t: int| 0 <= t < q.len() implies lex_less(#[trigger] q[t], s.last()) by {
            assert(q.contains(q[t]));
            let u = choose|u: int| 0 <= u < d.len() && d[u] == q[t];
            assert(s[u] == q[t]);
        }
        lemma_insert_by_area_keyed(q, s.last());
    }
}

/// Stable insertion sort by area, smallest first.
fn sort_by_area(v: &mut Vec<Rect>)
    ensures
        final(v)@ == area_sorted(old(v)@),
        final(v)@.len() == old(v)@.len(),
        final(v)@.to_multiset() == old(v)@.to_multiset(),
        forall|k: int| 0 <= k < final(v)@.len() ==> old(v)@.contains(#[trigger] final(v)@[k]),
        forall|a: int, b: int|
            0 <= a < b < final(v)@.len() ==> area_spec(#[trigger] final(v)@[a]) <= area_spec(#[trigger] final(v)@[b]),
{
    let ghost orig = v@;
    if v.len() == 0 {
        proof {
            assert(v@ =~= area_sorted(orig));
        }
        return;
    }
    proof {
        let o1 = orig.subrange(0, 1);
        assert(o1.drop_last() =~= Seq::<Rect>::empty());
        assert(area_sorted(o1.drop_last()) =~= Seq::<Rect>::empty());
        assert(area_sorted(o1) =~= seq![orig[0]]);
        assert(v@.subrange(0, 1) =~= area_sorted(o1));
    }
    let mut i: usize = 1;
    while i < v.len()
        invariant
            v@.len() == orig.len(),
            v@.to_multiset() == orig.to_multiset(),
            1 <= i <= v@.len(),
            v@.subrange(0, i as int) == area_sorted(orig.subrange(0, i as int)),
            v@.subrange(i as int, v@.len() as int) == orig.subrange(i as int, orig.len() as int),
            forall|k: int| 0 <= k < v@.len() ==> orig.contains(#[trigger] v@[k]),
            forall|a: int, b: int| 0 <= a < b < i ==> area_spec(#[trigger] v@[a]) <= area_spec(#[trigger] v@[b]),
        decreases v@.len() - i,
    {
        let ghost sp = v@.subrange(0, i as int);
        let ghost elem = v@[i as int];
        let ghost rest = v@.subrange(i + 1, v@.len() as int);
        proof {
            assert(elem == orig.subrange(i as int, orig.len() as int)[0]);
            assert(rest =~= orig.subrange(i + 1, orig.len() as int)) by {
                assert forall|t: int| 0 <= t < rest.len() implies #[trigger] rest[t] == orig.subrange(i + 1, orig.len() as int)[t] by {
                    assert(v@.subrange(i as int, v@.len() as int)[t + 1] == orig.subrange(i as int, orig.len() as int)[t + 1]);
                }
            }
        }
        let mut j = i;
        while j > 0 && area(v[j - 1]) > area(v[j])
            invariant
                v@.len() == orig.len(),
                v@.to_multiset() == orig.to_multiset(),
                j <= i < v@.len(),
                sp.len() == i,
                v@.subrange(0, j as int) == sp.subrange(0, j as int),
                v@[j as int] == elem,
                v@.subrange(j + 1, i + 1) == sp.subrange(j as int, i as int),
                v@.subrange(i + 1, v@.len() as int) == rest,
                forall|t: int| j <= t < i ==> area_spec(#[trigger] sp[t]) > area_spec(elem),
                forall|k: int| 0 <= k < v@.len() ==> orig.contains(#[trigger] v@[k]),
                forall|a: int, b: int|
                    0 <= a < b <= i && a != j && b != j ==> area_spec(#[trigger] v@[a]) <= area_spec(#[trigger] v@[b]),
                forall|b: int| j < b <= i ==> area_spec(v@[j as int]) < area_spec(#[trigger] v@[b]),
            decreases j,
        {
            let a = v[j - 1];
            let b = v[j];
            proof {
                assert(orig.contains(v@[j - 1 as int]));
                assert(orig.contains(v@[j as int]));
            }
            let ghost before = v@;
            v.set(j - 1, b);
            let ghost middle = v@;
            v.set(j, a);
            proof {
                vstd::seq_lib::to_multiset_update(before, j - 1, b);
                vstd::seq_lib::to_multiset_update(middle, j as int, a);
                assert(middle[j as int] == b);
                assert(v@.to_multiset() =~= before.to_multiset()) by {
                    broadcast use vstd::multiset::group_multiset_axioms, vstd::multiset::group_multiset_properties, vstd::seq_lib::group_to_multiset_ensures;

                    assert(before.contains(a));
                    assert(before.to_multiset().count(a) > 0);
                    let m = before.to_multiset();
                    assert forall|r: Rect| #[trigger] v@.to_multiset().count(r) == m.count(r) by {
                        if r == a && r == b {
                        } else if r == a {
                        } else if r == b {
                        }
                    }
                }
                assert(sp[j - 1] == before[j - 1]) by {
                    assert(before.subrange(0, j as int)[j - 1] == sp.subrange(0, j as int)[j - 1]);
                }
                assert(v@.subrange(0, j - 1) =~= sp.subrange(0, j - 1)) by {
                    assert forall|t: int| 0 <= t < j - 1 implies #[trigger] v@.subrange(0, j - 1)[t] == sp.subrange(0, j - 1)[t] by {
                        assert(before.subrange(0, j as int)[t] == sp.subrange(0, j as int)[t]);
                    }
                }
                assert(v@.subrange(j as int, i + 1) =~= sp.subrange(j - 1, i as int)) by {
                    assert forall|t: int| 0 <= t < i + 1 - j implies #[trigger] v@.subrange(j as int, i + 1)[t] == sp.subrange(j - 1, i as int)[t] by {
                        if t > 0 {
                            assert(before.subrange(j + 1, i + 1)[t - 1] == sp.subrange(j as int, i as int)[t - 1]);
                        }
                    }
                }
                assert(v@.subrange(i + 1, v@.len() as int) =~= rest) by {
                    assert forall|t: int| 0 <= t < rest.len() implies #[trigger] v@.subrange(i + 1, v@.len() as int)[t] == rest[t] by {
                        assert(before.subrange(i + 1, before.len() as int)[t] == rest[t]);
                    }
                }
            }
            j = j - 1;
        }
        proof {
            if j > 0 {
                assert(sp[j - 1] == v@[j - 1]) by {
                    assert(v@.subrange(0, j as int)[j - 1] == sp.subrange(0, j as int)[j - 1]);
                }
            }
            lemma_insert_by_area_at(sp, elem, j as int);
            let o = orig.subrange(0, i + 1);
            assert(o.drop_last() =~= orig.subrange(0, i as int));
            assert(o.last() == elem);
            assert(area_sorted(o) == insert_by_area(sp, elem));
            assert(v@.subrange(0, i + 1) =~= sp.subrange(0, j as int).push(elem) + sp.subrange(j as int, i as int)) by {
                assert forall|t: int| 0 <= t < i + 1 implies #[trigger] v@.subrange(0, i + 1)[t] == (sp.subrange(0, j as int).push(
                    elem,
                ) + sp.subrange(j as int, i as int))[t] by {
                    if t < j {
                        assert(v@.subrange(0, j as int)[t] == sp.subrange(0, j as int)[t]);
                    } else if t > j {
                        assert(v@.subrange(j + 1, i + 1)[t - j - 1] == sp.subrange(j as int, i as int)[t - j - 1]);
                    }
                }
            }
            assert(v@.subrange(i + 1, v@.len() as int) =~= orig.subrange(i + 1, orig.len() as int));
        }
        proof {
            assert forall|a: int, b: int| 0 <= a < b < i + 1 implies area_spec(#[trigger] v@[a]) <= area_spec(
                #[trigger] v@[b],
            ) by {
                if a == j && j > 0 {
                    assert(area_spec(v@[j - 1]) <= area_spec(v@[j as int]));
                } else if b == j && j > 0 && a < j - 1 {
                    assert(area_spec(v@[a]) <= area_spec(v@[j - 1]));
                }
            }
        }
        i = i + 1;
    }
    proof {
        assert(orig.subrange(0, orig.len() as int) =~= orig);
        assert(v@.subrange(0, v@.len() as int) =~= v@);
    }
}

pub open spec fn lex_less(a: Rect, b: Rect) -> bool {
    a.0 < b.0 || (a.0 == b.0 && (a.1 < b.1 || (a.1 == b.1 && (a.2 < b.2 || (a.2 == b.2 && a.3 < b.3)))))
}

fn lex_less_exec(a: Rect, b: Rect) -> (r: bool)
    ensures
        r == lex_less(a, b),
{
    a.0 < b.0 || (a.0 == b.0 && (a.1 < b.1 || (a.1 == b.1 && (a.2 < b.2 || (a.2 == b.2 && a.3 < b.3)))))
}

/// Sort by the tuple order and drop adjacent duplicates: what `sort_unstable`
/// followed by `dedup` leaves.
fn sort_dedup(v: &Vec<Rect>) -> (out: Vec<Rect>)
    ensures
        forall|k: int| 0 <= k < out@.len() ==> v@.contains(#[trigger] out@[k]),
        forall|t: int| 0 <= t < v@.len() ==> out@.contains(#[trigger] v@[t]),
        forall|a: int, b: int| 0 <= a < b < out@.len() ==> lex_less(#[trigger] out@[a], #[trigger] out@[b]),
{
    let mut w: Vec<Rect> = Vec::new();
    let mut c: usize = 0;
    while c < v.len()
        invariant
            c <= v@.len(),
            w@ == v@.subrange(0, c as int),
        decreases v@.len() - c,
    {
        w.push(v[c]);
        c = c + 1;
        proof {
            assert(w@ =~= v@.subrange(0, c as int));
        }
    }
    proof {
        assert(w@ =~= v@);
    }
    let n = w.len();
    let mut i: usize = 1;
    while i < n
        invariant
            w@.len() == n,
            n == v@.len(),
            forall|k: int| 0 <= k < w@.len() ==> v@.contains(#[trigger] w@[k]),
            forall|t: int| 0 <= t < v@.len() ==> w@.contains(#[trigger] v@[t]),
            i >= 1,
            n > 0 ==> i <= n,
            forall|a: int, b: int| 0 <= a < b < i && b < n ==> !lex_less(#[trigger] w@[b], #[trigger] w@[a]),
        decreases n - i,
    {
        let mut j = i;
        while j > 0 && lex_less_exec(w[j], w[j - 1])
            invariant
                w@.len() == n,
                n == v@.len(),
                j <= i < w@.len(),
                forall|k: int| 0 <= k < w@.len() ==> v@.contains(#[trigger] w@[k]),
                forall|t: int| 0 <= t < v@.len() ==> w@.contains(#[trigger] v@[t]),
                forall|a: int, b: int|
                    0 <= a < b <= i && a != j && b != j ==> !lex_less(#[trigger] w@[b], #[trigger] w@[a]),
                forall|b: int| j < b <= i ==> lex_less(w@[j as int], #[trigger] w@[b]),
            decreases j,
        {
            let a = w[j - 1];
            let b = w[j];
            let ghost before = w@;
            proof {
                assert(v@.contains(w@[j - 1 as int]));
                assert(v@.contains(w@[j as int]));
            }
            w.set(j - 1, b);
            w.set(j, a);
            proof {
                assert forall|t: int| 0 <= t < v@.len() implies w@.contains(#[trigger] v@[t]) by {
                    let p = choose|p: int| 0 <= p < before.len() && before[p] == v@[t];
                    if p == j - 1 {
                        assert(w@[j as int] == v@[t]);
                    } else if p == j {
                        assert(w@[j - 1] == v@[t]);
                    } else {
                        assert(w@[p] == v@[t]);
                    }
                }
            }
            j = j - 1;
        }
        proof {
            assert forall|a: int, b: int| 0 <= a < b < i + 1 && b < n implies !lex_less(
                #[trigger] w@[b],
                #[trigger] w@[a],
            ) by {
                if a == j && j > 0 {
                    assert(!lex_less(w@[j as int], w@[j - 1]));
                } else if b == j && j > 0 && a < j - 1 {
                    assert(!lex_less(w@[j - 1], w@[a]));
                }
            }
        }
        i = i + 1;
    }
    let mut out: Vec<Rect> = Vec::new();
    let mut k: usize = 0;
    while k < w.len()
        invariant
            forall|m: int| 0 <= m < w@.len() ==> v@.contains(#[trigger] w@[m]),
            forall|m: int| 0 <= m < out@.len() ==> v@.contains(#[trigger] out@[m]),
            forall|t: int| 0 <= t < v@.len() ==> w@.contains(#[trigger] v@[t]),
            forall|m: int| 0 <= m < k ==> out@.contains(#[trigger] w@[m]),
            k <= w@.len(),
            forall|a: int, b: int| 0 <= a < b < w@.len() ==> !lex_less(#[trigger] w@[b], #[trigger] w@[a]),
            forall|a: int, b: int| 0 <= a < b < out@.len() ==> lex_less(#[trigger] out@[a], #[trigger] out@[b]),
            out@.len() > 0 ==> k > 0 && out@[out@.len() - 1] == w@[k - 1],
        decreases w@.len() - k,
    {
        let r = w[k];
        let dup = if out.len() > 0 {
            let last = out[out.len() - 1];
            last.0 == r.0 && last.1 == r.1 && last.2 == r.2 && last.3 == r.3
        } else {
            false
        };
        let ghost out_before = out@;
        if !dup {
            proof {
                assert(v@.contains(w@[k as int]));
            }
            out.push(r);
            proof {
                assert(out@[out@.len() - 1] == r);
                assert forall|m: int| 0 <= m < k + 1 implies out@.contains(#[trigger] w@[m]) by {
                    if m < k {
                        let q = choose|q: int| 0 <= q < out_before.len() && out_before[q] == w@[m];
                        assert(out@[q] == w@[m]);
                    }
                }
            }
        } else {
            proof {
                assert(out@[out@.len() - 1] == r);
            }
        }
        k = k + 1;
    }
    proof {
        assert forall|t: int| 0 <= t < v@.len() implies out@.contains(#[trigger] v@[t]) by {
            let m = choose|m: int| 0 <= m < w@.len() && w@[m] == v@[t];
            assert(out@.contains(w@[m]));
        }
    }
    out
}

/// The pixel `(x, y)` differs by more than [`EDGE`] from its right neighbour,
/// which lies before `x1`.
pub open spec fn edge_right(frame: &Frame, x1: int, x: int, y: int) -> bool {
    x + 1 < x1 && dist_spec(pixel_spec(frame, x, y), pixel_spec(frame, x + 1, y)) > EDGE
}

/// The pixel `(x, y)` differs by more than [`EDGE`] from the one below it,
/// which lies above `y1`.
pub open spec fn edge_down(frame: &Frame, y1: int, x: int, y: int) -> bool {
    y + 1 < y1 && dist_spec(pixel_spec(frame, x, y), pixel_spec(frame, x, y + 1)) > EDGE
}

/// The window pixel `(x, y)` sits on an edge with one of its window neighbours.
pub open spec fn ink_mark(frame: &Frame, x0: int, y0: int, x1: int, y1: int, x: int, y: int) -> bool {
    ||| edge_right(frame, x1, x, y)
    ||| edge_down(frame, y1, x, y)
    ||| (x - 1 >= x0 && edge_right(frame, x1, x - 1, y))
    ||| (y - 1 >= y0 && edge_down(frame, y1, x, y - 1))
}

/// Raster position `(px, py)` comes before `(x, y)`.
pub open spec fn raster_before(px: int, py: int, x: int, y: int) -> bool {
    py < y || (py == y && px < x)
}

/// [`ink_mark`] counting only the pixel pairs whose first pixel comes before
/// `(x, y)`.
pub open spec fn ink_mark_upto(frame: &Frame, x0: int, y0: int, x1: int, y1: int, cx: int, cy: int, x: int, y: int) -> bool {
    ||| (raster_before(cx, cy, x, y) && (edge_right(frame, x1, cx, cy) || edge_down(frame, y1, cx, cy)))
    ||| (cx - 1 >= x0 && raster_before(cx - 1, cy, x, y) && edge_right(frame, x1, cx - 1, cy))
    ||| (cy - 1 >= y0 && raster_before(cx, cy - 1, x, y) && edge_down(frame, y1, cx, cy - 1))
}

/// Mark, over the window `[x0, x1) x [y0, y1)` laid out row by row, both
/// pixels of every horizontally or vertically touching pair that differ by
/// more than [`EDGE`].
pub fn ink_marks(frame: &Frame, x0: i32, y0: i32, x1: i32, y1: i32) -> (ink: Vec<bool>)
    requires
        snap_frame(frame),
        0 <= x0 < x1 <= frame.width,
        0 <= y0 < y1 <= frame.height,
        x1 - x0 <= INK_W,
        y1 - y0 <= INK_H,
    ensures
        ink@.len() == (x1 - x0) * (y1 - y0),
        forall|x: int, y: int|
            x0 <= x < x1 && y0 <= y < y1 ==> #[trigger] ink@[(y - y0) * (x1 - x0) + (x - x0)] == ink_mark(
                frame,
                x0 as int,
                y0 as int,
                x1 as int,
                y1 as int,
                x,
                y,
            ),
{
    let ww = x1 - x0;
    let wh = y1 - y0;
    proof {
        assert(0 <= ww * wh <= 640 * 400) by (nonlinear_arith)
            requires
                0 < ww <= 640,
                0 < wh <= 400,
        ;
    }
    let n: usize = (ww as usize) * (wh as usize);
    let mut ink: Vec<bool> = vec![false; n];
    let ghost gx0 = x0 as int;
    let ghost gy0 = y0 as int;
    let ghost gx1 = x1 as int;
    let ghost gy1 = y1 as int;
    proof {
        assert forall|cx: int, cy: int| x0 <= cx < x1 && y0 <= cy < y1 implies #[trigger] ink@[(cy - y0) * ww + (cx
            - x0)] == ink_mark_upto(frame, gx0, gy0, gx1, gy1, cx, cy, gx0, gy0) by {
            lemma_index_in_grid(cx - x0, cy - y0, ww as int, wh as int);
        }
    }
    let mut y = y0;
    while y < y1
        invariant
            snap_frame(frame),
            0 <= x0 < x1 <= frame.width,
            0 <= y0 <= y <= y1 <= frame.height,
            ww == x1 - x0,
            wh == y1 - y0,
            ww <= INK_W,
            wh <= INK_H,
            n == ww * wh,
            ink@.len() == n,
            gx0 == x0,
            gy0 == y0,
            gx1 == x1,
            gy1 == y1,
            forall|cx: int, cy: int|
                x0 <= cx < x1 && y0 <= cy < y1 ==> #[trigger] ink@[(cy - y0) * ww + (cx - x0)] == ink_mark_upto(
                    frame,
                    gx0,
                    gy0,
                    gx1,
                    gy1,
                    cx,
                    cy,
                    gx0,
                    y as int,
                ),
        decreases y1 - y,
    {
        let mut x = x0;
        while x < x1
            invariant
                snap_frame(frame),
                0 <= x0 <= x <= x1 <= frame.width,
                0 <= y0 <= y < y1 <= frame.height,
                ww == x1 - x0,
                wh == y1 - y0,
                ww <= INK_W,
                wh <= INK_H,
                n == ww * wh,
                ink@.len() == n,
                gx0 == x0,
                gy0 == y0,
                gx1 == x1,
                gy1 == y1,
                forall|cx: int, cy: int|
                    x0 <= cx < x1 && y0 <= cy < y1 ==> #[trigger] ink@[(cy - y0) * ww + (cx - x0)] == ink_mark_upto(
                        frame,
                        gx0,
                        gy0,
                        gx1,
                        gy1,
                        cx,
                        cy,
                        x as int,
                        y as int,
                    ),
            decreases x1 - x,
        {
            let here = pixel(frame, x, y);
            proof {
                lemma_index_in_grid((x - x0) as int, (y - y0) as int, ww as int, wh as int);
            }
            let a = ((y - y0) as usize) * (ww as usize) + ((x - x0) as usize);
            let ghost start = ink@;
            let right = x + 1 < x1 && dist(here, pixel(frame, x + 1, y)) > EDGE;
            if right {
                proof {
                    lemma_index_in_grid((x + 1 - x0) as int, (y - y0) as int, ww as int, wh as int);
                }
                ink.set(a, true);
                ink.set(a + 1, true);
            }
            let ghost mid = ink@;
            proof {
                assert forall|cx: int, cy: int| x0 <= cx < x1 && y0 <= cy < y1 implies #[trigger] mid[(cy - y0) * ww + (
                cx - x0)] == (start[(cy - y0) * ww + (cx - x0)] || (right && cy == y && (cx == x || cx == x + 1))) by {
                    lemma_index_in_grid(cx - x0, cy - y0, ww as int, wh as int);
                    if right && (cx, cy) != (x as int, y as int) {
                        crate::arith::lemma_index_distinct(cx - x0, cy - y0, x - x0, y - y0, ww as int);
                    }
                    if right && (cx, cy) != (x + 1, y as int) {
                        crate::arith::lemma_index_distinct(cx - x0, cy - y0, x + 1 - x0, y - y0, ww as int);
                    }
                }
            }
            let down = y + 1 < y1 && dist(here, pixel(frame, x, y + 1)) > EDGE;
            if down {
                proof {
                    lemma_index_in_grid((x - x0) as int, (y + 1 - y0) as int, ww as int, wh as int);
                }
                ink.set(a, true);
                ink.set(((y + 1 - y0) as usize) * (ww as usize) + ((x - x0) as usize), true);
            }
            proof {
                assert forall|cx: int, cy: int| x0 <= cx < x1 && y0 <= cy < y1 implies #[trigger] ink@[(cy - y0) * ww
                    + (cx - x0)] == ink_mark_upto(frame, gx0, gy0, gx1, gy1, cx, cy, x + 1, y as int) by {
                    lemma_index_in_grid(cx - x0, cy - y0, ww as int, wh as int);
                    if down && (cx, cy) != (x as int, y as int) {
                        crate::arith::lemma_index_distinct(cx - x0, cy - y0, x - x0, y - y0, ww as int);
                    }
                    if down && (cx, cy) != (x as int, y + 1) {
                        crate::arith::lemma_index_distinct(cx - x0, cy - y0, x - x0, y + 1 - y0, ww as int);
                    }
                    assert(mid[(cy - y0) * ww + (cx - x0)] == (start[(cy - y0) * ww + (cx - x0)] || (right && cy == y
                        && (cx == x || cx == x + 1))));
                    assert(right == edge_right(frame, gx1, x as int, y as int));
                    assert(down == edge_down(frame, gy1, x as int, y as int));
                }
            }
            x = x + 1;
        }
        proof {
            assert forall|cx: int, cy: int| x0 <= cx < x1 && y0 <= cy < y1 implies #[trigger] ink@[(cy - y0) * ww + (cx
                - x0)] == ink_mark_upto(frame, gx0, gy0, gx1, gy1, cx, cy, gx0, y + 1) by {
                assert(ink_mark_upto(frame, gx0, gy0, gx1, gy1, cx, cy, gx1, y as int) == ink_mark_upto(
                    frame,
                    gx0,
                    gy0,
                    gx1,
                    gy1,
                    cx,
                    cy,
                    gx0,
                    y + 1,
                ));
            }
        }
        y = y + 1;
    }
    proof {
        assert forall|cx: int, cy: int| x0 <= cx < x1 && y0 <= cy < y1 implies #[trigger] ink@[(cy - y0) * ww + (cx
            - x0)] == ink_mark(frame, gx0, gy0, gx1, gy1, cx, cy) by {
            assert(ink_mark_upto(frame, gx0, gy0, gx1, gy1, cx, cy, gx0, gy1) == ink_mark(
                frame,
                gx0,
                gy0,
                gx1,
                gy1,
                cx,
                cy,
            ));
        }
    }
    ink
}

/// The window [`ink_candidates`] searches around `(sx, sy)`, as
/// `(x0, y0, x1, y1)`.
pub open spec fn ink_window(frame: &Frame, sx: int, sy: int) -> (int, int, int, int) {
    (
        if sx - INK_W / 2 > 0 {
            sx - INK_W / 2
        } else {
            0
        },
        if sy - INK_H / 2 > 0 {
            sy - INK_H / 2
        } else {
            0
        },
        if sx + INK_W / 2 < frame.width {
            sx + INK_W / 2
        } else {
            frame.width as int
        },
        if sy + INK_H / 2 < frame.height {
            sy + INK_H / 2
        } else {
            frame.height as int
        },
    )
}

/// The marks of the window `win`, row by row.
pub open spec fn ink_seq(frame: &Frame, win: (int, int, int, int)) -> Seq<bool> {
    let ww = win.2 - win.0;
    Seq::new(
        (ww * (win.3 - win.1)) as nat,
        |i: int| ink_mark(frame, win.0, win.1, win.2, win.3, win.0 + i % ww, win.1 + i / ww),
    )
}

/// Window cell `(u, v)` is marked once the short blank runs between marks
/// are bridged, [`H_GAP`] along rows and [`V_GAP`] down columns.
pub open spec fn ink_closed(frame: &Frame, win: (int, int, int, int), u: int, v: int) -> bool {
    let ink = ink_seq(frame, win);
    let ww = win.2 - win.0;
    let wh = win.3 - win.1;
    ink[v * ww + u] || bridged(ink, ww, true, H_GAP as int, v, u, ww) || bridged(ink, ww, false, V_GAP as int, u, v, wh)
}

/// The box offered for a region spanning `b` (window coordinates, inclusive):
/// the region's box less its outline pixel on each side.
pub open spec fn ink_region_rect(win: (int, int, int, int), b: (i32, i32, i32, i32)) -> Rect {
    (
        (win.0 + b.0 + 1) as i32,
        (win.1 + b.1 + 1) as i32,
        (if b.2 - b.0 - 1 > 0 {
            b.2 - b.0 - 1
        } else {
            0
        }) as i32,
        (if b.3 - b.1 - 1 > 0 {
            b.3 - b.1 - 1
        } else {
            0
        }) as i32,
    )
}

/// A region spanning `b` is offered: it did not run into its window's edge
/// where the frame goes on, its box covers at most three fifths of the window
/// and holds `(sx, sy)`.
pub open spec fn ink_region_kept(frame: &Frame, win: (int, int, int, int), sx: int, sy: int, b: (i32, i32, i32, i32)) -> bool {
    let ww = win.2 - win.0;
    let wh = win.3 - win.1;
    let escaped = (b.0 == 0 && win.0 > 0) || (b.1 == 0 && win.1 > 0) || (b.2 == ww - 1 && win.2 < frame.width) || (
    b.3 == wh - 1 && win.3 < frame.height);
    let r = ink_region_rect(win, b);
    !escaped && area_spec(r) <= ww * wh * 3 / 5 && holds_point_spec(r, sx, sy)
}

/// The boxes offered for the regions of `mask` whose first pixel has a raster
/// index below `i`, in raster order of those pixels.
pub open spec fn ink_regions(mask: &Gray, frame: &Frame, win: (int, int, int, int), sx: int, sy: int, i: nat) -> Seq<Rect>
    decreases i,
{
    if i == 0 {
        Seq::empty()
    } else {
        let prev = ink_regions(mask, frame, win, sx, sy, (i - 1) as nat);
        let cx = (i - 1) % (mask.w as int);
        let cy = (i - 1) / (mask.w as int);
        let b = choose|b: (i32, i32, i32, i32)| region_box(mask, cx, cy, b);
        if first_of_component(mask, cx, cy) && ink_region_kept(frame, win, sx, sy, b) {
            prev.push(ink_region_rect(win, b))
        } else {
            prev
        }
    }
}

/// `found` is the boxes offered for the regions of the window's bridged
/// marks, laid out in `g`, sorted by area (raster order among equals).
pub open spec fn ink_found_in(frame: &Frame, sx: int, sy: int, g: Gray, found: Seq<Rect>) -> bool {
    let win = ink_window(frame, sx, sy);
    &&& g.w == win.2 - win.0
    &&& g.h == win.3 - win.1
    &&& g.wf()
    &&& forall|u: int, v: int|
        0 <= u < g.w && 0 <= v < g.h ==> (#[trigger] g.px(u, v) != 0) == ink_closed(frame, win, u, v)
    &&& found == area_sorted(ink_regions(&g, frame, win, sx, sy, (g.w * g.h) as nat))
}

/// `ink` is what [`ink_candidates`] gives for `(sx, sy)`: nothing when its
/// window is under three pixels across or down, else the offered region boxes
/// sorted by area.
pub open spec fn ink_offers(frame: &Frame, sx: int, sy: int, ink: Seq<Rect>) -> bool {
    let win = ink_window(frame, sx, sy);
    if win.2 - win.0 < 3 || win.3 - win.1 < 3 {
        ink.len() == 0
    } else {
        exists|g: Gray| #[trigger] ink_found_in(frame, sx, sy, g, ink)
    }
}

/// Every outlined shape whose box holds `(sx, sy)`, smallest first.
///
/// Touching pixels that differ by more than [`EDGE`] are both marked; blank
/// runs up to [`H_GAP`] across and [`V_GAP`] down are closed; the marks are
/// grouped 8-connected; and each group's box, less the outline pixel on each
/// side, is offered unless the group ran into its window's edge where the frame
/// does not end or covers more than three fifths of the window.
pub fn ink_candidates(frame: &Frame, sx: i32, sy: i32) -> (found: Vec<Rect>)
    requires
        snap_frame(frame),
        0 <= sx < frame.width,
        0 <= sy < frame.height,
    ensures
        forall|k: int| 0 <= k < found@.len() ==> snap_candidate(#[trigger] found@[k], frame, sx as int, sy as int),
        forall|a: int, b: int|
            0 <= a < b < found@.len() ==> area_spec(#[trigger] found@[a]) <= area_spec(#[trigger] found@[b]),
        ink_offers(frame, sx as int, sy as int, found@),
{
    let fw = frame.width as i32;
    let fh = frame.height as i32;
    let x0 = max_i32(sx - INK_W / 2, 0);
    let y0 = max_i32(sy - INK_H / 2, 0);
    let x1 = min_i32(sx + INK_W / 2, fw);
    let y1 = min_i32(sy + INK_H / 2, fh);
    let ww = x1 - x0;
    let wh = y1 - y0;
    let ghost win = ink_window(frame, sx as int, sy as int);
    proof {
        assert(win == (x0 as int, y0 as int, x1 as int, y1 as int));
    }
    if ww < 3 || wh < 3 {
        return Vec::new();
    }
    proof {
        assert(0 <= ww * wh <= 640 * 400) by (nonlinear_arith)
            requires
                0 < ww <= 640,
                0 < wh <= 400,
        ;
    }
    let n: usize = (ww as usize) * (wh as usize);
    let ink = ink_marks(frame, x0, y0, x1, y1);
    let ghost iseq = ink_seq(frame, win);
    proof {
        assert forall|i: int| 0 <= i < n implies #[trigger] ink@[i] == iseq[i] by {
            crate::arith::lemma_grid_coords(i, ww as int, wh as int);
            let x = x0 + i % (ww as int);
            let y = y0 + i / (ww as int);
            assert(ink@[(y - y0) * (x1 - x0) + (x - x0)] == ink_mark(
                frame,
                x0 as int,
                y0 as int,
                x1 as int,
                y1 as int,
                x,
                y,
            ));
        }
        assert(ink@ =~= iseq);
    }
    let mut closed = ink.clone();
    let ghost closed0 = closed@;
    close_runs(&mut closed, &ink, ww, wh, H_GAP, true);
    let ghost closed1 = closed@;
    close_runs(&mut closed, &ink, ww, wh, V_GAP, false);
    let mut data: Vec<u8> = Vec::new();
    let mut i: usize = 0;
    while i < n
        invariant
            n == ww * wh,
            closed@.len() == n,
            data@.len() == i,
            i <= n,
            forall|j: int| 0 <= j < i ==> #[trigger] data@[j] == (if closed@[j] {
                255u8
            } else {
                0u8
            }),
        decreases n - i,
    {
        data.push(if closed[i] {
            255u8
        } else {
            0u8
        });
        i = i + 1;
    }
    let gray = Gray { w: ww as usize, h: wh as usize, data };
    proof {
        assert forall|u: int, v: int| 0 <= u < ww && 0 <= v < wh implies (#[trigger] gray.px(u, v) != 0) == ink_closed(
            frame,
            win,
            u,
            v,
        ) by {
            lemma_index_in_grid(u, v, ww as int, wh as int);
            assert(line_index(ww as int, true, v, u) == v * ww + u);
            assert(line_index(ww as int, false, u, v) == v * ww + u);
            assert(closed1[line_index(ww as int, true, v, u)] == (closed0[line_index(ww as int, true, v, u)] || bridged(
                ink@,
                ww as int,
                true,
                H_GAP as int,
                v,
                u,
                ww as int,
            )));
            assert(closed@[line_index(ww as int, false, u, v)] == (closed1[line_index(ww as int, false, u, v)] || bridged(
                ink@,
                ww as int,
                false,
                V_GAP as int,
                u,
                v,
                wh as int,
            )));
        }
    }
    let cap: i64 = (ww as i64) * (wh as i64) * 3 / 5;
    let mut seen: Vec<bool> = vec![false; n];
    let mut found: Vec<Rect> = Vec::new();
    proof {
        assert forall|qx: int, qy: int| 0 <= qx < ww && 0 <= qy < wh implies #[trigger] flag(seen@, ww as int, qx, qy)
            == covered_before(&gray, 0, qx, qy) by {
            lemma_index_in_grid(qx, qy, ww as int, wh as int);
            if covered_before(&gray, 0, qx, qy) {
                let (ex, ey) = choose|ex: int, ey: int|
                    0 <= ex < gray.w && 0 <= ey < gray.h && ey * gray.w + ex < 0 && #[trigger] conn8(
                        &gray,
                        ex,
                        ey,
                        qx,
                        qy,
                    );
                lemma_index_in_grid(ex, ey, ww as int, wh as int);
            }
        }
        assert forall|x: int, y: int| 0 <= x < gray.w && 0 <= y < gray.h && #[trigger] flag(seen@, gray.w as int, x, y)
            implies ink_px(&gray, x, y) by {
            lemma_index_in_grid(x, y, ww as int, wh as int);
        }
        assert forall|px: int, py: int, qx: int, qy: int|
            #![trigger adjacent8(px, py, qx, qy)]
            0 <= px < gray.w && 0 <= py < gray.h && adjacent8(px, py, qx, qy) && flag(seen@, gray.w as int, px, py)
                && ink_px(&gray, qx, qy) implies flag(seen@, gray.w as int, qx, qy) by {
            lemma_index_in_grid(px, py, ww as int, wh as int);
        }
        assert(flags_whole(&gray, seen@));
    }
    let mut v: i32 = 0;
    while v < wh
        invariant
            snap_frame(frame),
            fw == frame.width,
            fh == frame.height,
            0 <= sx < fw,
            0 <= sy < fh,
            win == (x0 as int, y0 as int, x1 as int, y1 as int),
            0 <= x0 < x1 <= fw,
            0 <= y0 < y1 <= fh,
            ww == x1 - x0,
            wh == y1 - y0,
            3 <= ww <= INK_W,
            3 <= wh <= INK_H,
            n == ww * wh,
            cap == (ww * wh) * 3 / 5,
            gray.wf(),
            gray.w == ww,
            gray.h == wh,
            0 <= v <= wh,
            seen@.len() == n,
            flags_whole(&gray, seen@),
            forall|qx: int, qy: int|
                0 <= qx < ww && 0 <= qy < wh ==> #[trigger] flag(seen@, ww as int, qx, qy) == covered_before(
                    &gray,
                    v * ww,
                    qx,
                    qy,
                ),
            found@ == ink_regions(&gray, frame, win, sx as int, sy as int, (v * ww) as nat),
            forall|k: int| 0 <= k < found@.len() ==> snap_candidate(#[trigger] found@[k], frame, sx as int, sy as int),
        decreases wh - v,
    {
        let mut u: i32 = 0;
        while u < ww
            invariant
                snap_frame(frame),
                fw == frame.width,
                fh == frame.height,
                0 <= sx < fw,
                0 <= sy < fh,
                win == (x0 as int, y0 as int, x1 as int, y1 as int),
                0 <= x0 < x1 <= fw,
                0 <= y0 < y1 <= fh,
                ww == x1 - x0,
                wh == y1 - y0,
                3 <= ww <= INK_W,
                3 <= wh <= INK_H,
                n == ww * wh,
                cap == (ww * wh) * 3 / 5,
                gray.wf(),
                gray.w == ww,
                gray.h == wh,
                0 <= v < wh,
                0 <= u <= ww,
                seen@.len() == n,
                flags_whole(&gray, seen@),
                forall|qx: int, qy: int|
                    0 <= qx < ww && 0 <= qy < wh ==> #[trigger] flag(seen@, ww as int, qx, qy) == covered_before(
                        &gray,
                        v * ww + u,
                        qx,
                        qy,
                    ),
                found@ == ink_regions(&gray, frame, win, sx as int, sy as int, (v * ww + u) as nat),
                forall|k: int| 0 <= k < found@.len() ==> snap_candidate(#[trigger] found@[k], frame, sx as int, sy as int),
            decreases ww - u,
        {
            proof {
                lemma_index_in_grid(u as int, v as int, ww as int, wh as int);
                crate::arith::lemma_grid_index_coords(u as int, v as int, ww as int);
            }
            let a = (v as usize) * (ww as usize) + (u as usize);
            let ghost i = v * ww + u;
            let ghost seen_before = seen@;
            let ghost found_before = found@;
            let ghost first = first_of_component(&gray, u as int, v as int);
            proof {
                assert(first == (ink_px(&gray, u as int, v as int) && !flag(seen@, ww as int, u as int, v as int))) by {
                    if ink_px(&gray, u as int, v as int) && !flag(seen@, ww as int, u as int, v as int) {
                        assert forall|ex: int, ey: int|
                            0 <= ex < gray.w && 0 <= ey < gray.h && ey * gray.w + ex < v * gray.w + u implies !#[trigger] conn8(
                            &gray,
                            ex,
                            ey,
                            u as int,
                            v as int,
                        ) by {}
                    }
                    if first {
                        if flag(seen@, ww as int, u as int, v as int) {
                            let (ex, ey) = choose|ex: int, ey: int|
                                0 <= ex < gray.w && 0 <= ey < gray.h && ey * gray.w + ex < i && #[trigger] conn8(
                                    &gray,
                                    ex,
                                    ey,
                                    u as int,
                                    v as int,
                                );
                        }
                    }
                }
            }
            if gray.data[a] != 0 && !seen[a] {
                let b = region_box_of(&gray, &mut seen, u, v);
                let bx0 = x0 + b.0;
                let by0 = y0 + b.1;
                let bx1 = x0 + b.2;
                let by1 = y0 + b.3;
                let escaped = (bx0 == x0 && x0 > 0) || (by0 == y0 && y0 > 0) || (bx1 == x1 - 1 && x1 < fw) || (by1
                    == y1 - 1 && y1 < fh);
                let rect = (bx0 + 1, by0 + 1, max_i32(bx1 - bx0 - 1, 0), max_i32(by1 - by0 - 1, 0));
                proof {
                    let c = choose|c: (i32, i32, i32, i32)| region_box(&gray, u as int, v as int, c);
                    lemma_region_box_unique(&gray, u as int, v as int, b, c);
                    assert(rect == ink_region_rect(win, b));
                }
                if !escaped && area(rect) <= cap && holds_point(rect, sx, sy) {
                    found.push(rect);
                }
                proof {
                    assert(found@ == ink_regions(&gray, frame, win, sx as int, sy as int, (i + 1) as nat));
                    assert forall|qx: int, qy: int| 0 <= qx < ww && 0 <= qy < wh implies #[trigger] flag(
                        seen@,
                        ww as int,
                        qx,
                        qy,
                    ) == covered_before(&gray, i + 1, qx, qy) by {
                        assert(flag(seen@, ww as int, qx, qy) == (flag(seen_before, ww as int, qx, qy) || conn8(
                            &gray,
                            u as int,
                            v as int,
                            qx,
                            qy,
                        )));
                        if covered_before(&gray, i + 1, qx, qy) && !covered_before(&gray, i, qx, qy) {
                            let (ex, ey) = choose|ex: int, ey: int|
                                0 <= ex < gray.w && 0 <= ey < gray.h && ey * gray.w + ex < i + 1 && #[trigger] conn8(
                                    &gray,
                                    ex,
                                    ey,
                                    qx,
                                    qy,
                                );
                            if (ex, ey) != (u as int, v as int) {
                                crate::arith::lemma_index_distinct(ex, ey, u as int, v as int, ww as int);
                            }
                        }
                        if conn8(&gray, u as int, v as int, qx, qy) {
                            assert(covered_before(&gray, i + 1, qx, qy));
                        }
                    }
                }
            } else {
                proof {
                    assert(found@ == ink_regions(&gray, frame, win, sx as int, sy as int, (i + 1) as nat));
                    assert forall|qx: int, qy: int| 0 <= qx < ww && 0 <= qy < wh implies #[trigger] flag(
                        seen@,
                        ww as int,
                        qx,
                        qy,
                    ) == covered_before(&gray, i + 1, qx, qy) by {
                        if covered_before(&gray, i + 1, qx, qy) && !covered_before(&gray, i, qx, qy) {
                            let (ex, ey) = choose|ex: int, ey: int|
                                0 <= ex < gray.w && 0 <= ey < gray.h && ey * gray.w + ex < i + 1 && #[trigger] conn8(
                                    &gray,
                                    ex,
                                    ey,
                                    qx,
                                    qy,
                                );
                            if (ex, ey) != (u as int, v as int) {
                                crate::arith::lemma_index_distinct(ex, ey, u as int, v as int, ww as int);
                            } else {
                                let k = choose|k: nat| reach8(&gray, u as int, v as int, qx, qy, k);
                                lemma_reach8_start(&gray, u as int, v as int, qx, qy, k);
                                let (fx, fy) = choose|fx: int, fy: int|
                                    0 <= fx < gray.w && 0 <= fy < gray.h && fy * gray.w + fx < i && #[trigger] conn8(
                                        &gray,
                                        fx,
                                        fy,
                                        u as int,
                                        v as int,
                                    );
                                lemma_conn8_sym_trans(&gray, fx, fy, u as int, v as int, qx, qy);
                            }
                        }
                    }
                }
            }
            u = u + 1;
        }
        proof {
            assert(v * ww + ww == (v + 1) * ww) by (nonlinear_arith);
        }
        v = v + 1;
    }
    let ghost unsorted = found@;
    proof {
        assert(v * ww == n) by (nonlinear_arith)
            requires
                v == wh,
                n == ww * wh,
        ;
        assert(unsorted == ink_regions(&gray, frame, win, sx as int, sy as int, (gray.w * gray.h) as nat));
    }
    sort_by_area(&mut found);
    proof {
        assert forall|k: int| 0 <= k < found@.len() implies snap_candidate(#[trigger] found@[k], frame, sx as int, sy as int) by {
            assert(unsorted.contains(found@[k]));
        }
        assert(ink_found_in(frame, sx as int, sy as int, gray, found@));
    }
    found
}

/// At least 85% of `b`'s perimeter sits on real edges.
pub open spec fn border_strong(frame: &Frame, b: Rect) -> bool {
    (upright_hits(frame, b, b.1 + b.3) + level_hits(frame, b, b.0 + b.2)) * 20 >= 2 * (b.2 + b.3) * 17
}

/// `b` is too small to offer: under [`MIN_SIDE`] on a side.
pub open spec fn too_small(b: Rect) -> bool {
    b.2 < MIN_SIDE || b.3 < MIN_SIDE
}

/// `b` is offered for `(x, y)` by the grow, by the surface the grown box sits
/// on, or by the ruled-line walk.
pub open spec fn offered_direct(frame: &Frame, x: int, y: int, b: Rect) -> bool {
    ||| grow_spec(frame, x, y) == Some(b)
    ||| (grow_spec(frame, x, y) matches Some(g) && enclosing_upto(frame, g, 4) == Some(b))
    ||| ruled_spec(frame, x, y) == Some(b)
}

/// The perimeter pixels of `b` that sit on a real edge ([`border_support`]).
pub open spec fn border_hits(frame: &Frame, b: Rect) -> int {
    upright_hits(frame, b, b.1 + b.3) + level_hits(frame, b, b.0 + b.2)
}

/// The perimeter pixels of `b` that [`border_support`] weighs.
pub open spec fn border_total(b: Rect) -> int {
    2 * (b.2 + b.3)
}

/// `c` is offered for `(x, y)`, by one of the methods or among `ink`, and is
/// large enough.
pub open spec fn snap_cand(frame: &Frame, x: int, y: int, ink: Seq<Rect>, c: Rect) -> bool {
    (offered_direct(frame, x, y, c) || ink.contains(c)) && !too_small(c)
}

/// `r` is what [`snap_at`] picks among the offered boxes when the grow alone
/// did not settle it: nothing when nothing is offered; else, when some
/// offered box is control-sized, the control-sized one whose perimeter is
/// bordered most strongly, the first by [`key_less`] of equals; else the last
/// offered box by [`key_less`], a largest one.
pub open spec fn snap_pick(frame: &Frame, x: int, y: int, ink: Seq<Rect>, r: Option<Rect>) -> bool {
    &&& r matches Some(b) ==> snap_cand(frame, x, y, ink, b)
    &&& r is None <==> forall|c: Rect| !#[trigger] snap_cand(frame, x, y, ink, c)
    &&& (exists|c: Rect| #[trigger] snap_cand(frame, x, y, ink, c) && is_control_spec(c)) ==> (r matches Some(b)
        && is_control_spec(b) && forall|c: Rect|
        #[trigger] snap_cand(frame, x, y, ink, c) && is_control_spec(c) ==> border_hits(frame, c) * border_total(b)
            <= border_hits(frame, b) * border_total(c) && (border_hits(frame, c) * border_total(b) == border_hits(
            frame,
            b,
        ) * border_total(c) ==> c == b || key_less(b, c)))
    &&& !(exists|c: Rect| #[trigger] snap_cand(frame, x, y, ink, c) && is_control_spec(c)) ==> (r matches Some(b)
        ==> forall|c: Rect| #[trigger] snap_cand(frame, x, y, ink, c) ==> c == b || key_less(c, b))
}

/// The grow alone settles [`snap_at`]: its box is control-sized and at least
/// 85% bordered.
pub open spec fn snap_settled(frame: &Frame, x: int, y: int) -> bool {
    grow_spec(frame, x, y) matches Some(g) && is_control_spec(g) && border_strong(frame, g)
}

proof fn lemma_ratio_trans(a: int, b: int, c: int, d: int, e: int, f: int)
    requires
        b > 0,
        d > 0,
        f > 0,
        a * d <= c * b,
        c * f < e * d,
    ensures
        a * f < e * b,
{
    assert(a * d * f <= c * b * f) by (nonlinear_arith)
        requires
            a * d <= c * b,
            f > 0,
    ;
    assert(c * f * b < e * d * b) by (nonlinear_arith)
        requires
            c * f < e * d,
            b > 0,
    ;
    assert(a * f * d < e * b * d) by (nonlinear_arith)
        requires
            a * d * f <= c * b * f,
            c * f * b < e * d * b,
    ;
    assert(a * f < e * b) by (nonlinear_arith)
        requires
            a * f * d < e * b * d,
            d > 0,
    ;
}

/// What [`snap_at`] gives for `(x, y)`: nothing off the frame; the grown box
/// when the grow alone settles it; otherwise [`snap_pick`] over the offered
/// boxes. Every box given is an offered candidate at least [`MIN_SIDE`] on
/// each side.
pub open spec fn snap_outcome(frame: &Frame, x: int, y: int, r: Option<Rect>) -> bool {
    &&& r matches Some(b) ==> snap_candidate(b, frame, x, y) && b.2 >= MIN_SIDE && b.3 >= MIN_SIDE
    &&& !(0 <= x < frame.width && 0 <= y < frame.height) ==> r is None
    &&& grow_spec(frame, x, y) matches Some(b) ==> (is_control_spec(b) && border_strong(frame, b) ==> r == Some(b))
    &&& r matches Some(b) ==> offered_direct(frame, x, y, b) || exists|ink: Seq<Rect>|
        #[trigger] ink_offers(frame, x, y, ink) && ink.contains(b)
    &&& (0 <= x < frame.width && 0 <= y < frame.height && !snap_settled(frame, x, y)) ==> exists|ink: Seq<Rect>|
        #[trigger] ink_offers(frame, x, y, ink) && snap_pick(frame, x, y, ink, r)
}

/// The element under `(x, y)`, or `None` when nothing there reads as one.
///
/// A grow that came back control-sized with at least 85% of its perimeter on
/// real edges is returned at once. Otherwise every method's box at least
/// [`MIN_SIDE`] on each side is pooled, ordered by area (then by position),
/// and the control-sized box with the most strongly bordered perimeter wins,
/// the first of equals; failing any control-sized box, the largest box.
pub fn snap_at(frame: &Frame, x: i32, y: i32) -> (r: Option<Rect>)
    requires
        snap_frame(frame),
    ensures
        r matches Some(b) ==> snap_candidate(b, frame, x as int, y as int) && b.2 >= MIN_SIDE && b.3
            >= MIN_SIDE,
        !(0 <= x < frame.width && 0 <= y < frame.height) ==> r is None,
        grow_spec(frame, x as int, y as int) matches Some(b) ==> (is_control_spec(b) && border_strong(frame, b)
            ==> r == Some(b)),
        r matches Some(b) ==> offered_direct(frame, x as int, y as int, b) || exists|ink: Seq<Rect>|
            #[trigger] ink_offers(frame, x as int, y as int, ink) && ink.contains(b),
        (0 <= x < frame.width && 0 <= y < frame.height && !snap_settled(frame, x as int, y as int)) ==> exists|
            ink: Seq<Rect>,
        | #[trigger] ink_offers(frame, x as int, y as int, ink) && snap_pick(frame, x as int, y as int, ink, r),
        snap_outcome(frame, x as int, y as int, r),
{
    let fw = frame.width as i32;
    let fh = frame.height as i32;
    if x < 0 || y < 0 || x >= fw || y >= fh {
        return None;
    }
    let base = grow(frame, x, y);
    if let Some(sure) = base {
        if is_control(sure) {
            let (hits, total) = border_support(frame, sure);
            if total > 0 && hits * 20 >= total * 17 {
                return Some(sure);
            }
        }
    }
    let mut pool = ink_candidates(frame, x, y);
    let ghost inkv = pool@;
    if let Some(b) = base {
        pool.push(b);
        if let Some(e) = enclosing(frame, b) {
            proof {
                assert(holds_point_spec(e, x as int, y as int));
            }
            pool.push(e);
        }
    }
    if let Some(rl) = ruled(frame, x, y) {
        pool.push(rl);
    }
    proof {
        assert forall|m: int| 0 <= m < pool@.len() implies (m < inkv.len() && #[trigger] pool@[m] == inkv[m])
            || offered_direct(frame, x as int, y as int, pool@[m]) by {}
    }
    let mut kept: Vec<Rect> = Vec::new();
    let mut k: usize = 0;
    while k < pool.len()
        invariant
            forall|m: int| 0 <= m < pool@.len() ==> snap_candidate(#[trigger] pool@[m], frame, x as int, y as int),
            forall|m: int|
                0 <= m < kept@.len() ==> snap_candidate(#[trigger] kept@[m], frame, x as int, y as int)
                    && kept@[m].2 >= MIN_SIDE && kept@[m].3 >= MIN_SIDE && pool@.contains(kept@[m]),
            forall|m: int| 0 <= m < k && !too_small(#[trigger] pool@[m]) ==> kept@.contains(pool@[m]),
            k <= pool@.len(),
        decreases pool@.len() - k,
    {
        let r = pool[k];
        let ghost kept_before = kept@;
        if r.2 >= MIN_SIDE && r.3 >= MIN_SIDE {
            proof {
                assert(pool@.contains(r));
            }
            kept.push(r);
            proof {
                assert(kept@[kept@.len() - 1] == r);
                assert forall|m: int| 0 <= m < k && !too_small(#[trigger] pool@[m]) implies kept@.contains(pool@[m]) by {
                    let q = choose|q: int| 0 <= q < kept_before.len() && kept_before[q] == pool@[m];
                    assert(kept@[q] == pool@[m]);
                }
            }
        }
        k = k + 1;
    }
    let mut ordered = sort_dedup(&kept);
    let ghost before_sort = ordered@;
    sort_by_area(&mut ordered);
    proof {
        lemma_area_sorted_keyed(before_sort);
        assert forall|m: int| 0 <= m < ordered@.len() implies snap_candidate(#[trigger] ordered@[m], frame, x as int, y as int)
            && ordered@[m].2 >= MIN_SIDE && ordered@[m].3 >= MIN_SIDE && pool@.contains(ordered@[m]) by {
            assert(before_sort.contains(ordered@[m]));
            let i = choose|i: int| 0 <= i < before_sort.len() && before_sort[i] == ordered@[m];
            assert(kept@.contains(before_sort[i]));
        }
        assert forall|q: Rect| pool@.contains(q) implies inkv.contains(q) || offered_direct(frame, x as int, y as int, q) by {
            let m = choose|m: int| 0 <= m < pool@.len() && pool@[m] == q;
            if m < inkv.len() && pool@[m] == inkv[m] {
                assert(inkv.contains(q));
            }
        }
        assert forall|c: Rect| #[trigger] snap_cand(frame, x as int, y as int, inkv, c) == ordered@.contains(c) by {
            if snap_cand(frame, x as int, y as int, inkv, c) {
                if inkv.contains(c) {
                    let m = choose|m: int| 0 <= m < inkv.len() && inkv[m] == c;
                    assert(pool@[m] == c);
                } else if grow_spec(frame, x as int, y as int) == Some(c) {
                    assert(pool@[inkv.len() as int] == c);
                } else if grow_spec(frame, x as int, y as int) matches Some(g) && enclosing_upto(frame, g, 4) == Some(c) {
                    assert(pool@[inkv.len() as int + 1] == c);
                } else {
                    assert(pool@[pool@.len() - 1] == c);
                }
                assert(pool@.contains(c));
                let m = choose|m: int| 0 <= m < pool@.len() && pool@[m] == c;
                assert(kept@.contains(pool@[m]));
                let t = choose|t: int| 0 <= t < kept@.len() && kept@[t] == c;
                assert(before_sort.contains(kept@[t]));
                assert(before_sort.to_multiset().count(c) > 0) by {
                    broadcast use vstd::seq_lib::group_to_multiset_ensures;
                }
                assert(ordered@.contains(c)) by {
                    broadcast use vstd::seq_lib::group_to_multiset_ensures;
                }
            }
            if ordered@.contains(c) {
                let m = choose|m: int| 0 <= m < ordered@.len() && ordered@[m] == c;
                assert(pool@.contains(ordered@[m]));
            }
        }
    }
    let mut best: Option<(Rect, i64, i64)> = None;
    let ghost mut bi: int = 0;
    let mut k: usize = 0;
    while k < ordered.len()
        invariant
            forall|a: int, b: int|
                0 <= a < b < ordered@.len() ==> key_less(#[trigger] ordered@[a], #[trigger] ordered@[b]),
            best matches Some(bb) ==> 0 <= bi < k && ordered@[bi] == bb.0,
            forall|m: int|
                0 <= m < bi && m < k && is_control_spec(#[trigger] ordered@[m]) ==> (best matches Some(bb)
                    && border_hits(frame, ordered@[m]) * bb.2 < bb.1 * border_total(ordered@[m])),
            snap_frame(frame),
            forall|m: int|
                0 <= m < ordered@.len() ==> snap_candidate(#[trigger] ordered@[m], frame, x as int, y as int)
                    && ordered@[m].2 >= MIN_SIDE && ordered@[m].3 >= MIN_SIDE && pool@.contains(ordered@[m]),
            best matches Some(b) ==> snap_candidate(b.0, frame, x as int, y as int) && b.0.2 >= MIN_SIDE
                && b.0.3 >= MIN_SIDE && 0 <= b.1 <= b.2 <= 0x4_0000_0000 && pool@.contains(b.0)
                && ordered@.contains(b.0) && is_control_spec(b.0) && b.1 == border_hits(frame, b.0) && b.2
                == border_total(b.0),
            forall|m: int|
                0 <= m < k && is_control_spec(#[trigger] ordered@[m]) ==> (best matches Some(bb) && border_hits(
                    frame,
                    ordered@[m],
                ) * bb.2 <= bb.1 * border_total(ordered@[m])),
            k <= ordered@.len(),
        decreases ordered@.len() - k,
    {
        let r = ordered[k];
        let ghost best_before = best;
        if is_control(r) {
            let (h, t) = border_support(frame, r);
            let better = match best {
                None => true,
                Some((_, bh, bt)) => ratio_less(bh, bt, h, t),
            };
            if better {
                best = Some((r, h, t));
                proof {
                    bi = k as int;
                    assert forall|m: int|
                        0 <= m < bi && m < k + 1 && is_control_spec(#[trigger] ordered@[m]) implies (best matches Some(
                        bb,
                    ) && border_hits(frame, ordered@[m]) * bb.2 < bb.1 * border_total(ordered@[m])) by {
                        let bb = best_before->0;
                        lemma_ratio_trans(
                            border_hits(frame, ordered@[m]),
                            border_total(ordered@[m]),
                            bb.1 as int,
                            bb.2 as int,
                            h as int,
                            t as int,
                        );
                    }
                    assert(ordered@.contains(ordered@[k as int]));
                    assert forall|m: int|
                        0 <= m < k + 1 && is_control_spec(#[trigger] ordered@[m]) implies (best matches Some(bb)
                        && border_hits(frame, ordered@[m]) * bb.2 <= bb.1 * border_total(ordered@[m])) by {
                        if m < k {
                            let bb = best_before->0;
                            lemma_ratio_trans(
                                border_hits(frame, ordered@[m]),
                                border_total(ordered@[m]),
                                bb.1 as int,
                                bb.2 as int,
                                h as int,
                                t as int,
                            );
                        }
                    }
                }
            }
        }
        k = k + 1;
    }
    proof {
        assert forall|c: Rect| #[trigger] snap_cand(frame, x as int, y as int, inkv, c) && is_control_spec(c) implies (
        best matches Some(bb) && border_hits(frame, c) * bb.2 <= bb.1 * border_total(c) && (border_hits(frame, c)
            * bb.2 == bb.1 * border_total(c) ==> c == bb.0 || key_less(bb.0, c))) by {
            let m = choose|m: int| 0 <= m < ordered@.len() && ordered@[m] == c;
            if m > bi {
                assert(key_less(ordered@[bi], ordered@[m]));
            }
        }
        if best is None && ordered@.len() > 0 {
            let last = ordered@[ordered@.len() - 1];
            assert(snap_cand(frame, x as int, y as int, inkv, last));
            assert forall|c: Rect| #[trigger] snap_cand(frame, x as int, y as int, inkv, c) implies c == last
                || key_less(c, last) by {
                let m = choose|m: int| 0 <= m < ordered@.len() && ordered@[m] == c;
                if m < ordered@.len() - 1 {
                    assert(key_less(ordered@[m], ordered@[ordered@.len() - 1]));
                }
            }
        }
        if ordered@.len() == 0 {
            assert forall|c: Rect| !#[trigger] snap_cand(frame, x as int, y as int, inkv, c) by {}
        }
        if best is Some {
            let chosen = best->0;
            assert(snap_cand(frame, x as int, y as int, inkv, chosen.0));
        }
    }
    match best {
        Some((r, _, _)) => Some(r),
        None => {
            if ordered.len() > 0 {
                Some(ordered[ordered.len() - 1])
            } else {
                None
            }
        },
    }
}

/// The outline a picker shows under the cursor, held across mouse moves so it
/// does not twitch while the cursor stays on the same control.
pub struct Hover {
    shown: Option<Rect>,
    seed: (i32, i32, i32),
}

impl View for Hover {
    type V = Option<Rect>;

    /// The outline currently shown.
    closed spec fn view(&self) -> Option<Rect> {
        self.shown
    }
}

impl Default for Hover {
    fn default() -> (h: Hover)
        ensures
            h@ is None,
            h.wf(),
    {
        Hover { shown: None, seed: (0, 0, 0) }
    }
}

impl Hover {
    /// The remembered seed colour is a real colour.
    pub closed spec fn wf(&self) -> bool {
        0 <= self.seed.0 <= 255 && 0 <= self.seed.1 <= 255 && 0 <= self.seed.2 <= 255
    }

    /// Whether the shown outline still answers for `(x, y)`: the point is in
    /// the outlined box, on the frame, and within [`GLOBAL`] of the colour the
    /// outline was grown from.
    pub closed spec fn holds_spec(&self, frame: &Frame, x: int, y: int) -> bool {
        match self.shown {
            None => false,
            Some(r) => holds_point_spec(r, x, y) && 0 <= x < frame.width && 0 <= y < frame.height
                && dist_spec(pixel_spec(frame, x, y), self.seed) <= GLOBAL,
        }
    }

    fn holds(&self, frame: &Frame, x: i32, y: i32) -> (b: bool)
        requires
            self.wf(),
            snap_frame(frame),
        ensures
            b == self.holds_spec(frame, x as int, y as int),
    {
        match self.shown {
            None => false,
            Some(r) => {
                holds_point(r, x, y) && x >= 0 && y >= 0 && x < frame.width as i32 && y
                    < frame.height as i32 && dist(pixel(frame, x, y), self.seed) <= GLOBAL
            },
        }
    }

    /// Re-aim at `(x, y)`; `true` when the outline changed and the overlay owes
    /// the user a repaint. An outline that still answers for the point is kept.
    pub fn aim(&mut self, frame: &Frame, x: i32, y: i32) -> (changed: bool)
        requires
            old(self).wf(),
            snap_frame(frame),
        ensures
            final(self).wf(),
            old(self).holds_spec(frame, x as int, y as int) ==> !changed && final(self)@ == old(self)@,
            !old(self).holds_spec(frame, x as int, y as int) ==> changed == (final(self)@ != old(self)@),
            !old(self).holds_spec(frame, x as int, y as int) ==> snap_outcome(frame, x as int, y as int, final(self)@),
            !old(self).holds_spec(frame, x as int, y as int) && final(self)@ is Some ==> final(self).holds_spec(
                frame,
                x as int,
                y as int,
            ),
            final(self)@ matches Some(b) ==> old(self)@ == Some(b) || (snap_candidate(
                b,
                frame,
                x as int,
                y as int,
            ) && b.2 >= MIN_SIDE && b.3 >= MIN_SIDE),
    {
        if self.holds(frame, x, y) {
            return false;
        }
        let next = snap_at(frame, x, y);
        if next.is_some() {
            self.seed = pixel(frame, x, y);
        }
        let changed = match (next, self.shown) {
            (None, None) => false,
            (Some(a), Some(b)) => !(a.0 == b.0 && a.1 == b.1 && a.2 == b.2 && a.3 == b.3),
            _ => true,
        };
        self.shown = next;
        changed
    }

    /// The outline currently shown.
    pub fn rect(&self) -> (r: Option<Rect>)
        ensures
            r == self@,
    {
        self.shown
    }

    /// Drop the outline; `true` when there was one to drop.
    pub fn clear(&mut self) -> (had: bool)
        requires
            old(self).wf(),
        ensures
            had == old(self)@ is Some,
            final(self)@ is None,
            final(self).wf(),
    {
        let had = self.shown.is_some();
        self.shown = None;
        had
    }
}

} // verus!
