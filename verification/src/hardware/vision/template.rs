//! The content mask a template is matched under, and what a correlation
//! costs.

use vstd::prelude::*;
use crate::hardware::vision::image::{
    count_nonzero_seq, dilate_ellipse5, filled, flood_fill, morph_close_ellipse5, passes, Gray,
};

use crate::hardware::vision::canny::{canny, hysteresis_edge};
use crate::hardware::vision::gpu_corr::saturating_mul;

verus! {

/// A native-resolution confirmation over the whole search area is only run
/// below this much correlation work.
pub const FULL_NATIVE_BUDGET: u64 = 2_000_000_000;

/// `v`, or 0 when it is negative.
pub open spec fn non_negative(v: int) -> int {
    if v > 0 {
        v
    } else {
        0
    }
}

/// `a * b`, or `u64::MAX` when that does not fit.
pub open spec fn saturating_product(a: int, b: int) -> int {
    if a * b > u64::MAX {
        u64::MAX as int
    } else {
        a * b
    }
}

/// The pixel products a correlation of a `tw` by `th` template over a `sw`
/// by `sh` search area costs: the output positions times the template area,
/// the latter products saturating.
pub fn work(sw: i64, sh: i64, tw: i64, th: i64) -> (r: u64)
    requires
        i64::MIN <= sw - tw,
        sw - tw + 1 <= i64::MAX,
        i64::MIN <= sh - th,
        sh - th + 1 <= i64::MAX,
        non_negative(sw - tw + 1) * non_negative(sh - th + 1) <= u64::MAX,
    ensures
        r == saturating_product(
            non_negative(sw - tw + 1) * non_negative(sh - th + 1),
            saturating_product(non_negative(tw as int), non_negative(th as int)),
        ),
{
    let dx = sw - tw + 1;
    let dy = sh - th + 1;
    let cols: u64 = if dx > 0 {
        dx as u64
    } else {
        0
    };
    let rows: u64 = if dy > 0 {
        dy as u64
    } else {
        0
    };
    let positions = cols * rows;
    let tw0: u64 = if tw > 0 {
        tw as u64
    } else {
        0
    };
    let th0: u64 = if th > 0 {
        th as u64
    } else {
        0
    };
    saturating_mul(positions, saturating_mul(tw0, th0))
}

/// A fill with 128 from `(x, y)` when that pixel is 0; otherwise nothing.
pub open spec fn fill_if_clear(s: Seq<u8>, w: int, h: int, x: int, y: int) -> Seq<u8> {
    if s[y * w + x] == 0 {
        filled(s, w, h, x, y, 128)
    } else {
        s
    }
}

/// The fills from the top and then the bottom of column `x`.
pub open spec fn fill_column(s: Seq<u8>, w: int, h: int, x: int) -> Seq<u8> {
    fill_if_clear(fill_if_clear(s, w, h, x, 0), w, h, x, h - 1)
}

/// The fills from the left and then the right end of row `y`.
pub open spec fn fill_row(s: Seq<u8>, w: int, h: int, y: int) -> Seq<u8> {
    fill_if_clear(fill_if_clear(s, w, h, 0, y), w, h, w - 1, y)
}

/// The column fills at `x`, `x + step`, ... below `w`, in order.
pub open spec fn column_fills(s: Seq<u8>, w: int, h: int, step: int, x: int) -> Seq<u8>
    decreases (if x < w {
        w - x
    } else {
        0
    }),
{
    if x >= w || step < 1 {
        s
    } else {
        column_fills(fill_column(s, w, h, x), w, h, step, x + step)
    }
}

/// The row fills at `y`, `y + step`, ... below `h`, in order.
pub open spec fn row_fills(s: Seq<u8>, w: int, h: int, step: int, y: int) -> Seq<u8>
    decreases (if y < h {
        h - y
    } else {
        0
    }),
{
    if y >= h || step < 1 {
        s
    } else {
        row_fills(fill_row(s, w, h, y), w, h, step, y + step)
    }
}

/// The spacing of the border seeds along a side of `n` pixels: a twentieth
/// of it, at least one.
pub open spec fn border_step(n: int) -> int {
    if n / 20 > 1 {
        n / 20
    } else {
        1
    }
}

/// The edges dilated twice with the 5x5 ellipse, then flooded with 128 from
/// the border seeds: columns first, then rows.
pub open spec fn background_fill(e: Seq<u8>, w: int, h: int) -> Seq<u8> {
    let d = passes(w, h, e, true, true, 2);
    row_fills(column_fills(d, w, h, border_step(w), 0), w, h, border_step(h), 0)
}

/// 255 where the flood left a 0, 0 everywhere else.
pub open spec fn unflooded(f: Seq<u8>) -> Seq<u8> {
    Seq::new(
        f.len(),
        |i: int|
            if f[i] == 0 {
                255u8
            } else {
                0u8
            },
    )
}

/// The content mask of `w` by `h` edges `e`: what the border flood did not
/// reach, closed twice with the 5x5 ellipse; none when the image is empty
/// or the mask covers under 5% or over 95% of it.
pub open spec fn auto_mask_spec(e: Seq<u8>, w: int, h: int) -> Option<Seq<u8>> {
    if w == 0 || h == 0 {
        None
    } else {
        let m = passes(w, h, passes(w, h, unflooded(background_fill(e, w, h)), true, true, 2), false, true, 2);
        let nz = count_nonzero_seq(m);
        if 20 * nz < w * h || 20 * nz > 19 * (w * h) {
            None
        } else {
            Some(m)
        }
    }
}

/// Derive a content mask from a template's edges (see [`auto_mask_spec`]):
/// dilate them, flood-fill from points along the border (every twentieth of
/// each side) to mark the background, keep what the fill did not reach and
/// close its holes.
pub fn auto_mask(edges: &Gray) -> (r: Option<Gray>)
    requires
        edges.wf(),
    ensures
        match auto_mask_spec(edges.data@, edges.w as int, edges.h as int) {
            None => r is None,
            Some(m) => r matches Some(g) && g.w == edges.w && g.h == edges.h && g.wf() && g.data@ == m,
        },
{
    let w = edges.w;
    let h = edges.h;
    if w == 0 || h == 0 {
        return None;
    }
    let mut flood = dilate_ellipse5(edges, 2);
    let ghost dilated = flood.data@;
    let step_x = if w / 20 > 1 {
        w / 20
    } else {
        1
    };
    let mut x: usize = 0;
    while x < w
        invariant_except_break
            column_fills(flood.data@, w as int, h as int, step_x as int, x as int) == column_fills(
                dilated,
                w as int,
                h as int,
                step_x as int,
                0,
            ),
        invariant
            flood.wf(),
            flood.w == w,
            flood.h == h,
            h >= 1,
            w >= 1,
            step_x == border_step(w as int),
            step_x >= 1,
        ensures
            flood.data@ == column_fills(dilated, w as int, h as int, step_x as int, 0),
        decreases w - x,
    {
        let ghost start = flood.data@;
        if flood.at(x, 0) == 0 {
            flood_fill(&mut flood, (x, 0), 128);
        }
        let ghost top = flood.data@;
        proof {
            assert(top == fill_if_clear(start, w as int, h as int, x as int, 0));
        }
        if flood.at(x, h - 1) == 0 {
            flood_fill(&mut flood, (x, h - 1), 128);
        }
        proof {
            assert(flood.data@ == fill_column(start, w as int, h as int, x as int));
            assert(column_fills(start, w as int, h as int, step_x as int, x as int) == column_fills(
                flood.data@,
                w as int,
                h as int,
                step_x as int,
                x + step_x,
            ));
        }
        if w - x <= step_x {
            proof {
                assert(column_fills(flood.data@, w as int, h as int, step_x as int, x + step_x)
                    == flood.data@);
            }
            break;
        }
        x = x + step_x;
    }
    let ghost columns = flood.data@;
    proof {
        assert(columns == column_fills(dilated, w as int, h as int, step_x as int, 0));
    }
    let step_y = if h / 20 > 1 {
        h / 20
    } else {
        1
    };
    let mut y: usize = 0;
    while y < h
        invariant_except_break
            row_fills(flood.data@, w as int, h as int, step_y as int, y as int) == row_fills(
                columns,
                w as int,
                h as int,
                step_y as int,
                0,
            ),
        invariant
            flood.wf(),
            flood.w == w,
            flood.h == h,
            w >= 1,
            h >= 1,
            step_y == border_step(h as int),
            step_y >= 1,
        ensures
            flood.data@ == row_fills(columns, w as int, h as int, step_y as int, 0),
        decreases h - y,
    {
        let ghost start = flood.data@;
        if flood.at(0, y) == 0 {
            flood_fill(&mut flood, (0, y), 128);
        }
        let ghost left = flood.data@;
        proof {
            assert(left == fill_if_clear(start, w as int, h as int, 0, y as int));
        }
        if flood.at(w - 1, y) == 0 {
            flood_fill(&mut flood, (w - 1, y), 128);
        }
        proof {
            assert(flood.data@ == fill_row(start, w as int, h as int, y as int));
            assert(row_fills(start, w as int, h as int, step_y as int, y as int) == row_fills(
                flood.data@,
                w as int,
                h as int,
                step_y as int,
                y + step_y,
            ));
        }
        if h - y <= step_y {
            proof {
                assert(row_fills(flood.data@, w as int, h as int, step_y as int, y + step_y)
                    == flood.data@);
            }
            break;
        }
        y = y + step_y;
    }
    proof {
        assert(flood.data@ == background_fill(edges.data@, w as int, h as int));
    }
    let n = flood.data.len();
    let mut content: Vec<u8> = Vec::new();
    let mut i: usize = 0;
    while i < n
        invariant
            n == flood.data@.len(),
            i <= n,
            content@.len() == i,
            forall|j: int| 0 <= j < i ==> #[trigger] content@[j] == unflooded(flood.data@)[j],
        decreases n - i,
    {
        content.push(
            if flood.data[i] == 0 {
                255
            } else {
                0
            },
        );
        i = i + 1;
    }
    proof {
        assert(content@ =~= unflooded(flood.data@));
    }
    let mask = morph_close_ellipse5(&Gray::from_vec(w, h, content), 2);
    let nz = mask.count_nonzero() as u128;
    let total = (w as u128) * (h as u128);
    if 20 * nz < total || 20 * nz > 19 * total {
        return None;
    }
    Some(mask)
}

// ── Windows and clusters ────────────────────────────────────────────────────

/// Slack around the last known position for the first, local search.
pub const TEMPORAL_PAD: i64 = 60;

/// The window of a `w` by `h` target centred at `(cx, cy)` in a `sw` by `sh`
/// search area, widened by `pad_x` and `pad_y` and clipped to the area, as
/// `[x1, y1, x2, y2]`; `None` when the clipped window no longer holds the
/// target.
pub open spec fn padded_window_spec(
    cx: int,
    cy: int,
    w: int,
    h: int,
    pad_x: int,
    pad_y: int,
    sw: int,
    sh: int,
) -> Option<(int, int, int, int)> {
    let x1 = non_negative(cx - w / 2 - pad_x);
    let y1 = non_negative(cy - h / 2 - pad_y);
    let x2 = if cx + w / 2 + pad_x < sw {
        cx + w / 2 + pad_x
    } else {
        sw
    };
    let y2 = if cy + h / 2 + pad_y < sh {
        cy + h / 2 + pad_y
    } else {
        sh
    };
    if x2 - x1 < w || y2 - y1 < h {
        None
    } else {
        Some((x1, y1, x2, y2))
    }
}

/// Magnitudes small enough that no window arithmetic overflows.
pub open spec fn window_args_ok(cx: int, cy: int, w: int, h: int, pad_x: int, pad_y: int) -> bool {
    &&& -0x1_0000_0000_0000 <= cx <= 0x1_0000_0000_0000
    &&& -0x1_0000_0000_0000 <= cy <= 0x1_0000_0000_0000
    &&& 0 <= w <= 0x1_0000_0000_0000
    &&& 0 <= h <= 0x1_0000_0000_0000
    &&& -0x1_0000_0000_0000 <= pad_x <= 0x1_0000_0000_0000
    &&& -0x1_0000_0000_0000 <= pad_y <= 0x1_0000_0000_0000
}

/// See [`padded_window_spec`].
pub fn padded_window(cx: i64, cy: i64, w: i64, h: i64, pad_x: i64, pad_y: i64, sw: i64, sh: i64) -> (r:
    Option<[i64; 4]>)
    requires
        window_args_ok(cx as int, cy as int, w as int, h as int, pad_x as int, pad_y as int),
    ensures
        match padded_window_spec(
            cx as int,
            cy as int,
            w as int,
            h as int,
            pad_x as int,
            pad_y as int,
            sw as int,
            sh as int,
        ) {
            Some(b) => r matches Some(z) && (z[0] as int, z[1] as int, z[2] as int, z[3] as int) == b,
            None => r is None,
        },
{
    let x1 = if cx - w / 2 - pad_x > 0 {
        cx - w / 2 - pad_x
    } else {
        0
    };
    let y1 = if cy - h / 2 - pad_y > 0 {
        cy - h / 2 - pad_y
    } else {
        0
    };
    let x2 = if cx + w / 2 + pad_x < sw {
        cx + w / 2 + pad_x
    } else {
        sw
    };
    let y2 = if cy + h / 2 + pad_y < sh {
        cy + h / 2 + pad_y
    } else {
        sh
    };
    if (x2 as i128) - (x1 as i128) < w as i128 || (y2 as i128) - (y1 as i128) < h as i128 {
        None
    } else {
        Some([x1, y1, x2, y2])
    }
}

/// The window the first, local search looks in: around the last detection
/// `(x, y, w, h)` (absolute), in a `sw` by `sh` search area whose origin is
/// `(ox, oy)`, widened by [`TEMPORAL_PAD`].
pub fn temporal_window(last: (i64, i64, i64, i64), ox: i64, oy: i64, sw: i64, sh: i64) -> (r: Option<
    [i64; 4],
>)
    requires
        window_args_ok(last.0 - ox, last.1 - oy, last.2 as int, last.3 as int, 60, 60),
    ensures
        match padded_window_spec(
            last.0 - ox,
            last.1 - oy,
            last.2 as int,
            last.3 as int,
            60,
            60,
            sw as int,
            sh as int,
        ) {
            Some(b) => r matches Some(z) && (z[0] as int, z[1] as int, z[2] as int, z[3] as int) == b,
            None => r is None,
        },
{
    padded_window(last.0 - ox, last.1 - oy, last.2, last.3, TEMPORAL_PAD, TEMPORAL_PAD, sw, sh)
}

/// `|v|`.
pub open spec fn abs_spec(v: int) -> int {
    if v < 0 {
        -v
    } else {
        v
    }
}

/// `v`, or 1 when it is below 1.
pub open spec fn at_least_one(v: int) -> int {
    if v < 1 {
        1
    } else {
        v
    }
}

/// Two detections are one target when their centres are less than half the
/// second's size apart on both axes. Boxes are `(x, y, w, h)`, centred.
pub open spec fn same_target_spec(k: (i64, i64, i64, i64), d: (i64, i64, i64, i64)) -> bool {
    &&& abs_spec(k.0 - d.0) * 2 < at_least_one(d.2 as int)
    &&& abs_spec(k.1 - d.1) * 2 < at_least_one(d.3 as int)
}

/// `b`'s centre lies at least `b`'s own height above or below `a`'s (and
/// not at the same height).
pub open spec fn vertically_apart(a: (i64, i64, i64, i64), b: (i64, i64, i64, i64)) -> bool {
    a.1 != b.1 && (a.1 - b.1 >= b.3 || b.1 - a.1 >= b.3)
}

/// Two detections are one target only when their centres are close on both
/// axes: centres at least the second box's height apart vertically (or its
/// width apart horizontally) are never the same target, and for boxes of
/// positive size the test is that each centre offset, doubled, stays below
/// that size.
pub proof fn lemma_same_target_needs_both_axes(k: (i64, i64, i64, i64), d: (i64, i64, i64, i64))
    ensures
        k.1 != d.1 && (k.1 - d.1 >= d.3 || d.1 - k.1 >= d.3) ==> !same_target_spec(k, d),
        k.0 != d.0 && (k.0 - d.0 >= d.2 || d.0 - k.0 >= d.2) ==> !same_target_spec(k, d),
        d.2 >= 1 && d.3 >= 1 ==> (same_target_spec(k, d) <==> ((k.0 - d.0) * 2 < d.2 && (d.0
            - k.0) * 2 < d.2 && (k.1 - d.1) * 2 < d.3 && (d.1 - k.1) * 2 < d.3)),
{
}

/// Coordinates small enough for the cluster arithmetic.
pub open spec fn small_box(b: (i64, i64, i64, i64)) -> bool {
    &&& -0x1_0000_0000_0000 <= b.0 <= 0x1_0000_0000_0000
    &&& -0x1_0000_0000_0000 <= b.1 <= 0x1_0000_0000_0000
}

fn abs_diff(a: i64, b: i64) -> (r: i64)
    requires
        -0x1_0000_0000_0000 <= a <= 0x1_0000_0000_0000,
        -0x1_0000_0000_0000 <= b <= 0x1_0000_0000_0000,
    ensures
        r == abs_spec(a - b),
{
    if a >= b {
        a - b
    } else {
        b - a
    }
}

/// See [`same_target_spec`].
pub fn same_target(k: (i64, i64, i64, i64), d: (i64, i64, i64, i64)) -> (b: bool)
    requires
        small_box(k),
        small_box(d),
    ensures
        b == same_target_spec(k, d),
{
    let dw = if d.2 < 1 {
        1
    } else {
        d.2
    };
    let dh = if d.3 < 1 {
        1
    } else {
        d.3
    };
    abs_diff(k.0, d.0) * 2 < dw && abs_diff(k.1, d.1) * 2 < dh
}

/// The indices kept when `boxes` (strongest first) are thinned to one per
/// target, looking at the first `n`: a box is kept unless it is the same
/// target as one kept before it.
pub open spec fn kept_upto(boxes: Seq<(i64, i64, i64, i64)>, n: int) -> Seq<usize>
    decreases n,
{
    if n <= 0 {
        Seq::empty()
    } else {
        let before = kept_upto(boxes, n - 1);
        if exists|k: int| 0 <= k < before.len() && same_target_spec(boxes[before[k] as int], boxes[n - 1]) {
            before
        } else {
            before.push((n - 1) as usize)
        }
    }
}

/// Every index in `kept_upto(boxes, n)` is below `n`.
proof fn lemma_kept_below(boxes: Seq<(i64, i64, i64, i64)>, n: int)
    ensures
        forall|k: int| 0 <= k < kept_upto(boxes, n).len() ==> #[trigger] kept_upto(boxes, n)[k] < n,
    decreases n,
{
    if n > 0 {
        lemma_kept_below(boxes, n - 1);
        let before = kept_upto(boxes, n - 1);
        let now = kept_upto(boxes, n);
        assert(now == before || now == before.push((n - 1) as usize));
        assert forall|k: int| 0 <= k < now.len() implies #[trigger] now[k] < n by {
            if k < before.len() {
                assert(before[k] < n - 1);
            }
        }
    }
}

/// Thinning keeps one box per target: no two kept boxes are the same target
/// (the earlier one compared against the later), the kept indices increase,
/// and every box that was dropped is the same target as a box kept before
/// it.
pub proof fn lemma_kept_distinct_and_dropped_covered(boxes: Seq<(i64, i64, i64, i64)>, n: int)
    requires
        0 <= n <= boxes.len(),
        n <= usize::MAX,
    ensures
        forall|a: int, b: int|
            0 <= a < b < kept_upto(boxes, n).len() ==> #[trigger] kept_upto(boxes, n)[a]
                < #[trigger] kept_upto(boxes, n)[b] && !same_target_spec(
                boxes[kept_upto(boxes, n)[a] as int],
                boxes[kept_upto(boxes, n)[b] as int],
            ),
        forall|i: usize|
            i < n && !(#[trigger] kept_upto(boxes, n).contains(i)) ==> exists|k: int|
                0 <= k < kept_upto(boxes, n).len() && kept_upto(boxes, n)[k] < i
                    && same_target_spec(boxes[#[trigger] kept_upto(boxes, n)[k] as int], boxes[i as int]),
    decreases n,
{
    if n > 0 {
        lemma_kept_distinct_and_dropped_covered(boxes, n - 1);
        lemma_kept_below(boxes, n - 1);
        let before = kept_upto(boxes, n - 1);
        let now = kept_upto(boxes, n);
        if exists|k: int| 0 <= k < before.len() && same_target_spec(boxes[before[k] as int], boxes[n - 1]) {
            assert(now == before);
            assert forall|i: usize| i < n && !(#[trigger] now.contains(i)) implies exists|k: int|
                0 <= k < now.len() && now[k] < i && same_target_spec(
                boxes[#[trigger] now[k] as int],
                boxes[i as int],
            ) by {
                if i == n - 1 {
                    let k = choose|k: int|
                        0 <= k < before.len() && same_target_spec(boxes[before[k] as int], boxes[n - 1]);
                    assert(before[k] < n - 1);
                    assert(now[k] < i);
                } else {
                    assert(!before.contains(i));
                }
            }
        } else {
            assert(now == before.push((n - 1) as usize));
            assert forall|a: int, b: int| 0 <= a < b < now.len() implies #[trigger] now[a]
                < #[trigger] now[b] && !same_target_spec(
                boxes[now[a] as int],
                boxes[now[b] as int],
            ) by {
                if b == before.len() {
                    assert(now[a] == before[a]);
                    assert(before[a] < n - 1);
                } else {
                    assert(now[a] == before[a] && now[b] == before[b]);
                }
            }
            assert forall|i: usize| i < n && !(#[trigger] now.contains(i)) implies exists|k: int|
                0 <= k < now.len() && now[k] < i && same_target_spec(
                boxes[#[trigger] now[k] as int],
                boxes[i as int],
            ) by {
                if i == n - 1 {
                    assert(now[now.len() - 1] == i);
                } else {
                    assert(!before.contains(i)) by {
                        if before.contains(i) {
                            let k = choose|k: int| 0 <= k < before.len() && before[k] == i;
                            assert(now[k] == i);
                        }
                    }
                    let k = choose|k: int|
                        0 <= k < before.len() && before[k] < i && same_target_spec(
                            boxes[#[trigger] before[k] as int],
                            boxes[i as int],
                        );
                    assert(now[k] == before[k]);
                }
            }
        }
    }
}

/// Detections that lie pairwise apart vertically (each later one at least
/// its own height from every earlier one) are all kept, in order.
pub proof fn lemma_apart_boxes_all_kept(boxes: Seq<(i64, i64, i64, i64)>, n: int)
    requires
        0 <= n <= boxes.len(),
        n <= usize::MAX,
        forall|i: int, j: int| 0 <= i < j < n ==> #[trigger] vertically_apart(boxes[i], boxes[j]),
    ensures
        kept_upto(boxes, n) == Seq::new(n as nat, |i: int| i as usize),
    decreases n,
{
    if n > 0 {
        lemma_apart_boxes_all_kept(boxes, n - 1);
        let before = kept_upto(boxes, n - 1);
        assert forall|k: int| 0 <= k < before.len() implies !same_target_spec(
            boxes[before[k] as int],
            boxes[n - 1],
        ) by {
            assert(before[k] as int == k);
            assert(vertically_apart(boxes[k], boxes[n - 1]));
            lemma_same_target_needs_both_axes(boxes[k], boxes[n - 1]);
        }
        assert(kept_upto(boxes, n) =~= Seq::new(n as nat, |i: int| i as usize));
    }
}

/// Thins detections, already ordered strongest first, to one per target (see
/// [`kept_upto`]): the indices of those kept, in order.
pub fn keep_distinct(boxes: &Vec<(i64, i64, i64, i64)>) -> (kept: Vec<usize>)
    requires
        forall|i: int| 0 <= i < boxes@.len() ==> small_box(#[trigger] boxes@[i]),
    ensures
        kept@ == kept_upto(boxes@, boxes@.len() as int),
        (forall|i: int, j: int|
            0 <= i < j < boxes@.len() ==> #[trigger] vertically_apart(boxes@[i], boxes@[j])) ==> kept@
            == Seq::new(boxes@.len(), |i: int| i as usize),
{
    let mut kept: Vec<usize> = Vec::new();
    let mut i: usize = 0;
    while i < boxes.len()
        invariant
            i <= boxes@.len(),
            forall|q: int| 0 <= q < boxes@.len() ==> small_box(#[trigger] boxes@[q]),
            kept@ == kept_upto(boxes@, i as int),
        decreases boxes@.len() - i,
    {
        proof {
            lemma_kept_below(boxes@, i as int);
        }
        let mut same = false;
        let mut k: usize = 0;
        while k < kept.len()
            invariant
                i < boxes@.len(),
                k <= kept@.len(),
                forall|q: int| 0 <= q < boxes@.len() ==> small_box(#[trigger] boxes@[q]),
                forall|q: int| 0 <= q < kept@.len() ==> #[trigger] kept@[q] < i,
                same == exists|q: int| 0 <= q < k && same_target_spec(boxes@[kept@[q] as int], boxes@[i as int]),
            decreases kept@.len() - k,
        {
            let hit = same_target(boxes[kept[k]], boxes[i]);
            proof {
                if hit {
                    assert(same_target_spec(boxes@[kept@[k as int] as int], boxes@[i as int]));
                }
            }
            same = same || hit;
            k = k + 1;
        }
        if !same {
            kept.push(i);
        }
        i = i + 1;
    }
    proof {
        if forall|i: int, j: int|
            0 <= i < j < boxes@.len() ==> #[trigger] vertically_apart(boxes@[i], boxes@[j]) {
            lemma_apart_boxes_all_kept(boxes@, boxes@.len() as int);
        }
    }
    kept
}

/// Two nominations are one: centres less than half the larger size apart,
/// and sizes within a twentieth of the larger, on both axes.
pub open spec fn same_nomination_spec(d: (i64, i64, i64, i64), e: (i64, i64, i64, i64)) -> bool {
    let mw = at_least_one(if d.2 >= e.2 { d.2 as int } else { e.2 as int });
    let mh = at_least_one(if d.3 >= e.3 { d.3 as int } else { e.3 as int });
    &&& abs_spec(d.0 - e.0) * 2 < mw
    &&& abs_spec(d.1 - e.1) * 2 < mh
    &&& abs_spec(d.2 - e.2) * 20 <= mw
    &&& abs_spec(d.3 - e.3) * 20 <= mh
}

/// Sizes small enough for the comparison arithmetic.
pub open spec fn small_nomination(b: (i64, i64, i64, i64)) -> bool {
    &&& small_box(b)
    &&& -0x1_0000_0000_0000 <= b.2 <= 0x1_0000_0000_0000
    &&& -0x1_0000_0000_0000 <= b.3 <= 0x1_0000_0000_0000
}

/// See [`same_nomination_spec`].
pub fn same_nomination(d: (i64, i64, i64, i64), e: (i64, i64, i64, i64)) -> (b: bool)
    requires
        small_nomination(d),
        small_nomination(e),
    ensures
        b == same_nomination_spec(d, e),
{
    let mw0 = if d.2 >= e.2 {
        d.2
    } else {
        e.2
    };
    let mh0 = if d.3 >= e.3 {
        d.3
    } else {
        e.3
    };
    let mw = if mw0 < 1 {
        1
    } else {
        mw0
    };
    let mh = if mh0 < 1 {
        1
    } else {
        mh0
    };
    abs_diff(d.0, e.0) * 2 < mw && abs_diff(d.1, e.1) * 2 < mh && abs_diff(d.2, e.2) * 20 <= mw
        && abs_diff(d.3, e.3) * 20 <= mh
}

// ── Templates ───────────────────────────────────────────────────────────────

/// A template prepared once per load: its pixels, a contrast-equalised copy,
/// its Canny edges (thresholds 50 and 150) for background-invariant
/// matching, and the content mask derived from those edges, when one is of
/// use.
pub struct Template {
    pub w: usize,
    pub h: usize,
    pub raw: Gray,
    pub clahe: Gray,
    pub edges: Gray,
    pub mask: Option<Gray>,
}

impl Template {
    /// Prepares `gray`; `equalised` is its contrast-limited equalisation,
    /// which is computed in floating point and handed in.
    pub fn from_gray(gray: &Gray, equalised: Gray) -> (t: Template)
        requires
            gray.wf(),
            gray.w <= 0x7fff_ffff,
            gray.h <= 0x7fff_ffff,
        ensures
            t.w == gray.w,
            t.h == gray.h,
            t.raw.w == gray.w && t.raw.h == gray.h && t.raw.data@ == gray.data@,
            t.clahe == equalised,
            t.edges.w == gray.w,
            t.edges.h == gray.h,
            t.edges.wf(),
            (gray.w < 2 || gray.h < 2) ==> forall|i: int|
                0 <= i < gray.w * gray.h ==> #[trigger] t.edges.data@[i] == 0,
            gray.w >= 2 && gray.h >= 2 ==> forall|i: int|
                0 <= i < gray.w * gray.h ==> (#[trigger] t.edges.data@[i] == 255) == hysteresis_edge(
                    gray,
                    50,
                    150,
                    i % (gray.w as int),
                    i / (gray.w as int),
                ),
            gray.w >= 2 && gray.h >= 2 ==> forall|i: int|
                0 <= i < gray.w * gray.h ==> (#[trigger] t.edges.data@[i] == 0) != hysteresis_edge(
                    gray,
                    50,
                    150,
                    i % (gray.w as int),
                    i / (gray.w as int),
                ),
            match auto_mask_spec(t.edges.data@, gray.w as int, gray.h as int) {
                None => t.mask is None,
                Some(m) => t.mask matches Some(g) && g.w == gray.w && g.h == gray.h && g.wf() && g.data@
                    == m,
            },
    {
        let edges = canny(gray, 50, 150);
        let mask = auto_mask(&edges);
        Template { w: gray.w, h: gray.h, raw: gray.duplicate(), clahe: equalised, edges, mask }
    }
}

} // verus!
