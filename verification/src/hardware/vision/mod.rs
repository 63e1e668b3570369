//! The detector's image operations, plus the integer rules of its search:
//! colour bounds, and where a lost target is looked for again.
//!
//! A target that disappears is searched for tile by tile across the screen,
//! a few tiles per miss, first at the learned scale and then at staggered
//! scales around it. The tiles overlap by half a target, so every placement
//! of the target is wholly inside one of them
//! ([`lemma_recovery_tiles_cover`]).

pub mod canny;
pub mod clahe;
pub mod corr;
pub mod gpu_corr;
pub mod image;
pub mod template;

use vstd::prelude::*;
use crate::arith::clamp_spec;
use crate::hardware::capture::Frame;

verus! {

/// Why a vision call failed: the screen would not capture, or an image file
/// would not decode (with the reason).
pub enum VisionError {
    Capture,
    Image(String),
}

/// A guard's HSV pair as the bounds `inRange` wants, each component clamped
/// into `0..=255` rather than wrapped.
pub fn hsv_bounds(low: [i64; 3], high: [i64; 3]) -> (b: ([u8; 3], [u8; 3]))
    ensures
        forall|i: int| 0 <= i < 3 ==> #[trigger] b.0@[i] == clamp_spec(low@[i] as int, 0, 255),
        forall|i: int| 0 <= i < 3 ==> #[trigger] b.1@[i] == clamp_spec(high@[i] as int, 0, 255),
{
    ([clamp_u8(low[0]), clamp_u8(low[1]), clamp_u8(low[2])], [
        clamp_u8(high[0]),
        clamp_u8(high[1]),
        clamp_u8(high[2]),
    ])
}

fn clamp_u8(v: i64) -> (r: u8)
    ensures
        r == clamp_spec(v as int, 0, 255),
{
    if v < 0 {
        0
    } else if v > 255 {
        255
    } else {
        v as u8
    }
}


/// How a decoded image lays out its pixels.
#[derive(Clone, Copy, Debug, PartialEq, Eq)]
pub enum PixelLayout {
    Rgb,
    Rgba,
    Gray,
    GrayAlpha,
}

/// Bytes per pixel in `layout`.
pub open spec fn layout_channels(layout: PixelLayout) -> nat {
    match layout {
        PixelLayout::Rgb => 3,
        PixelLayout::Rgba => 4,
        PixelLayout::Gray => 1,
        PixelLayout::GrayAlpha => 2,
    }
}

/// The byte of a pixel in `layout` that gives RGB channel `k`: the channel
/// itself for colour, the grey level for grey; alpha is dropped.
pub open spec fn layout_source(layout: PixelLayout, k: int) -> int {
    match layout {
        PixelLayout::Rgb | PixelLayout::Rgba => k,
        _ => 0,
    }
}

/// Decoded pixels as RGB: colour kept, alpha dropped, grey spread to all
/// three channels.
pub fn pixels_to_rgb(buf: &[u8], layout: PixelLayout) -> (rgb: Vec<u8>)
    requires
        buf@.len() % layout_channels(layout) == 0,
        buf@.len() / layout_channels(layout) * 3 <= usize::MAX,
    ensures
        rgb@.len() == buf@.len() / layout_channels(layout) * 3,
        forall|i: int, k: int|
            0 <= i < buf@.len() / layout_channels(layout) && 0 <= k < 3 ==> #[trigger] rgb@[3 * i + k]
                == buf@[layout_channels(layout) * i + layout_source(layout, k)],
{
    let c: usize = match layout {
        PixelLayout::Rgb => 3,
        PixelLayout::Rgba => 4,
        PixelLayout::Gray => 1,
        PixelLayout::GrayAlpha => 2,
    };
    let grey = match layout {
        PixelLayout::Gray | PixelLayout::GrayAlpha => true,
        _ => false,
    };
    let blen = buf.len();
    let n = blen / c;
    let mut rgb: Vec<u8> = Vec::new();
    let mut i: usize = 0;
    while i < n
        invariant
            c == layout_channels(layout),
            grey == (layout is Gray || layout is GrayAlpha),
            n == buf@.len() / (c as nat),
            buf@.len() % (c as nat) == 0,
            n * 3 <= usize::MAX,
            blen == buf@.len(),
            i <= n,
            rgb@.len() == 3 * i,
            forall|j: int, k: int|
                0 <= j < i && 0 <= k < 3 ==> #[trigger] rgb@[3 * j + k] == buf@[(c as int) * j + layout_source(layout, k)],
        decreases n - i,
    {
        proof {
            assert(c * i + c <= c * n) by (nonlinear_arith)
                requires
                    i < n,
                    c >= 1,
            ;
            assert(c * n <= buf@.len()) by (nonlinear_arith)
                requires
                    n == buf@.len() / (c as nat),
                    c >= 1,
            ;
        }
        let base = c * i;
        let ghost before = rgb@;
        if grey {
            rgb.push(buf[base]);
            rgb.push(buf[base]);
            rgb.push(buf[base]);
        } else {
            rgb.push(buf[base]);
            rgb.push(buf[base + 1]);
            rgb.push(buf[base + 2]);
        }
        proof {
            assert forall|j: int, k: int| 0 <= j < i + 1 && 0 <= k < 3 implies #[trigger] rgb@[3 * j + k] == buf@[(c as int)
                * j + layout_source(layout, k)] by {
                if j < i {
                    assert(rgb@[3 * j + k] == before[3 * j + k]);
                }
            }
        }
        i = i + 1;
    }
    proof {
        assert(buf@.len() / layout_channels(layout) * 3 == 3 * n);
    }
    rgb
}

/// A decoded RGB image (`w * h` pixels, three bytes each) as a BGR frame.
pub fn frame_from_rgb(rgb: &[u8], width: u32, height: u32) -> (f: Frame)
    requires
        rgb@.len() == width * height * 3,
    ensures
        f.wf(),
        f.width == width,
        f.height == height,
        forall|i: int, k: int|
            0 <= i < width * height && 0 <= k < 3 ==> #[trigger] f.bgr@[3 * i + k] == rgb@[3 * i + 2 - k],
{
    let n = rgb.len() / 3;
    let mut bgr: Vec<u8> = Vec::new();
    let mut i: usize = 0;
    proof {
        assert(rgb@.len() == rgb.len());
    }
    while i < n
        invariant
            n == width * height,
            rgb@.len() == width * height * 3,
            i <= n,
            bgr@.len() == 3 * i,
            forall|j: int, k: int|
                0 <= j < i && 0 <= k < 3 ==> #[trigger] bgr@[3 * j + k] == rgb@[3 * j + 2 - k],
        decreases n - i,
    {
        proof {
            assert(rgb@.len() == rgb.len());
        }
        bgr.push(rgb[3 * i + 2]);
        bgr.push(rgb[3 * i + 1]);
        bgr.push(rgb[3 * i]);
        i = i + 1;
    }
    Frame { bgr, width, height }
}

// ── Reacquisition ────────────────────────────────────────────────────────────

/// Extra margin around the last hit when reacquiring at the same place.
pub const REACQUISITION_PAD: i64 = 36;
/// Recovery tiles searched per missed poll.
pub const RECOVERY_TILES_PER_MISS: usize = 4;
/// The core size of a recovery tile.
pub const RECOVERY_TILE_WIDTH: i64 = 320;
pub const RECOVERY_TILE_HEIGHT: i64 = 180;

/// Every miss advances the global recovery search.
pub fn global_probe_due(miss_count: u32) -> (b: bool)
    ensures
        b == (miss_count > 0),
{
    miss_count > 0
}

/// How many recovery tiles across and down cover a `width` by `height`
/// screen: enough tiles of the core size, rounding up, at least one.
pub open spec fn recovery_grid_spec(width: int, height: int) -> (int, int) {
    let w = if width > 1 {
        width
    } else {
        1
    };
    let h = if height > 1 {
        height
    } else {
        1
    };
    ((w + 319) / 320, (h + 179) / 180)
}

pub fn recovery_grid(width: i64, height: i64) -> (g: (usize, usize))
    requires
        width <= 0x8000_0000,
        height <= 0x8000_0000,
    ensures
        g.0 == recovery_grid_spec(width as int, height as int).0,
        g.1 == recovery_grid_spec(width as int, height as int).1,
        1 <= g.0 <= 0x100_0000,
        1 <= g.1 <= 0x100_0000,
{
    let w = if width > 1 {
        width
    } else {
        1
    };
    let h = if height > 1 {
        height
    } else {
        1
    };
    (((w + RECOVERY_TILE_WIDTH - 1) / RECOVERY_TILE_WIDTH) as usize, ((h + RECOVERY_TILE_HEIGHT - 1)
        / RECOVERY_TILE_HEIGHT) as usize)
}

/// The core span `n` of `count` equal parts of `len`: `len * n / count` up to
/// `len * (n + 1) / count`.
pub open spec fn core_span(len: int, n: int, count: int) -> (int, int) {
    (len * n / count, len * (n + 1) / count)
}

/// Recovery probe `cursor`'s search bounds `[x1, y1, x2, y2]`: its core tile
/// (tiles taken in row-major order, the grid repeating once per pass) grown
/// by the overlap and cut to the screen.
pub open spec fn recovery_bounds_spec(
    cursor: int,
    width: int,
    height: int,
    overlap_x: int,
    overlap_y: int,
) -> (int, int, int, int) {
    let g = recovery_grid_spec(width, height);
    let tile = cursor % (g.0 * g.1);
    let cx = core_span(width, tile % g.0, g.0);
    let cy = core_span(height, tile / g.0, g.1);
    (
        if cx.0 - overlap_x > 0 {
            cx.0 - overlap_x
        } else {
            0
        },
        if cy.0 - overlap_y > 0 {
            cy.0 - overlap_y
        } else {
            0
        },
        if cx.1 + overlap_x < width {
            cx.1 + overlap_x
        } else {
            width
        },
        if cy.1 + overlap_y < height {
            cy.1 + overlap_y
        } else {
            height
        },
    )
}

/// Which pass over the grid probe `cursor` belongs to: pass 0 searches at the
/// learned scale, pass `p > 0` at the `p - 1`-th staggered scale.
pub open spec fn recovery_pass_spec(cursor: int, width: int, height: int) -> int {
    let g = recovery_grid_spec(width, height);
    cursor / (g.0 * g.1)
}

/// Recovery probe `cursor`: its bounds and its pass.
pub fn recovery_probe(cursor: usize, width: i64, height: i64, overlap_x: i64, overlap_y: i64) -> (r: (
    [i64; 4],
    usize,
))
    requires
        1 <= width <= 0x8000_0000,
        1 <= height <= 0x8000_0000,
        0 <= overlap_x <= 0x8000_0000,
        0 <= overlap_y <= 0x8000_0000,
    ensures
        ({
            let b = recovery_bounds_spec(
                cursor as int,
                width as int,
                height as int,
                overlap_x as int,
                overlap_y as int,
            );
            r.0@ == seq![b.0 as i64, b.1 as i64, b.2 as i64, b.3 as i64]
        }),
        r.1 == recovery_pass_spec(cursor as int, width as int, height as int),
{
    let (columns, rows) = recovery_grid(width, height);
    proof {
        assert(columns * rows <= 0x100_0000 * 0x100_0000) by (nonlinear_arith)
            requires
                1 <= columns <= 0x100_0000,
                1 <= rows <= 0x100_0000,
        ;
        assert(columns * rows >= 1) by (nonlinear_arith)
            requires
                1 <= columns,
                1 <= rows,
        ;
    }
    let tile_count = (columns as u64) * (rows as u64);
    let tile = (cursor as u64) % tile_count;
    let pass = ((cursor as u64) / tile_count) as usize;
    let column = tile % (columns as u64);
    let row = tile / (columns as u64);
    proof {
        assert((tile as int) / (columns as int) < (rows as int)) by (nonlinear_arith)
            requires
                tile < columns * rows,
                columns >= 1,
        ;
    }
    let (cx1, cx2) = core_of(width, column as i64, columns as i64);
    let (cy1, cy2) = core_of(height, row as i64, rows as i64);
    let x1 = if cx1 - overlap_x > 0 {
        cx1 - overlap_x
    } else {
        0
    };
    let y1 = if cy1 - overlap_y > 0 {
        cy1 - overlap_y
    } else {
        0
    };
    let x2 = if cx2 + overlap_x < width {
        cx2 + overlap_x
    } else {
        width
    };
    let y2 = if cy2 + overlap_y < height {
        cy2 + overlap_y
    } else {
        height
    };
    ([x1, y1, x2, y2], pass)
}

fn core_of(len: i64, n: i64, count: i64) -> (r: (i64, i64))
    requires
        1 <= len <= 0x8000_0000,
        0 <= n < count <= 0x8000_0000,
    ensures
        r.0 == core_span(len as int, n as int, count as int).0,
        r.1 == core_span(len as int, n as int, count as int).1,
        0 <= r.0 <= r.1 <= len,
{
    proof {
        assert(0 <= len * n <= len * (n + 1) <= len * count) by (nonlinear_arith)
            requires
                1 <= len,
                0 <= n < count,
        ;
        assert(len * count <= 0x8000_0000 * 0x8000_0000) by (nonlinear_arith)
            requires
                1 <= len <= 0x8000_0000,
                1 <= count <= 0x8000_0000,
        ;
        lemma_div_monotone(len * n, len * (n + 1), count as int);
        lemma_div_monotone(len * (n + 1), len * count, count as int);
        vstd::arithmetic::div_mod::lemma_div_multiples_vanish(len as int, count as int);
        assert(count * len == len * count) by (nonlinear_arith);
        assert(0 <= (len * n) / (count as int)) by (nonlinear_arith)
            requires
                0 <= len * n,
                count >= 1,
        ;
    }
    (len * n / count, len * (n + 1) / count)
}

proof fn lemma_div_monotone(a: int, b: int, d: int)
    requires
        a <= b,
        d > 0,
    ensures
        a / d <= b / d,
{
    vstd::arithmetic::div_mod::lemma_div_is_ordered(a, b, d);
}

/// The core spans of `count` parts of `len` tile `[0, len)`: every position
/// falls in one of them.
proof fn lemma_core_spans_cover(len: int, count: int, x: int)
    requires
        len >= 1,
        count >= 1,
        0 <= x < len,
    ensures
        exists|n: int| 0 <= n < count && #[trigger] core_span(len, n, count).0 <= x < core_span(len, n, count).1,
{
    // The first boundary is 0 and the last is `len`; walk to the last boundary
    // at or before `x`.
    vstd::arithmetic::div_mod::lemma_div_multiples_vanish(len, count);
    assert(count * len == len * count) by (nonlinear_arith);
    assert(len * 0 / count == 0);
    lemma_walk(len, count, x, 0);
}

proof fn lemma_walk(len: int, count: int, x: int, n: int)
    requires
        len >= 1,
        count >= 1,
        0 <= x < len,
        0 <= n < count,
        len * n / count <= x,
        len * count / count == len,
    ensures
        exists|m: int| 0 <= m < count && #[trigger] core_span(len, m, count).0 <= x < core_span(len, m, count).1,
    decreases count - n,
{
    if x < len * (n + 1) / count {
        assert(core_span(len, n, count).0 <= x < core_span(len, n, count).1);
    } else if n + 1 < count {
        lemma_walk(len, count, x, n + 1);
    } else {
        assert(n + 1 == count);
        assert(len * (n + 1) == len * count);
    }
}

/// The recovery tiles cover the screen: a `tw` by `th` target lying wholly on
/// a `width` by `height` screen, with the overlap at least half the target,
/// lies wholly inside the bounds of one probe of the first pass.
pub proof fn lemma_recovery_tiles_cover(
    width: int,
    height: int,
    tw: int,
    th: int,
    overlap_x: int,
    overlap_y: int,
    left: int,
    top: int,
)
    requires
        width >= 1,
        height >= 1,
        tw >= 0,
        th >= 0,
        2 * overlap_x >= tw,
        2 * overlap_y >= th,
        0 <= left,
        left + tw <= width,
        0 <= top,
        top + th <= height,
    ensures
        exists|cursor: int|
            0 <= cursor < recovery_grid_spec(width, height).0 * recovery_grid_spec(width, height).1
                && {
                let b = #[trigger] recovery_bounds_spec(cursor, width, height, overlap_x, overlap_y);
                b.0 <= left && b.1 <= top && left + tw <= b.2 && top + th <= b.3
            },
{
    let g = recovery_grid_spec(width, height);
    let cols = g.0;
    let rows = g.1;
    assert(cols >= 1 && rows >= 1);
    // The target's centre, rounded down, picks the tile.
    let mx = left + tw / 2;
    let my = top + th / 2;
    assert(0 <= mx < width || tw == 0 && left == width);
    let px = if mx < width {
        mx
    } else {
        width - 1
    };
    let py = if my < height {
        my
    } else {
        height - 1
    };
    lemma_core_spans_cover(width, cols, px);
    lemma_core_spans_cover(height, rows, py);
    let c = choose|n: int| 0 <= n < cols && #[trigger] core_span(width, n, cols).0 <= px < core_span(width, n, cols).1;
    let r = choose|n: int| 0 <= n < rows && #[trigger] core_span(height, n, rows).0 <= py < core_span(height, n, rows).1;
    let cursor = r * cols + c;
    crate::arith::lemma_index_in_grid(c, r, cols, rows);
    crate::arith::lemma_grid_index_coords(c, r, cols);
    vstd::arithmetic::div_mod::lemma_small_mod(cursor as nat, (cols * rows) as nat);
    assert(cursor % (cols * rows) == cursor);
    let b = recovery_bounds_spec(cursor, width, height, overlap_x, overlap_y);
    assert(b.0 <= left && b.1 <= top && left + tw <= b.2 && top + th <= b.3);
}


/// The hot zone searched first when a target is reacquired: the last hit's
/// centre (`cx`, `cy`, in region coordinates) widened by the largest target
/// size and a pad of at least [`REACQUISITION_PAD`], clipped to the region.
/// As `[x1, y1, x2, y2]`.
pub open spec fn hot_zone_spec(cx: int, cy: int, max_w: int, max_h: int, roi_w: int, roi_h: int) -> (
    int,
    int,
    int,
    int,
) {
    let pad_x = if REACQUISITION_PAD >= max_w / 2 {
        REACQUISITION_PAD as int
    } else {
        max_w / 2
    };
    let pad_y = if REACQUISITION_PAD >= max_h / 2 {
        REACQUISITION_PAD as int
    } else {
        max_h / 2
    };
    let x1 = cx - max_w / 2 - pad_x;
    let y1 = cy - max_h / 2 - pad_y;
    let x2 = cx + max_w / 2 + pad_x;
    let y2 = cy + max_h / 2 + pad_y;
    (
        if x1 > 0 {
            x1
        } else {
            0
        },
        if y1 > 0 {
            y1
        } else {
            0
        },
        if x2 < roi_w {
            x2
        } else {
            roi_w
        },
        if y2 < roi_h {
            y2
        } else {
            roi_h
        },
    )
}

pub fn hot_zone(cx: i64, cy: i64, max_w: i64, max_h: i64, roi_w: i64, roi_h: i64) -> (z: [i64; 4])
    requires
        -0x1_0000_0000_0000 <= cx <= 0x1_0000_0000_0000,
        -0x1_0000_0000_0000 <= cy <= 0x1_0000_0000_0000,
        0 <= max_w <= 0x1_0000_0000_0000,
        0 <= max_h <= 0x1_0000_0000_0000,
    ensures
        (z[0] as int, z[1] as int, z[2] as int, z[3] as int) == hot_zone_spec(
            cx as int,
            cy as int,
            max_w as int,
            max_h as int,
            roi_w as int,
            roi_h as int,
        ),
{
    let half_w = max_w / 2;
    let half_h = max_h / 2;
    let pad_x = if REACQUISITION_PAD >= half_w {
        REACQUISITION_PAD
    } else {
        half_w
    };
    let pad_y = if REACQUISITION_PAD >= half_h {
        REACQUISITION_PAD
    } else {
        half_h
    };
    let x1 = cx - half_w - pad_x;
    let y1 = cy - half_h - pad_y;
    let x2 = cx + half_w + pad_x;
    let y2 = cy + half_h + pad_y;
    [
        if x1 > 0 {
            x1
        } else {
            0
        },
        if y1 > 0 {
            y1
        } else {
            0
        },
        if x2 < roi_w {
            x2
        } else {
            roi_w
        },
        if y2 < roi_h {
            y2
        } else {
            roi_h
        },
    ]
}

/// The indices below `k` whose flag equals `want`, in increasing order.
pub open spec fn indices_where(flags: Seq<bool>, want: bool, k: nat) -> Seq<usize>
    decreases k,
{
    if k == 0 {
        Seq::empty()
    } else {
        let before = indices_where(flags, want, (k - 1) as nat);
        if flags[k - 1] == want {
            before.push((k - 1) as usize)
        } else {
            before
        }
    }
}

/// Which candidates are the preferred one.
pub open spec fn preferred_flags(paths: Seq<Seq<char>>, preferred: Option<Seq<char>>) -> Seq<bool> {
    Seq::new(
        paths.len(),
        |i: int|
            match preferred {
                Some(p) => paths[i] == p,
                None => false,
            },
    )
}

/// The order in which candidate templates are tried: the preferred candidate
/// first, then the rest, each group in the order given.
pub open spec fn candidate_order_spec(paths: Seq<Seq<char>>, preferred: Option<Seq<char>>) -> Seq<usize> {
    let flags = preferred_flags(paths, preferred);
    indices_where(flags, true, paths.len()) + indices_where(flags, false, paths.len())
}

fn collect_indices(paths: &Vec<String>, preferred: &Option<String>, want: bool, out: &mut Vec<usize>)
    ensures
        final(out)@ == old(out)@ + indices_where(
            preferred_flags(paths@.map_values(|p: String| p@), opt_view(*preferred)),
            want,
            paths@.len(),
        ),
{
    let ghost flags = preferred_flags(paths@.map_values(|p: String| p@), opt_view(*preferred));
    let ghost start = out@;
    let mut i: usize = 0;
    while i < paths.len()
        invariant
            i <= paths@.len(),
            flags == preferred_flags(paths@.map_values(|p: String| p@), opt_view(*preferred)),
            out@ == start + indices_where(flags, want, i as nat),
        decreases paths.len() - i,
    {
        let is_preferred = match preferred {
            Some(p) => paths[i] == *p,
            None => false,
        };
        proof {
            assert(flags[i as int] == is_preferred);
        }
        if is_preferred == want {
            out.push(i);
        }
        proof {
            assert(indices_where(flags, want, (i + 1) as nat) == if flags[i as int] == want {
                indices_where(flags, want, i as nat).push(i)
            } else {
                indices_where(flags, want, i as nat)
            });
        }
        i = i + 1;
    }
}

/// A string's characters, or nothing.
pub open spec fn opt_view(s: Option<String>) -> Option<Seq<char>> {
    match s {
        Some(p) => Some(p@),
        None => None,
    }
}

/// The candidate indices in the order they are tried (see
/// [`candidate_order_spec`]).
pub fn candidate_order(paths: &Vec<String>, preferred: &Option<String>) -> (order: Vec<usize>)
    ensures
        order@ == candidate_order_spec(paths@.map_values(|p: String| p@), opt_view(*preferred)),
{
    let mut order: Vec<usize> = Vec::new();
    collect_indices(paths, preferred, true, &mut order);
    collect_indices(paths, preferred, false, &mut order);
    order
}

/// `n` wrapped once into the range of `usize`.
pub open spec fn wrapped(n: int) -> int {
    if n > usize::MAX {
        n - (usize::MAX + 1)
    } else {
        n
    }
}

/// One missed reacquisition: the miss count goes up by one (saturating), and
/// when a global probe is due the next [`RECOVERY_TILES_PER_MISS`] tiles are
/// handed out and the cursor moves past them, both wrapping.
/// Returns the new miss count, the new cursor and the tiles to search.
pub fn record_miss(miss_count: u32, cursor: usize) -> (r: (u32, usize, Vec<usize>))
    ensures
        r.0 == (if miss_count < u32::MAX {
            miss_count + 1
        } else {
            miss_count as int
        }),
        r.2@.len() == RECOVERY_TILES_PER_MISS,
        r.1 == wrapped(cursor + RECOVERY_TILES_PER_MISS),
        forall|k: int| 0 <= k < RECOVERY_TILES_PER_MISS ==> #[trigger] r.2@[k] == wrapped(cursor + k),
{
    let misses = miss_count.saturating_add(1);
    let mut tiles: Vec<usize> = Vec::new();
    let mut next = cursor;
    if global_probe_due(misses) {
        let mut k: usize = 0;
        while k < RECOVERY_TILES_PER_MISS
            invariant
                k <= RECOVERY_TILES_PER_MISS,
                tiles@.len() == k,
                forall|j: int| 0 <= j < k ==> #[trigger] tiles@[j] == wrapped(cursor + j),
            decreases RECOVERY_TILES_PER_MISS - k,
        {
            tiles.push(cursor.wrapping_add(k));
            k = k + 1;
        }
        next = cursor.wrapping_add(RECOVERY_TILES_PER_MISS);
    }
    (misses, next, tiles)
}

} // verus!
