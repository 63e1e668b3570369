//! The interactive screen pickers' pure parts: the cv2-exact colour
//! conversion a sampled pixel is reported in, the selection geometry, and the
//! bitmaps the overlay shows. The overlay windows and the PNG files are the
//! application's.

use vstd::prelude::*;
use crate::arith::{clamp_spec, div_round_half_even, round_half_even};
use crate::hardware::capture::Frame;
use crate::hardware::overlay::{widen_bgr, Dib, Event, Flow};
use crate::hardware::snap::{snap_candidate, snap_frame, snap_outcome, Hover, Rect, MIN_SIDE};
use crate::text::string_of;
use crate::hardware::vision::image::{hsv_spec, sdiv_spec, hdiv_spec};

verus! {

/// One pixel through `cv2.cvtColor(..., cv2.COLOR_BGR2HSV)`, so a sampled
/// colour lands on the same integer triple the detector matches against.
pub fn bgr_to_hsv(b: u8, g: u8, r: u8) -> (hsv: (u8, u8, u8))
    ensures
        hsv == hsv_spec(b, g, r),
{
    crate::hardware::vision::image::bgr_to_hsv(b, g, r)
}

/// `cvRound(255 * 2^12 / i)` for every `i`, 0 at 0.
pub fn sdiv_table() -> (t: Vec<i32>)
    ensures
        t@.len() == 256,
        forall|i: int| 0 <= i < 256 ==> #[trigger] t@[i] == sdiv_spec(i),
{
    crate::hardware::vision::image::sdiv_table()
}

/// `cvRound(180 * 2^12 / (6 * i))` for every `i`, 0 at 0.
pub fn hdiv_table() -> (t: Vec<i32>)
    ensures
        t@.len() == 256,
        forall|i: int| 0 <= i < 256 ==> #[trigger] t@[i] == hdiv_spec(i),
{
    crate::hardware::vision::image::hdiv_table()
}

pub open spec fn abs_int(v: int) -> int {
    if v < 0 {
        -v
    } else {
        v
    }
}

pub open spec fn min_int(a: int, b: int) -> int {
    if a <= b {
        a
    } else {
        b
    }
}

/// A drag normalised to `(x, y, w, h)`, whichever way it was drawn.
pub fn rect_of(sx: i32, sy: i32, cx: i32, cy: i32) -> (r: (i32, i32, i32, i32))
    requires
        abs_int(cx - sx) <= i32::MAX,
        abs_int(cy - sy) <= i32::MAX,
    ensures
        r.0 == min_int(sx as int, cx as int),
        r.1 == min_int(sy as int, cy as int),
        r.2 == abs_int(cx - sx),
        r.3 == abs_int(cy - sy),
{
    let x = if sx <= cx {
        sx
    } else {
        cx
    };
    let y = if sy <= cy {
        sy
    } else {
        cy
    };
    let w = if cx >= sx {
        cx - sx
    } else {
        sx - cx
    };
    let h = if cy >= sy {
        cy - sy
    } else {
        sy - cy
    };
    (x, y, w, h)
}

/// Corner `i` of `rect`, in the order top-left, top-right, bottom-left,
/// bottom-right.
pub open spec fn corner(rect: (i32, i32, i32, i32), i: int) -> (int, int) {
    let (x, y, w, h) = rect;
    if i == 0 {
        (x as int, y as int)
    } else if i == 1 {
        (x + w, y as int)
    } else if i == 2 {
        (x as int, y + h)
    } else {
        (x + w, y + h)
    }
}

pub open spec fn near_corner(rect: (i32, i32, i32, i32), i: int, cx: int, cy: int, margin: int) -> bool {
    abs_int(cx - corner(rect, i).0) <= margin && abs_int(cy - corner(rect, i).1) <= margin
}

/// `0..=3` for the first corner (TL, TR, BL, BR) within `margin` of the
/// cursor, else `-1`.
pub fn hit_corner(rect: (i32, i32, i32, i32), cx: i32, cy: i32, margin: i32) -> (k: i32)
    ensures
        -1 <= k < 4,
        k >= 0 ==> near_corner(rect, k as int, cx as int, cy as int, margin as int) && forall|j: int|
            0 <= j < k ==> !near_corner(rect, j, cx as int, cy as int, margin as int),
        k == -1 ==> forall|j: int| 0 <= j < 4 ==> !near_corner(rect, j, cx as int, cy as int, margin as int),
{
    let (x, y, w, h) = rect;
    let mut i: i32 = 0;
    while i < 4
        invariant
            0 <= i <= 4,
            rect == (x, y, w, h),
            forall|j: int| 0 <= j < i ==> !near_corner(rect, j, cx as int, cy as int, margin as int),
        decreases 4 - i,
    {
        let hx: i64 = if i == 0 || i == 2 {
            x as i64
        } else {
            (x as i64) + (w as i64)
        };
        let hy: i64 = if i == 0 || i == 1 {
            y as i64
        } else {
            (y as i64) + (h as i64)
        };
        let dx = (cx as i64) - hx;
        let dy = (cy as i64) - hy;
        let adx = if dx < 0 {
            -dx
        } else {
            dx
        };
        let ady = if dy < 0 {
            -dy
        } else {
            dy
        };
        if adx <= margin as i64 && ady <= margin as i64 {
            return i;
        }
        i = i + 1;
    }
    -1
}

/// Keep the selection at least 6x6 and entirely inside a frame of at least
/// that size.
pub fn clamped(rect: (i32, i32, i32, i32), fw: i32, fh: i32) -> (r: (i32, i32, i32, i32))
    requires
        fw >= 6,
        fh >= 6,
    ensures
        ({
            let w = if min_int(rect.2 as int, fw as int) >= 6 {
                min_int(rect.2 as int, fw as int)
            } else {
                6
            };
            let h = if min_int(rect.3 as int, fh as int) >= 6 {
                min_int(rect.3 as int, fh as int)
            } else {
                6
            };
            r == (clamp_spec(rect.0 as int, 0, fw - w) as i32, clamp_spec(rect.1 as int, 0, fh - h) as i32, w
                as i32, h as i32)
        }),
        0 <= r.0,
        0 <= r.1,
        r.0 + r.2 <= fw,
        r.1 + r.3 <= fh,
        r.2 >= 6,
        r.3 >= 6,
{
    let (x, y, w, h) = rect;
    let w0 = if w <= fw {
        w
    } else {
        fw
    };
    let w = if w0 >= 6 {
        w0
    } else {
        6
    };
    let h0 = if h <= fh {
        h
    } else {
        fh
    };
    let h = if h0 >= 6 {
        h0
    } else {
        6
    };
    let cx = crate::arith::clamp_i32(x, 0, fw - w);
    let cy = crate::arith::clamp_i32(y, 0, fh - h);
    (cx, cy, w, h)
}

/// Division rounding toward zero, as Rust's `/` on integers.
pub open spec fn trunc_div(a: int, b: int) -> int
    recommends
        b > 0,
{
    if a >= 0 {
        a / b
    } else {
        -((-a) / b)
    }
}

/// Magnification that fits a `w x h` crop into 72% of the screen, held to
/// 4x..48x.
pub fn zoom_for(w: i32, h: i32, sw: i32, sh: i32) -> (z: i32)
    ensures
        ({
            let max_w = trunc_div(sw * 72, 100);
            let max_h = trunc_div(sh * 72, 100);
            let a = trunc_div(max_w, if w >= 1 {
                w as int
            } else {
                1
            });
            let b = trunc_div(max_h, if h >= 1 {
                h as int
            } else {
                1
            });
            let m = min_int(a, b);
            let lo = if m >= 4 {
                m
            } else {
                4
            };
            z == min_int(lo, 48)
        }),
{
    let max_w = trunc_div_i64((sw as i64) * 72, 100) as i32;
    let max_h = trunc_div_i64((sh as i64) * 72, 100) as i32;
    let ww: i32 = if w >= 1 {
        w
    } else {
        1
    };
    let hh: i32 = if h >= 1 {
        h
    } else {
        1
    };
    let a = trunc_div_i64(max_w as i64, ww as i64);
    let b = trunc_div_i64(max_h as i64, hh as i64);
    let m = if a <= b {
        a
    } else {
        b
    };
    let lo = if m >= 4 {
        m
    } else {
        4
    };
    let z = if lo <= 48 {
        lo
    } else {
        48
    };
    z as i32
}

fn trunc_div_i64(a: i64, b: i64) -> (q: i64)
    requires
        b > 0,
        a > i64::MIN,
    ensures
        q == trunc_div(a as int, b as int),
        -(a as int) <= 0 ==> 0 <= q <= a,
        a < 0 ==> a <= q <= 0,
{
    if a >= 0 {
        proof {
            assert(a / b <= a) by (nonlinear_arith)
                requires
                    a >= 0,
                    b > 0,
            ;
        }
        a / b
    } else {
        proof {
            let na: int = -(a as int);
            assert(na / (b as int) <= na) by (nonlinear_arith)
                requires
                    na >= 0,
                    b > 0,
            ;
            assert(0 <= na / (b as int)) by (nonlinear_arith)
                requires
                    na >= 0,
                    b > 0,
            ;
        }
        -((-a) / b)
    }
}

/// Screen cursor to a `(col, row)` offset inside a crop drawn at `(ox, oy)`
/// and magnified `zoom` times; floor division, so a cursor just above or left
/// of the crop is rejected rather than folded onto its first row or column.
pub fn offset_at(mx: i32, my: i32, ox: i32, oy: i32, zoom: i32, cw: i32, ch: i32) -> (r: Option<(i32, i32)>)
    requires
        zoom > 0,
        i32::MIN <= mx - ox <= i32::MAX,
        i32::MIN <= my - oy <= i32::MAX,
    ensures
        ({
            let px = (mx - ox) / (zoom as int);
            let py = (my - oy) / (zoom as int);
            r == if mx < 0 {
                None
            } else if px >= 0 && px < cw && py >= 0 && py < ch {
                Some((px as i32, py as i32))
            } else {
                None
            }
        }),
{
    if mx < 0 {
        return None;
    }
    let px = floor_div(mx - ox, zoom);
    let py = floor_div(my - oy, zoom);
    if px >= 0 && px < cw && py >= 0 && py < ch {
        Some((px, py))
    } else {
        None
    }
}

/// `a.div_euclid(b)` for a positive divisor: the floor of `a / b`.
fn floor_div(a: i32, b: i32) -> (q: i32)
    requires
        b > 0,
    ensures
        q == (a as int) / (b as int),
{
    let a64 = a as i64;
    let b64 = b as i64;
    if a64 >= 0 {
        (a64 / b64) as i32
    } else {
        let t = (-a64 + b64 - 1) / b64;
        proof {
            let n: int = -(a as int) + b - 1;
            vstd::arithmetic::div_mod::lemma_fundamental_div_mod(n, b as int);
            vstd::arithmetic::div_mod::lemma_mod_bound(n, b as int);
            assert(n == (b as int) * (t as int) + n % (b as int));
            let tt: int = t as int;
            let r: int = a + (b as int) * tt;
            assert(a == (-tt) * (b as int) + r) by (nonlinear_arith)
                requires
                    r == a + (b as int) * tt,
            ;
            vstd::arithmetic::div_mod::lemma_fundamental_div_mod_converse(a as int, b as int, -tt, r);
            assert(tt <= -(a as int)) by (nonlinear_arith)
                requires
                    (b as int) * tt <= n,
                    n == -(a as int) + b - 1,
                    b >= 1,
                    a < 0,
                    tt >= 0,
            ;
        }
        (-t) as i32
    }
}

/// Channel `k` of pixel `(col, row)` of `crop` magnified `zoom` times.
pub open spec fn magnified_byte(crop: &Frame, zoom: int, col: int, row: int, k: int) -> u8 {
    crop.byte(col / zoom, row / zoom, k)
}

/// Nearest-neighbour magnification by an integer factor: exact pixel
/// replication, cv2's `INTER_NEAREST` at an integer scale.
pub fn magnified(crop: &Frame, zoom: i32) -> (d: Dib)
    requires
        crop.wf(),
        zoom > 0,
        crop.width * zoom <= u32::MAX,
        crop.height * zoom <= u32::MAX,
        crop.width * zoom * crop.height * zoom * 4 <= usize::MAX,
    ensures
        d.width_spec() == (crop.width * zoom) as i32,
        d.height_spec() == (crop.height * zoom) as i32,
        d.bits_spec().len() == crop.width * zoom * crop.height * zoom * 4,
        forall|col: int, row: int, k: int|
            0 <= col < crop.width * zoom && 0 <= row < crop.height * zoom && 0 <= k < 4 ==> #[trigger] d.bits_spec()[(
            row * (crop.width * zoom) + col) * 4 + k] == if k == 3 {
                255u8
            } else {
                magnified_byte(crop, zoom as int, col, row, k)
            },
{
    let cw = crop.width as usize;
    let ch = crop.height as usize;
    let z = zoom as usize;
    let ow = cw * z;
    let oh = ch * z;
    assert(crop.bgr@.len() == crop.bgr.len());
    let mut bgr: Vec<u8> = Vec::new();
    let mut row: usize = 0;
    proof {
        assert(ow * oh * 3 <= ow * oh * 4) by (nonlinear_arith)
            requires
                ow * oh >= 0,
        ;
        assert(ow * oh == cw * z * ch * z) by (nonlinear_arith)
            requires
                ow == cw * z,
                oh == ch * z,
        ;
    }
    while row < oh
        invariant
            crop.wf(),
            cw == crop.width,
            ch == crop.height,
            z == zoom,
            z > 0,
            ow == cw * z,
            oh == ch * z,
            ow * oh * 3 <= usize::MAX,
            crop.bgr@.len() <= usize::MAX,
            row <= oh,
            bgr@.len() == row * ow * 3,
            forall|c: int, r: int, k: int|
                0 <= c < ow && 0 <= r < row && 0 <= k < 3 ==> #[trigger] bgr@[(r * ow + c) * 3 + k]
                    == magnified_byte(crop, z as int, c, r, k),
        decreases oh - row,
    {
        let mut col: usize = 0;
        while col < ow
            invariant
                crop.wf(),
                cw == crop.width,
                ch == crop.height,
                z == zoom,
                z > 0,
                ow == cw * z,
                oh == ch * z,
                ow * oh * 3 <= usize::MAX,
                crop.bgr@.len() <= usize::MAX,
                row < oh,
                col <= ow,
                bgr@.len() == (row * ow + col) * 3,
                forall|c: int, r: int, k: int|
                    0 <= c < ow && 0 <= r < row && 0 <= k < 3 ==> #[trigger] bgr@[(r * ow + c) * 3 + k]
                        == magnified_byte(crop, z as int, c, r, k),
                forall|c: int, k: int|
                    0 <= c < col && 0 <= k < 3 ==> #[trigger] bgr@[(row * ow + c) * 3 + k]
                        == magnified_byte(crop, z as int, c, row as int, k),
            decreases ow - col,
        {
            let sx = col / z;
            let sy = row / z;
            proof {
                assert(sx < cw) by (nonlinear_arith)
                    requires
                        col < ow,
                        ow == cw * z,
                        z > 0,
                        sx == col / z,
                ;
                assert(sy < ch) by (nonlinear_arith)
                    requires
                        row < oh,
                        oh == ch * z,
                        z > 0,
                        sy == row / z,
                ;
                crate::arith::lemma_index_in_grid(sx as int, sy as int, cw as int, ch as int);
                assert((sy * cw + sx) * 3 + 2 < cw * ch * 3) by (nonlinear_arith)
                    requires
                        sy * cw + sx < cw * ch,
                ;
                crate::arith::lemma_index_in_grid(col as int, row as int, ow as int, oh as int);
                assert((row * ow + col) * 3 + 3 <= ow * oh * 3) by (nonlinear_arith)
                    requires
                        row * ow + col + 1 <= ow * oh,
                ;
            }
            let i = (sy * cw + sx) * 3;
            let ghost before = bgr@;
            bgr.push(crop.bgr[i]);
            bgr.push(crop.bgr[i + 1]);
            bgr.push(crop.bgr[i + 2]);
            proof {
                assert forall|c: int, r: int, k: int|
                    0 <= c < ow && 0 <= r < row && 0 <= k < 3 implies #[trigger] bgr@[(r * ow + c) * 3 + k]
                        == magnified_byte(crop, z as int, c, r, k) by {
                    crate::arith::lemma_index_in_grid(c, r, ow as int, row as int);
                    assert((r * ow + c) * 3 + k < (row * ow) * 3) by (nonlinear_arith)
                        requires
                            r * ow + c < row * ow,
                            0 <= k < 3,
                    ;
                    assert((row * ow) * 3 <= (row * ow + col) * 3) by (nonlinear_arith)
                        requires
                            col >= 0,
                    ;
                    assert(bgr@[(r * ow + c) * 3 + k] == before[(r * ow + c) * 3 + k]);
                }
                assert forall|c: int, k: int|
                    0 <= c < col + 1 && 0 <= k < 3 implies #[trigger] bgr@[(row * ow + c) * 3 + k]
                        == magnified_byte(crop, z as int, c, row as int, k) by {
                    if c < col {
                        assert((row * ow + c) * 3 + k < (row * ow + col) * 3) by (nonlinear_arith)
                            requires
                                c < col,
                                0 <= k < 3,
                        ;
                        assert(bgr@[(row * ow + c) * 3 + k] == before[(row * ow + c) * 3 + k]);
                    }
                }
            }
            col = col + 1;
        }
        proof {
            assert((row + 1) * ow * 3 == (row * ow + ow) * 3) by (nonlinear_arith);
        }
        row = row + 1;
    }
    let d = Dib::from_bgr(bgr.as_slice(), (cw * z) as u32, (ch * z) as u32);
    proof {
        assert(bgr@.len() == ow * oh * 3) by (nonlinear_arith)
            requires
                bgr@.len() == oh * ow * 3,
        ;
        assert(bgr@.len() / 3 == ow * oh) by (nonlinear_arith)
            requires
                bgr@.len() == ow * oh * 3,
        ;
        assert forall|col: int, row: int, k: int|
            0 <= col < ow && 0 <= row < oh && 0 <= k < 4 implies #[trigger] d.bits_spec()[(row * ow
            + col) * 4 + k] == if k == 3 {
                255u8
            } else {
                magnified_byte(crop, zoom as int, col, row, k)
            } by {
            crate::arith::lemma_index_in_grid(col, row, ow as int, oh as int);
            crate::arith::lemma_grid_index_coords(k, row * ow + col, 4);
            assert(((row * ow + col) * 4 + k) == (row * ow + col) * 4 + k);
            assert((row * ow + col) * 4 == 4 * (row * ow + col)) by (nonlinear_arith);
        }
    }
    d
}

/// The f32 product `v * 0.42f32`, truncated as numpy's `astype(uint8)` does:
/// `0.42f32` is exactly `14092861 / 2^25`, the product is rounded to the 24
/// significant bits an `f32` keeps (ties to even), and the result truncated.
pub open spec fn darken_spec(v: u8) -> u8 {
    let p = v * 14092861int;
    let unit = if p < 0x100_0000 {
        1int
    } else if p < 0x200_0000 {
        2
    } else if p < 0x400_0000 {
        4
    } else if p < 0x800_0000 {
        8
    } else if p < 0x1000_0000 {
        16
    } else if p < 0x2000_0000 {
        32
    } else if p < 0x4000_0000 {
        64
    } else if p < 0x8000_0000 {
        128
    } else {
        256
    };
    ((round_half_even(p, unit) * unit) / 0x200_0000) as u8
}

/// One channel darkened to 42% of its brightness, the backdrop outside a
/// selection.
pub fn darken(v: u8) -> (d: u8)
    ensures
        d == darken_spec(v),
{
    let p: i64 = (v as i64) * 14092861;
    let unit: i64 = if p < 0x100_0000 {
        1
    } else if p < 0x200_0000 {
        2
    } else if p < 0x400_0000 {
        4
    } else if p < 0x800_0000 {
        8
    } else if p < 0x1000_0000 {
        16
    } else if p < 0x2000_0000 {
        32
    } else if p < 0x4000_0000 {
        64
    } else if p < 0x8000_0000 {
        128
    } else {
        256
    };
    proof {
        crate::arith::lemma_round_half_even_bound(p as int, unit as int);
    }
    let r = div_round_half_even(p, unit);
    proof {
        assert(0 <= r * unit <= 0x1_0000_0000 * 256) by (nonlinear_arith)
            requires
                0 <= r <= p,
                p <= 0x1_0000_0000,
                1 <= unit <= 256,
        ;
    }
    let q = (r * unit) / 0x200_0000;
    q as u8
}

/// The frame darkened channel by channel, as a bitmap.
pub fn darkened(frame: &Frame) -> (d: Dib)
    ensures
        d.width_spec() == frame.width as i32,
        d.height_spec() == frame.height as i32,
        d.bits_spec() == widen_bgr(Seq::new(frame.bgr@.len(), |i: int| darken_spec(frame.bgr@[i]))),
{
    let mut bgr: Vec<u8> = Vec::new();
    let mut i: usize = 0;
    while i < frame.bgr.len()
        invariant
            i <= frame.bgr@.len(),
            bgr@.len() == i,
            forall|j: int| 0 <= j < i ==> #[trigger] bgr@[j] == darken_spec(frame.bgr@[j]),
        decreases frame.bgr@.len() - i,
    {
        bgr.push(darken(frame.bgr[i]));
        i = i + 1;
    }
    proof {
        assert(bgr@ =~= Seq::new(frame.bgr@.len(), |i: int| darken_spec(frame.bgr@[i])));
    }
    Dib::from_bgr(bgr.as_slice(), frame.width, frame.height)
}


// ── Scenes ───────────────────────────────────────────────────────────────────

pub const VK_BACK: u32 = 0x08;
pub const VK_RETURN: u32 = 0x0D;
pub const VK_ESCAPE: u32 = 0x1B;
pub const VK_LEFT: u32 = 0x25;
pub const VK_UP: u32 = 0x26;
pub const VK_RIGHT: u32 = 0x27;
pub const VK_DOWN: u32 = 0x28;
pub const VK_D: u32 = 0x44;
pub const VK_G: u32 = 0x47;

/// A coordinate the pickers take: far beyond any screen, so that no
/// difference or sum of two of them leaves `i32`.
pub open spec fn screen_coord(v: int) -> bool {
    -0x1000_0000 <= v <= 0x1000_0000
}

/// The event's coordinates, if it has any, are screen coordinates.
pub open spec fn event_in_range(ev: Event) -> bool {
    match ev {
        Event::MouseMove { x, y } => screen_coord(x as int) && screen_coord(y as int),
        Event::LeftDown { x, y } => screen_coord(x as int) && screen_coord(y as int),
        Event::LeftUp { x, y } => screen_coord(x as int) && screen_coord(y as int),
        Event::RightDown { x, y } => screen_coord(x as int) && screen_coord(y as int),
        _ => true,
    }
}

/// The box spanned by a drag from `(sx, sy)` to `(cx, cy)`.
pub open spec fn drag_rect(sx: i32, sy: i32, cx: i32, cy: i32) -> Rect {
    (
        min_int(sx as int, cx as int) as i32,
        min_int(sy as int, cy as int) as i32,
        abs_int(cx - sx) as i32,
        abs_int(cy - sy) as i32,
    )
}

/// What re-aiming the hover outline at `(x, y)` leaves ([`Hover::aim`]): the
/// outline it had when that still answers for the point, else exactly what
/// the lasso gives there ([`snap_outcome`]).
pub open spec fn aimed(before: Hover, after: Hover, frame: &Frame, x: int, y: int) -> bool {
    &&& before.holds_spec(frame, x, y) ==> after@ == before@
    &&& !before.holds_spec(frame, x, y) ==> snap_outcome(frame, x, y, after@)
    &&& after@ matches Some(b) ==> before@ == Some(b) || (snap_candidate(b, frame, x, y) && b.2 >= MIN_SIDE
        && b.3 >= MIN_SIDE)
}

/// The region picker: drag a box, or click a control the lasso offers.
pub struct RegionScene {
    pub frame: Frame,
    pub dragging: bool,
    pub sx: i32,
    pub sy: i32,
    pub cx: i32,
    pub cy: i32,
    /// The control under the cursor, offered in place of a drawn box.
    pub hover: Hover,
    pub picked: Option<Rect>,
}

impl RegionScene {
    /// The scene's frame can be lassoed and its drag points are screen
    /// coordinates.
    pub open spec fn wf(&self) -> bool {
        &&& snap_frame(&self.frame)
        &&& self.hover.wf()
        &&& screen_coord(self.sx as int)
        &&& screen_coord(self.sy as int)
        &&& screen_coord(self.cx as int)
        &&& screen_coord(self.cy as int)
    }

    /// A picker over `frame`, nothing drawn or offered yet.
    pub fn new(frame: Frame) -> (s: RegionScene)
        requires
            snap_frame(&frame),
        ensures
            s.wf(),
            s.frame == frame,
            !s.dragging,
            s.sx == 0 && s.sy == 0 && s.cx == 0 && s.cy == 0,
            s.hover@ is None,
            s.picked is None,
    {
        RegionScene {
            frame,
            dragging: false,
            sx: 0,
            sy: 0,
            cx: 0,
            cy: 0,
            hover: Hover::default(),
            picked: None,
        }
    }

    /// The box being drawn.
    pub fn rect(&self) -> (r: Rect)
        requires
            self.wf(),
        ensures
            r == drag_rect(self.sx, self.sy, self.cx, self.cy),
    {
        rect_of(self.sx, self.sy, self.cx, self.cy)
    }

    /// The control currently offered.
    pub fn hover_rect(&self) -> (r: Option<Rect>)
        ensures
            r == self.hover@,
    {
        self.hover.rect()
    }

    /// Handles one overlay event. A press starts a drag (and aims the lasso at
    /// the press); moving extends the drag, or re-aims the lasso when not
    /// dragging; a release that drew a box at least 8 by 8 takes it, a
    /// smaller one takes the offered control if there is one; Escape cancels.
    pub fn event(&mut self, ev: Event) -> (f: Flow)
        requires
            old(self).wf(),
            event_in_range(ev),
        ensures
            final(self).wf(),
            final(self).frame == old(self).frame,
            match ev {
                Event::LeftDown { x, y } => {
                    &&& final(self).sx == x && final(self).cx == x
                    &&& final(self).sy == y && final(self).cy == y
                    &&& final(self).dragging
                    &&& aimed(old(self).hover, final(self).hover, &old(self).frame, x as int, y as int)
                    &&& final(self).picked == old(self).picked
                    &&& f == Flow::Repaint
                },
                Event::MouseMove { x, y } => if old(self).dragging {
                    &&& final(self).cx == x && final(self).cy == y
                    &&& final(self).sx == old(self).sx && final(self).sy == old(self).sy
                    &&& final(self).dragging
                    &&& final(self).hover@ == old(self).hover@
                    &&& final(self).picked == old(self).picked
                    &&& f == Flow::Repaint
                } else {
                    &&& final(self).sx == old(self).sx && final(self).sy == old(self).sy
                    &&& final(self).cx == old(self).cx && final(self).cy == old(self).cy
                    &&& !final(self).dragging
                    &&& aimed(old(self).hover, final(self).hover, &old(self).frame, x as int, y as int)
                    &&& final(self).picked == old(self).picked
                    &&& f == (if final(self).hover@ != old(self).hover@ {
                        Flow::Repaint
                    } else {
                        Flow::Idle
                    })
                },
                Event::LeftUp { x, y } => if old(self).dragging {
                    let r = drag_rect(old(self).sx, old(self).sy, x, y);
                    &&& !final(self).dragging
                    &&& final(self).cx == x && final(self).cy == y
                    &&& final(self).sx == old(self).sx && final(self).sy == old(self).sy
                    &&& final(self).hover@ == old(self).hover@
                    &&& if r.2 >= 8 && r.3 >= 8 {
                        final(self).picked == Some(r) && f == Flow::Close
                    } else {
                        match old(self).hover@ {
                            Some(h) => final(self).picked == Some(h) && f == Flow::Close,
                            None => final(self).picked == old(self).picked && f == Flow::Repaint,
                        }
                    }
                } else {
                    *final(self) == *old(self) && f == Flow::Idle
                },
                Event::Key { vk, .. } => *final(self) == *old(self) && f == (if vk == VK_ESCAPE {
                    Flow::Close
                } else {
                    Flow::Idle
                }),
                _ => *final(self) == *old(self) && f == Flow::Idle,
            },
    {
        match ev {
            Event::LeftDown { x, y } => {
                self.sx = x;
                self.cx = x;
                self.sy = y;
                self.cy = y;
                self.dragging = true;
                let _ = self.hover.aim(&self.frame, x, y);
                Flow::Repaint
            },
            Event::MouseMove { x, y } => {
                if self.dragging {
                    self.cx = x;
                    self.cy = y;
                    Flow::Repaint
                } else if self.hover.aim(&self.frame, x, y) {
                    Flow::Repaint
                } else {
                    Flow::Idle
                }
            },
            Event::LeftUp { x, y } => {
                if !self.dragging {
                    return Flow::Idle;
                }
                self.dragging = false;
                self.cx = x;
                self.cy = y;
                let (rx, ry, w, h) = self.rect();
                if w >= 8 && h >= 8 {
                    self.picked = Some((rx, ry, w, h));
                    return Flow::Close;
                }
                match self.hover.rect() {
                    Some(r) => {
                        self.picked = Some(r);
                        Flow::Close
                    },
                    None => Flow::Repaint,
                }
            },
            Event::Key { vk, .. } => {
                if vk == VK_ESCAPE {
                    Flow::Close
                } else {
                    Flow::Idle
                }
            },
            _ => Flow::Idle,
        }
    }

    /// The committed box, moved out; `None` when the picker was cancelled.
    pub fn take(&mut self) -> (r: Option<Rect>)
        ensures
            r == old(self).picked,
            final(self).picked is None,
            final(self).frame == old(self).frame,
            final(self).hover@ == old(self).hover@,
            final(self).hover.wf() == old(self).hover.wf(),
    {
        let r = self.picked;
        self.picked = None;
        r
    }
}

/// The colour a click sampled: where (clamped two pixels in from the edges),
/// the HSV averaged over the 5 by 5 around it, the guard range around that
/// average, the pixel's own BGR, and its `#rrggbb`.
pub struct ColorSample {
    pub x: i32,
    pub y: i32,
    pub hsv: [i32; 3],
    pub hsv_low: [i32; 3],
    pub hsv_high: [i32; 3],
    pub bgr: [u8; 3],
    pub hex: String,
}

/// Component `k` of an HSV triple.
pub open spec fn hsv_component(hsv: (u8, u8, u8), k: int) -> int {
    if k == 0 {
        hsv.0 as int
    } else if k == 1 {
        hsv.1 as int
    } else {
        hsv.2 as int
    }
}

/// HSV component `k` summed over the first `n` cells, row by row, of the 5
/// by 5 window centred on `(x, y)`.
pub open spec fn window_hsv_sum(frame: &Frame, x: int, y: int, k: int, n: int) -> int
    decreases n,
{
    if n <= 0 {
        0
    } else {
        let col = x - 2 + (n - 1) % 5;
        let row = y - 2 + (n - 1) / 5;
        window_hsv_sum(frame, x, y, k, n - 1) + hsv_component(
            hsv_spec(frame.byte(col, row, 0), frame.byte(col, row, 1), frame.byte(col, row, 2)),
            k,
        )
    }
}

/// A lower-case hexadecimal digit.
pub open spec fn hex_digit(d: int) -> char {
    if d < 10 {
        ((0x30 + d) as u32) as char
    } else {
        ((0x61 + d - 10) as u32) as char
    }
}

/// A byte as two lower-case hexadecimal digits.
pub open spec fn hex_byte(v: u8) -> Seq<char> {
    seq![hex_digit(v as int / 16), hex_digit(v as int % 16)]
}

fn hex_char(d: u8) -> (c: char)
    requires
        d < 16,
    ensures
        c == hex_digit(d as int),
{
    if d < 10 {
        (0x30 + d) as char
    } else {
        (0x61 + d - 10) as char
    }
}

/// What a click at `(x, y)` samples on `frame`.
pub open spec fn sample_spec(frame: &Frame, x: int, y: int) -> (int, int, Seq<int>, Seq<u8>) {
    let cx = clamp_spec(x, 2, frame.width - 3);
    let cy = clamp_spec(y, 2, frame.height - 3);
    (
        cx,
        cy,
        seq![
            window_hsv_sum(frame, cx, cy, 0, 25) / 25,
            window_hsv_sum(frame, cx, cy, 1, 25) / 25,
            window_hsv_sum(frame, cx, cy, 2, 25) / 25,
        ],
        seq![frame.byte(cx, cy, 0), frame.byte(cx, cy, 1), frame.byte(cx, cy, 2)],
    )
}

/// `s` is the sample a click at `(x, y)` takes ([`sample_spec`]): its point,
/// average HSV, guard range (the average widened by 10 in hue and 30 in
/// saturation and value, kept within 0..179 and 0..255), BGR and hex.
pub open spec fn sampled(frame: &Frame, x: int, y: int, s: ColorSample) -> bool {
    let (cx, cy, avg, bgr) = sample_spec(frame, x, y);
    &&& s.x == cx && s.y == cy
    &&& forall|k: int| 0 <= k < 3 ==> #[trigger] s.hsv@[k] == avg[k]
    &&& s.hsv_low@[0] == (if avg[0] - 10 > 0 { avg[0] - 10 } else { 0 })
    &&& s.hsv_low@[1] == (if avg[1] - 30 > 0 { avg[1] - 30 } else { 0 })
    &&& s.hsv_low@[2] == (if avg[2] - 30 > 0 { avg[2] - 30 } else { 0 })
    &&& s.hsv_high@[0] == (if avg[0] + 10 < 179 { avg[0] + 10 } else { 179 })
    &&& s.hsv_high@[1] == (if avg[1] + 30 < 255 { avg[1] + 30 } else { 255 })
    &&& s.hsv_high@[2] == (if avg[2] + 30 < 255 { avg[2] + 30 } else { 255 })
    &&& s.bgr@ == bgr
    &&& s.hex@ == seq!['#'] + hex_byte(bgr[2]) + hex_byte(bgr[1]) + hex_byte(bgr[0])
}

/// The colour sampled at `(x, y)`, the point clamped two pixels in from the
/// edges. The guard range is the average widened by 10 in hue and 30 in
/// saturation and value, kept within 0..179 and 0..255.
pub fn sample_color_at(frame: &Frame, x: i32, y: i32) -> (s: ColorSample)
    requires
        frame.wf(),
        5 <= frame.width <= i32::MAX,
        5 <= frame.height <= i32::MAX,
    ensures
        sampled(frame, x as int, y as int, s),
{
    let w = frame.width as i32;
    let h = frame.height as i32;
    let cx = crate::arith::clamp_i32(x, 2, w - 3);
    let cy = crate::arith::clamp_i32(y, 2, h - 3);
    let mut sums: [u32; 3] = [0, 0, 0];
    let mut n: usize = 0;
    while n < 25
        invariant
            frame.wf(),
            5 <= frame.width <= i32::MAX,
            5 <= frame.height <= i32::MAX,
            w == frame.width,
            h == frame.height,
            2 <= cx <= w - 3,
            2 <= cy <= h - 3,
            n <= 25,
            forall|k: int| 0 <= k < 3 ==> #[trigger] sums@[k] == window_hsv_sum(frame, cx as int, cy as int, k, n as int),
            forall|k: int| 0 <= k < 3 ==> #[trigger] sums@[k] <= 255 * n,
        decreases 25 - n,
    {
        let col = cx - 2 + (n % 5) as i32;
        let row = cy - 2 + (n / 5) as i32;
        let ru = row as usize;
        let wu = w as usize;
        let cu = col as usize;
        let blen = frame.bgr.len();
        proof {
            crate::arith::lemma_index_in_grid(col as int, row as int, w as int, h as int);
            assert((ru * wu + cu) * 3 + 2 < blen) by (nonlinear_arith)
                requires
                    row * w + col < w * h,
                    blen == w * h * 3,
                    ru == row,
                    wu == w,
                    cu == col,
            ;
        }
        let i = (ru * wu + cu) * 3;
        let (ph, ps, pv) = bgr_to_hsv(frame.bgr[i], frame.bgr[i + 1], frame.bgr[i + 2]);
        proof {
            assert(frame.byte(col as int, row as int, 0) == frame.bgr@[i as int]);
            assert(frame.byte(col as int, row as int, 1) == frame.bgr@[i as int + 1]);
            assert(frame.byte(col as int, row as int, 2) == frame.bgr@[i as int + 2]);
        }
        sums[0] = sums[0] + ph as u32;
        sums[1] = sums[1] + ps as u32;
        sums[2] = sums[2] + pv as u32;
        n = n + 1;
    }
    let h_avg = (sums[0] / 25) as i32;
    let s_avg = (sums[1] / 25) as i32;
    let v_avg = (sums[2] / 25) as i32;
    let yu = cy as usize;
    let wu = w as usize;
    let xu = cx as usize;
    let blen = frame.bgr.len();
    proof {
        crate::arith::lemma_index_in_grid(cx as int, cy as int, w as int, h as int);
        assert((yu * wu + xu) * 3 + 2 < blen) by (nonlinear_arith)
            requires
                cy * w + cx < w * h,
                blen == w * h * 3,
                yu == cy,
                wu == w,
                xu == cx,
        ;
    }
    let i = (yu * wu + xu) * 3;
    let (b, g, r) = (frame.bgr[i], frame.bgr[i + 1], frame.bgr[i + 2]);
    let mut hex: Vec<char> = Vec::new();
    hex.push('#');
    hex.push(hex_char(r / 16));
    hex.push(hex_char(r % 16));
    hex.push(hex_char(g / 16));
    hex.push(hex_char(g % 16));
    hex.push(hex_char(b / 16));
    hex.push(hex_char(b % 16));
    let low0 = if h_avg - 10 > 0 { h_avg - 10 } else { 0 };
    let low1 = if s_avg - 30 > 0 { s_avg - 30 } else { 0 };
    let low2 = if v_avg - 30 > 0 { v_avg - 30 } else { 0 };
    let high0 = if h_avg + 10 < 179 { h_avg + 10 } else { 179 };
    let high1 = if s_avg + 30 < 255 { s_avg + 30 } else { 255 };
    let high2 = if v_avg + 30 < 255 { v_avg + 30 } else { 255 };
    let s = ColorSample {
        x: cx,
        y: cy,
        hsv: [h_avg, s_avg, v_avg],
        hsv_low: [low0, low1, low2],
        hsv_high: [high0, high1, high2],
        bgr: [b, g, r],
        hex: string_of(&hex),
    };
    proof {
        assert(frame.byte(cx as int, cy as int, 0) == b);
        assert(frame.byte(cx as int, cy as int, 1) == g);
        assert(frame.byte(cx as int, cy as int, 2) == r);
        assert(s.hex@ =~= seq!['#'] + hex_byte(r) + hex_byte(g) + hex_byte(b));
        assert(s.bgr@ =~= sample_spec(frame, x as int, y as int).3);
    }
    s
}

/// The colour sampler: a click samples the colour under it.
pub struct ColorScene {
    pub frame: Frame,
    pub mx: i32,
    pub my: i32,
    pub picked: Option<ColorSample>,
}

impl ColorScene {
    /// A sampler over `frame`.
    pub fn new(frame: Frame) -> (s: ColorScene)
        ensures
            s.frame == frame,
            s.mx == 0 && s.my == 0,
            s.picked is None,
    {
        ColorScene { frame, mx: 0, my: 0, picked: None }
    }

    /// Handles one overlay event: moving tracks the cursor, a press samples
    /// the colour under it and closes, Escape cancels.
    pub fn event(&mut self, ev: Event) -> (f: Flow)
        requires
            old(self).frame.wf(),
            5 <= old(self).frame.width <= i32::MAX,
            5 <= old(self).frame.height <= i32::MAX,
        ensures
            final(self).frame == old(self).frame,
            match ev {
                Event::MouseMove { x, y } => final(self).mx == x && final(self).my == y
                    && final(self).picked == old(self).picked && f == Flow::Repaint,
                Event::LeftDown { x, y } => final(self).mx == old(self).mx && final(self).my == old(self).my
                    && (final(self).picked matches Some(s) && sampled(&old(self).frame, x as int, y as int, s)) && f
                    == Flow::Close,
                Event::Key { vk, .. } => final(self).mx == old(self).mx && final(self).my == old(self).my
                    && final(self).picked == old(self).picked && f == (if vk == VK_ESCAPE {
                    Flow::Close
                } else {
                    Flow::Idle
                }),
                _ => final(self).mx == old(self).mx && final(self).my == old(self).my
                    && final(self).picked == old(self).picked && f == Flow::Idle,
            },
    {
        match ev {
            Event::MouseMove { x, y } => {
                self.mx = x;
                self.my = y;
                Flow::Repaint
            },
            Event::LeftDown { x, y } => {
                self.picked = Some(sample_color_at(&self.frame, x, y));
                Flow::Close
            },
            Event::Key { vk, .. } => {
                if vk == VK_ESCAPE {
                    Flow::Close
                } else {
                    Flow::Idle
                }
            },
            _ => Flow::Idle,
        }
    }

    /// The sampled colour, moved out; `None` when cancelled.
    pub fn take(&mut self) -> (r: Option<ColorSample>)
        ensures
            r == old(self).picked,
            final(self).picked is None,
            final(self).frame == old(self).frame,
    {
        let mut r = None;
        std::mem::swap(&mut r, &mut self.picked);
        r
    }
}
} // verus!
