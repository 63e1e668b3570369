//! Captured frames and the pure pixel copies the capture backends are built on.
//!
//! The DXGI and GDI grabbers themselves are operating-system calls and live with
//! the application; what they hand over is a [`Frame`], and the arithmetic that
//! turns a padded BGRA surface into one is here.

use vstd::prelude::*;
use crate::arith::{clamp_i32, clamp_spec, lemma_index_in_grid, lemma_row_monotone};

verus! {

/// A captured frame: tightly packed BGR bytes plus its dimensions.
#[derive(Debug)]
pub struct Frame {
    /// `width * height * 3` bytes, row-major, BGR order.
    pub bgr: Vec<u8>,
    pub width: u32,
    pub height: u32,
}

impl Frame {
    /// The buffer holds three bytes per pixel.
    pub open spec fn wf(&self) -> bool {
        self.bgr@.len() == self.width * self.height * 3
    }

    /// Channel `k` (0 = B, 1 = G, 2 = R) of the pixel at `(x, y)`.
    pub open spec fn byte(&self, x: int, y: int, k: int) -> u8 {
        self.bgr@[(y * self.width + x) * 3 + k]
    }

    /// A tight sub-frame clamped to the frame's bounds; `None` when the clamped
    /// rectangle is empty.
    pub fn crop(&self, x: i32, y: i32, w: i32, h: i32) -> (r: Option<Frame>)
        requires
            self.wf(),
            self.width <= i32::MAX,
            self.height <= i32::MAX,
            i32::MIN <= x + w <= i32::MAX,
            i32::MIN <= y + h <= i32::MAX,
        ensures
            ({
                let x0 = clamp_spec(x as int, 0, self.width as int);
                let y0 = clamp_spec(y as int, 0, self.height as int);
                let cw = clamp_spec(x + w, 0, self.width as int) - x0;
                let ch = clamp_spec(y + h, 0, self.height as int) - y0;
                match r {
                    None => cw <= 0 || ch <= 0,
                    Some(f) => {
                        &&& cw > 0 && ch > 0
                        &&& f.width == cw && f.height == ch
                        &&& f.wf()
                        &&& forall|c: int, rr: int, k: int|
                            0 <= c < cw && 0 <= rr < ch && 0 <= k < 3 ==> #[trigger] f.byte(c, rr, k)
                                == self.byte(x0 + c, y0 + rr, k)
                    },
                }
            }),
    {
        let fw = self.width as i32;
        let fh = self.height as i32;
        let x0 = clamp_i32(x, 0, fw);
        let y0 = clamp_i32(y, 0, fh);
        let x1 = clamp_i32(x + w, 0, fw);
        let y1 = clamp_i32(y + h, 0, fh);
        let cw = x1 - x0;
        let ch = y1 - y0;
        if cw <= 0 || ch <= 0 {
            return None;
        }
        let fwu = self.width as usize;
        let cwu = cw as usize;
        let chu = ch as usize;
        let x0u = x0 as usize;
        let y0u = y0 as usize;
        let mut bgr: Vec<u8> = Vec::new();
        let mut row: usize = 0;
        while row < chu
            invariant
                self.wf(),
                fwu == self.width,
                chu == y1 - y0,
                cwu == x1 - x0,
                0 <= x0 <= x1 <= self.width,
                0 <= y0 <= y1 <= self.height,
                x0u == x0,
                y0u == y0,
                row <= chu,
                bgr@.len() == row * cwu * 3,
                forall|c: int, rr: int, k: int|
                    0 <= c < cwu && 0 <= rr < row && 0 <= k < 3 ==> #[trigger] bgr@[(rr * cwu + c) * 3
                        + k] == self.byte(x0 + c, y0 + rr, k),
            decreases chu - row,
        {
            let mut col: usize = 0;
            while col < cwu
                invariant
                    self.wf(),
                    fwu == self.width,
                    chu == y1 - y0,
                    cwu == x1 - x0,
                    0 <= x0 <= x1 <= self.width,
                    0 <= y0 <= y1 <= self.height,
                    x0u == x0,
                    y0u == y0,
                    row < chu,
                    col <= cwu,
                    bgr@.len() == (row * cwu + col) * 3,
                    forall|c: int, rr: int, k: int|
                        0 <= c < cwu && 0 <= rr < row && 0 <= k < 3 ==> #[trigger] bgr@[(rr * cwu + c)
                            * 3 + k] == self.byte(x0 + c, y0 + rr, k),
                    forall|c: int, k: int|
                        0 <= c < col && 0 <= k < 3 ==> #[trigger] bgr@[(row * cwu + c) * 3 + k]
                            == self.byte(x0 + c, y0 + row, k),
                decreases cwu - col,
            {
                let sx = x0u + col;
                let sy = y0u + row;
                proof {
                    lemma_index_in_grid(sx as int, sy as int, fwu as int, self.height as int);
                    assert((sy * fwu + sx) * 3 + 2 < self.width * self.height * 3) by (nonlinear_arith)
                        requires
                            sy * fwu + sx < self.width * self.height,
                    ;
                }
                assert(self.bgr@.len() == self.bgr.len());
                let base = (sy * fwu + sx) * 3;
                let ghost before = bgr@;
                bgr.push(self.bgr[base]);
                bgr.push(self.bgr[base + 1]);
                bgr.push(self.bgr[base + 2]);
                proof {
                    assert forall|c: int, rr: int, k: int|
                        0 <= c < cwu && 0 <= rr < row && 0 <= k < 3 implies #[trigger] bgr@[(rr
                            * cwu + c) * 3 + k] == self.byte(x0 + c, y0 + rr, k) by {
                        lemma_index_in_grid(c, rr, cwu as int, row as int);
                        assert((rr * cwu + c) * 3 + k < (row * cwu) * 3) by (nonlinear_arith)
                            requires
                                rr * cwu + c < row * cwu,
                                0 <= k < 3,
                        ;
                        assert((row * cwu) * 3 <= (row * cwu + col) * 3) by (nonlinear_arith)
                            requires
                                col >= 0,
                        ;
                    }
                    assert forall|c: int, k: int|
                        0 <= c < col + 1 && 0 <= k < 3 implies #[trigger] bgr@[(row * cwu + c) * 3
                            + k] == self.byte(x0 + c, y0 + row, k) by {
                        if c < col {
                            assert((row * cwu + c) * 3 + k < (row * cwu + col) * 3) by (
                            nonlinear_arith)
                                requires
                                    c < col,
                                    0 <= k < 3,
                            ;
                        } else {
                            assert((row * cwu + c) * 3 + k == (row * cwu + col) * 3 + k);
                        }
                    }
                }
                col = col + 1;
            }
            proof {
                assert((row + 1) * cwu == row * cwu + cwu) by (nonlinear_arith);
            }
            row = row + 1;
        }
        proof {
            assert(chu * cwu <= self.height * self.width) by (nonlinear_arith)
                requires
                    chu <= self.height,
                    cwu <= self.width,
            ;
            assert(chu * cwu * 3 == cwu * chu * 3) by (nonlinear_arith);
        }
        Some(Frame { bgr, width: cw as u32, height: ch as u32 })
    }
}

/// `(x1, y1, x2, y2)` capture region to `(left, top, width, height)`; `None`
/// covers the whole screen and a degenerate region floors its extent at 0.
pub fn region_rect(region: Option<(i32, i32, i32, i32)>, screen_w: i32, screen_h: i32) -> (r: (
    i32,
    i32,
    i32,
    i32,
))
    requires
        region matches Some((x1, y1, x2, y2)) ==> i32::MIN <= x2 - x1 <= i32::MAX && i32::MIN <= y2
            - y1 <= i32::MAX,
    ensures
        match region {
            Some((x1, y1, x2, y2)) => r == (x1, y1, if x2 - x1 > 0 {
                (x2 - x1) as i32
            } else {
                0i32
            }, if y2 - y1 > 0 {
                (y2 - y1) as i32
            } else {
                0i32
            }),
            None => r == (0i32, 0i32, screen_w, screen_h),
        },
{
    match region {
        Some((x1, y1, x2, y2)) => {
            let w = if x2 - x1 > 0 {
                x2 - x1
            } else {
                0
            };
            let h = if y2 - y1 > 0 {
                y2 - y1
            } else {
                0
            };
            (x1, y1, w, h)
        },
        None => (0, 0, screen_w, screen_h),
    }
}

/// The byte `bgra_to_bgr_crop` writes for channel `k` of output pixel
/// `(col, row)`: the source channel when the source pixel exists, else black.
pub open spec fn bgra_source_byte(
    src: Seq<u8>,
    row_pitch: int,
    src_w: int,
    src_h: int,
    left: int,
    top: int,
    col: int,
    row: int,
    k: int,
) -> u8 {
    let sy = top + row;
    let sx = left + col;
    let si = sy * row_pitch + sx * 4;
    if sy < src_h && sx < src_w && si + 2 < src.len() {
        src[si + k]
    } else {
        0
    }
}

/// Copy a BGRA surface whose rows are `row_pitch` bytes apart into a tight BGR
/// buffer, cropped to `(left, top, w, h)`; pixels past the source are black.
pub fn bgra_to_bgr_crop(
    src: &[u8],
    row_pitch: usize,
    src_w: usize,
    src_h: usize,
    left: usize,
    top: usize,
    w: usize,
    h: usize,
) -> (out: Vec<u8>)
    requires
        w * h * 3 <= usize::MAX,
        top + h <= usize::MAX,
        (top + h) * row_pitch + (left + w) * 4 + 3 <= usize::MAX,
    ensures
        out@.len() == w * h * 3,
        forall|col: int, row: int, k: int|
            0 <= col < w && 0 <= row < h && 0 <= k < 3 ==> #[trigger] out@[(row * w + col) * 3 + k]
                == bgra_source_byte(
                src@,
                row_pitch as int,
                src_w as int,
                src_h as int,
                left as int,
                top as int,
                col,
                row,
                k,
            ),
{
    let n = w * h * 3;
    let mut out: Vec<u8> = Vec::new();
    let mut row: usize = 0;
    while row < h
        invariant
            n == w * h * 3,
            top + h <= usize::MAX,
            (top + h) * row_pitch + (left + w) * 4 + 3 <= usize::MAX,
            row <= h,
            out@.len() == row * w * 3,
            forall|col: int, rr: int, k: int|
                0 <= col < w && 0 <= rr < row && 0 <= k < 3 ==> #[trigger] out@[(rr * w + col) * 3 + k]
                    == bgra_source_byte(
                    src@,
                    row_pitch as int,
                    src_w as int,
                    src_h as int,
                    left as int,
                    top as int,
                    col,
                    rr,
                    k,
                ),
        decreases h - row,
    {
        let mut col: usize = 0;
        while col < w
            invariant
                n == w * h * 3,
                top + h <= usize::MAX,
                (top + h) * row_pitch + (left + w) * 4 + 3 <= usize::MAX,
                row < h,
                col <= w,
                out@.len() == (row * w + col) * 3,
                forall|c: int, rr: int, k: int|
                    0 <= c < w && 0 <= rr < row && 0 <= k < 3 ==> #[trigger] out@[(rr * w + c) * 3 + k]
                        == bgra_source_byte(
                        src@,
                        row_pitch as int,
                        src_w as int,
                        src_h as int,
                        left as int,
                        top as int,
                        c,
                        rr,
                        k,
                    ),
                forall|c: int, k: int|
                    0 <= c < col && 0 <= k < 3 ==> #[trigger] out@[(row * w + c) * 3 + k]
                        == bgra_source_byte(
                        src@,
                        row_pitch as int,
                        src_w as int,
                        src_h as int,
                        left as int,
                        top as int,
                        c,
                        row as int,
                        k,
                    ),
            decreases w - col,
        {
            let sy = top + row;
            let sx = left + col;
            proof {
                assert(sy * row_pitch + sx * 4 + 2 <= (top + h) * row_pitch + (left + w) * 4 + 3)
                    by (nonlinear_arith)
                    requires
                        sy < top + h,
                        sx < left + w,
                ;
            }
            let si = sy * row_pitch + sx * 4;
            let ghost before = out@;
            if sy < src_h && sx < src_w && si + 2 < src.len() {
                out.push(src[si]);
                out.push(src[si + 1]);
                out.push(src[si + 2]);
            } else {
                out.push(0);
                out.push(0);
                out.push(0);
            }
            proof {
                assert forall|c: int, rr: int, k: int|
                    0 <= c < w && 0 <= rr < row && 0 <= k < 3 implies #[trigger] out@[(rr * w + c) * 3
                        + k] == bgra_source_byte(
                        src@,
                        row_pitch as int,
                        src_w as int,
                        src_h as int,
                        left as int,
                        top as int,
                        c,
                        rr,
                        k,
                    ) by {
                    lemma_index_in_grid(c, rr, w as int, row as int);
                    assert((rr * w + c) * 3 + k < (row * w + col) * 3) by (nonlinear_arith)
                        requires
                            rr * w + c < row * w,
                            0 <= k < 3,
                            col >= 0,
                    ;
                    assert(out@[(rr * w + c) * 3 + k] == before[(rr * w + c) * 3 + k]);
                }
                assert forall|c: int, k: int|
                    0 <= c < col + 1 && 0 <= k < 3 implies #[trigger] out@[(row * w + c) * 3 + k]
                        == bgra_source_byte(
                        src@,
                        row_pitch as int,
                        src_w as int,
                        src_h as int,
                        left as int,
                        top as int,
                        c,
                        row as int,
                        k,
                    ) by {
                    if c < col {
                        assert((row * w + c) * 3 + k < (row * w + col) * 3) by (nonlinear_arith)
                            requires
                                c < col,
                                0 <= k < 3,
                        ;
                        assert(out@[(row * w + c) * 3 + k] == before[(row * w + c) * 3 + k]);
                    }
                }
            }
            col = col + 1;
        }
        proof {
            assert((row + 1) * w * 3 == (row * w + w) * 3) by (nonlinear_arith);
        }
        row = row + 1;
    }
    proof {
        assert(h * w * 3 == w * h * 3) by (nonlinear_arith);
    }
    out
}

} // verus!
