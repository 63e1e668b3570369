//! The OpenCV operations the detector is built from, as integer arithmetic.
//!
//! Each function reproduces one `cv2.*` call exactly: the guard thresholds users
//! tune were produced by OpenCV's fixed-point rounding, so a colour that
//! quantises one step differently is a guard that silently stops firing.

use vstd::prelude::*;
use crate::hardware::vision::canny::adjacent8;
use crate::arith::{
    clamp_i32, clamp_spec, div_round_half_even, lemma_grid_coords, lemma_grid_index_coords,
    lemma_index_in_grid, lemma_round_half_even_bound, lemma_row_monotone, round_half_even,
};

verus! {

/// A single-channel 8-bit image, tightly packed, row-major.
#[derive(Debug, PartialEq, Eq)]
pub struct Gray {
    pub w: usize,
    pub h: usize,
    pub data: Vec<u8>,
}

impl Gray {
    /// The buffer holds exactly one byte per pixel.
    pub open spec fn wf(&self) -> bool {
        self.data@.len() == self.w * self.h
    }

    /// The pixel at column `x`, row `y`.
    pub open spec fn px(&self, x: int, y: int) -> u8 {
        self.data@[y * self.w + x]
    }

    /// A `w` by `h` image, all zero.
    pub fn new(w: usize, h: usize) -> (g: Gray)
        requires
            w * h <= usize::MAX,
        ensures
            g.w == w,
            g.h == h,
            g.wf(),
            forall|i: int| 0 <= i < w * h ==> g.data@[i] == 0,
    {
        let n = w * h;
        Gray { w, h, data: vec![0u8; n] }
    }

    /// Wrap a buffer that already holds `w * h` pixels.
    pub fn from_vec(w: usize, h: usize, data: Vec<u8>) -> (g: Gray)
        requires
            data@.len() == w * h,
        ensures
            g.w == w,
            g.h == h,
            g.data@ == data@,
            g.wf(),
    {
        Gray { w, h, data }
    }

    /// A copy of the image.
    pub fn duplicate(&self) -> (g: Gray)
        ensures
            g.w == self.w,
            g.h == self.h,
            g.data@ == self.data@,
    {
        Gray { w: self.w, h: self.h, data: self.data.clone() }
    }

    /// The pixel at `(x, y)`.
    pub fn at(&self, x: usize, y: usize) -> (v: u8)
        requires
            self.wf(),
            x < self.w,
            y < self.h,
        ensures
            v == self.px(x as int, y as int),
    {
        proof {
            lemma_index_in_grid(x as int, y as int, self.w as int, self.h as int);
        }
        assert(self.data@.len() == self.data.len());
        self.data[y * self.w + x]
    }

    /// Overwrite the pixel at `(x, y)`.
    pub fn set(&mut self, x: usize, y: usize, v: u8)
        requires
            old(self).wf(),
            x < old(self).w,
            y < old(self).h,
        ensures
            final(self).w == old(self).w,
            final(self).h == old(self).h,
            final(self).wf(),
            final(self).data@ == old(self).data@.update(y * old(self).w + x, v),
    {
        proof {
            lemma_index_in_grid(x as int, y as int, self.w as int, self.h as int);
        }
        assert(self.data@.len() == self.data.len());
        let i = y * self.w + x;
        self.data.set(i, v);
    }

    /// Whether either dimension is zero.
    pub fn is_empty(&self) -> (b: bool)
        ensures
            b == (self.w == 0 || self.h == 0),
    {
        self.w == 0 || self.h == 0
    }

    /// `cv2.countNonZero`.
    pub fn count_nonzero(&self) -> (n: usize)
        ensures
            n == count_nonzero_seq(self.data@),
    {
        let mut n: usize = 0;
        let mut i: usize = 0;
        while i < self.data.len()
            invariant
                i <= self.data@.len(),
                n == count_nonzero_seq(self.data@.take(i as int)),
                n <= i,
            decreases self.data@.len() - i,
        {
            proof {
                assert(self.data@.take(i as int + 1).drop_last() == self.data@.take(i as int));
            }
            if self.data[i] != 0 {
                n = n + 1;
            }
            i = i + 1;
        }
        proof {
            assert(self.data@.take(i as int) == self.data@);
        }
        n
    }

    /// A tight sub-image, clamped to bounds; `None` when the clamped rectangle
    /// is empty or inverted.
    pub fn crop(&self, x: i32, y: i32, w: i32, h: i32) -> (r: Option<Gray>)
        requires
            self.wf(),
            self.w <= i32::MAX,
            self.h <= i32::MAX,
            i32::MIN <= x + w <= i32::MAX,
            i32::MIN <= y + h <= i32::MAX,
        ensures
            ({
                let x0 = clamp_spec(x as int, 0, self.w as int);
                let y0 = clamp_spec(y as int, 0, self.h as int);
                let cw = clamp_spec(x + w, 0, self.w as int) - x0;
                let ch = clamp_spec(y + h, 0, self.h as int) - y0;
                match r {
                    None => cw <= 0 || ch <= 0,
                    Some(g) => {
                        &&& cw > 0 && ch > 0
                        &&& g.w == cw && g.h == ch
                        &&& g.wf()
                        &&& forall|c: int, rr: int|
                            0 <= c < cw && 0 <= rr < ch ==> #[trigger] g.px(c, rr) == self.px(
                                x0 + c,
                                y0 + rr,
                            )
                    },
                }
            }),
    {
        let fw = self.w as i32;
        let fh = self.h as i32;
        let x0 = clamp_i32(x, 0, fw);
        let y0 = clamp_i32(y, 0, fh);
        let x1 = clamp_i32(x + w, 0, fw);
        let y1 = clamp_i32(y + h, 0, fh);
        if x1 <= x0 || y1 <= y0 {
            return None;
        }
        let cw = (x1 - x0) as usize;
        let ch = (y1 - y0) as usize;
        let x0u = x0 as usize;
        let y0u = y0 as usize;
        let mut data: Vec<u8> = Vec::new();
        let mut row: usize = 0;
        while row < ch
            invariant
                self.wf(),
                ch == y1 - y0,
                cw == x1 - x0,
                0 <= x0 <= x1 <= self.w,
                0 <= y0 <= y1 <= self.h,
                x0u == x0,
                y0u == y0,
                row <= ch,
                data@.len() == row * cw,
                forall|c: int, rr: int|
                    0 <= c < cw && 0 <= rr < row ==> #[trigger] data@[rr * cw + c] == self.px(
                        x0 + c,
                        y0 + rr,
                    ),
            decreases ch - row,
        {
            let mut col: usize = 0;
            while col < cw
                invariant
                    self.wf(),
                    ch == y1 - y0,
                    cw == x1 - x0,
                    0 <= x0 <= x1 <= self.w,
                    0 <= y0 <= y1 <= self.h,
                    x0u == x0,
                    y0u == y0,
                    row < ch,
                    col <= cw,
                    data@.len() == row * cw + col,
                    forall|c: int, rr: int|
                        0 <= c < cw && 0 <= rr < row ==> #[trigger] data@[rr * cw + c]
                            == self.px(x0 + c, y0 + rr),
                    forall|c: int| 0 <= c < col ==> #[trigger] data@[row * cw + c] == self.px(x0 + c, y0 + row),
                decreases cw - col,
            {
                let v = self.at(x0u + col, y0u + row);
                let ghost before = data@;
                data.push(v);
                proof {
                    assert forall|c: int, rr: int|
                        0 <= c < cw && 0 <= rr < row implies #[trigger] data@[rr * cw + c] == self.px(
                        x0 + c,
                        y0 + rr,
                    ) by {
                        lemma_index_in_grid(c, rr, cw as int, row as int);
                        assert(data@[rr * cw + c] == before[rr * cw + c]);
                    }
                    assert forall|c: int| 0 <= c < col + 1 implies #[trigger] data@[row * cw + c]
                        == self.px(x0 + c, y0 + row) by {
                        if c < col {
                            assert(data@[row * cw + c] == before[row * cw + c]);
                        }
                    }
                }
                col = col + 1;
            }
            proof {
                assert((row + 1) * cw == row * cw + cw) by (nonlinear_arith);
            }
            row = row + 1;
        }
        proof {
            lemma_row_monotone(ch as int, self.h as int, cw as int);
            assert(ch * cw <= self.h * self.w) by (nonlinear_arith)
                requires
                    ch <= self.h,
                    cw <= self.w,
            ;
        }
        Some(Gray::from_vec(cw, ch, data))
    }
}

// ── Colour conversion ────────────────────────────────────────────────────────

/// `cv2.COLOR_BGR2GRAY`: fixed-point luma with 14 fractional bits, OpenCV's
/// `RGB2Gray` coefficients.
pub open spec fn luma(b: u8, g: u8, r: u8) -> u8 {
    ((b * 1868 + g * 9617 + r * 4899 + 8192) / 16384) as u8
}

/// `cv2.cvtColor(bgr, COLOR_BGR2GRAY)` over the first `w * h` pixels of `bgr`.
pub fn bgr_to_gray(bgr: &[u8], w: usize, h: usize) -> (g: Gray)
    requires
        bgr@.len() >= w * h * 3,
        w * h * 3 <= usize::MAX,
    ensures
        g.w == w,
        g.h == h,
        g.wf(),
        forall|i: int|
            0 <= i < w * h ==> #[trigger] g.data@[i] == luma(
                bgr@[3 * i],
                bgr@[3 * i + 1],
                bgr@[3 * i + 2],
            ),
{
    let n = w * h;
    let mut data: Vec<u8> = Vec::new();
    let mut i: usize = 0;
    while i < n
        invariant
            n == w * h,
            n * 3 <= usize::MAX,
            bgr@.len() >= n * 3,
            i <= n,
            data@.len() == i,
            forall|j: int|
                0 <= j < i ==> #[trigger] data@[j] == luma(bgr@[3 * j], bgr@[3 * j + 1], bgr@[3 * j + 2]),
        decreases n - i,
    {
        let b = bgr[3 * i] as i32;
        let gg = bgr[3 * i + 1] as i32;
        let r = bgr[3 * i + 2] as i32;
        let y = (b * 1868 + gg * 9617 + r * 4899 + 8192) / 16384;
        data.push(y as u8);
        i = i + 1;
    }
    Gray::from_vec(w, h, data)
}

/// `cvRound(255 * 2^12 / i)`: the reciprocal saturation is scaled by, 0 at 0.
pub open spec fn sdiv_spec(i: int) -> int {
    if i == 0 {
        0
    } else {
        round_half_even(1044480int, i)
    }
}

/// `cvRound(180 * 2^12 / (6 * i))`: the hue reciprocal, 0 at 0.
pub open spec fn hdiv_spec(i: int) -> int {
    if i == 0 {
        0
    } else {
        round_half_even(737280int, 6 * i)
    }
}

/// One entry of OpenCV's saturation reciprocal table.
pub fn sdiv_entry(i: i32) -> (r: i32)
    requires
        0 <= i < 256,
    ensures
        r == sdiv_spec(i as int),
        0 <= r <= 255 * 4096,
{
    if i == 0 {
        0
    } else {
        proof {
            lemma_round_half_even_bound(1044480int, i as int);
        }
        div_round_half_even(255 * 4096, i as i64) as i32
    }
}

/// One entry of OpenCV's hue reciprocal table.
pub fn hdiv_entry(i: i32) -> (r: i32)
    requires
        0 <= i < 256,
    ensures
        r == hdiv_spec(i as int),
        0 <= r <= 180 * 4096,
{
    if i == 0 {
        0
    } else {
        proof {
            lemma_round_half_even_bound(737280int, 6 * i as int);
        }
        div_round_half_even(180 * 4096, 6 * i as i64) as i32
    }
}

/// The whole 256-entry saturation reciprocal table.
pub fn sdiv_table() -> (t: Vec<i32>)
    ensures
        t@.len() == 256,
        forall|i: int| 0 <= i < 256 ==> #[trigger] t@[i] == sdiv_spec(i),
{
    let mut t: Vec<i32> = Vec::new();
    let mut i: i32 = 0;
    while i < 256
        invariant
            0 <= i <= 256,
            t@.len() == i,
            forall|j: int| 0 <= j < i ==> #[trigger] t@[j] == sdiv_spec(j),
        decreases 256 - i,
    {
        t.push(sdiv_entry(i));
        i = i + 1;
    }
    t
}

/// The whole 256-entry hue reciprocal table.
pub fn hdiv_table() -> (t: Vec<i32>)
    ensures
        t@.len() == 256,
        forall|i: int| 0 <= i < 256 ==> #[trigger] t@[i] == hdiv_spec(i),
{
    let mut t: Vec<i32> = Vec::new();
    let mut i: i32 = 0;
    while i < 256
        invariant
            0 <= i <= 256,
            t@.len() == i,
            forall|j: int| 0 <= j < i ==> #[trigger] t@[j] == hdiv_spec(j),
        decreases 256 - i,
    {
        t.push(hdiv_entry(i));
        i = i + 1;
    }
    t
}

pub open spec fn max3(a: int, b: int, c: int) -> int {
    let m = if a >= b { a } else { b };
    if m >= c { m } else { c }
}

pub open spec fn min3(a: int, b: int, c: int) -> int {
    let m = if a <= b { a } else { b };
    if m <= c { m } else { c }
}

/// The raw hue numerator: which 60-degree sector the maximum channel picks.
pub open spec fn hue_numerator(b: int, g: int, r: int) -> int {
    let v = max3(b, g, r);
    let diff = v - min3(b, g, r);
    if v == r {
        g - b
    } else if v == g {
        b - r + 2 * diff
    } else {
        r - g + 4 * diff
    }
}

/// OpenCV's `RGB2HSV_b` for one pixel: hue on 0..179 by the table-driven
/// fixed-point rounding, saturation, and value.
pub open spec fn hsv_spec(b: u8, g: u8, r: u8) -> (u8, u8, u8) {
    let v = max3(b as int, g as int, r as int);
    let diff = v - min3(b as int, g as int, r as int);
    let s = (diff * sdiv_spec(v) + 2048) / 4096;
    let h1 = (hue_numerator(b as int, g as int, r as int) * hdiv_spec(diff) + 2048) / 4096;
    let h = if h1 < 0 {
        h1 + 180
    } else {
        h1
    };
    (h as u8, s as u8, v as u8)
}

/// One pixel through `cv2.cvtColor(..., cv2.COLOR_BGR2HSV)`.
pub fn bgr_to_hsv(b: u8, g: u8, r: u8) -> (hsv: (u8, u8, u8))
    ensures
        hsv == hsv_spec(b, g, r),
{
    let bi = b as i32;
    let gi = g as i32;
    let ri = r as i32;
    let m = if bi >= gi { bi } else { gi };
    let v = if m >= ri { m } else { ri };
    let n = if bi <= gi { bi } else { gi };
    let vmin = if n <= ri { n } else { ri };
    let diff = v - vmin;
    let sd = sdiv_entry(v);
    proof {
        assert(diff * sd <= 255 * (255 * 4096)) by (nonlinear_arith)
            requires
                0 <= diff <= 255,
                0 <= sd <= 255 * 4096,
        ;
        assert(0 <= diff * sd) by (nonlinear_arith)
            requires
                0 <= diff,
                0 <= sd,
        ;
    }
    let s = (diff * sd + 2048) / 4096;
    let num = if v == ri {
        gi - bi
    } else if v == gi {
        bi - ri + 2 * diff
    } else {
        ri - gi + 4 * diff
    };
    let hd = hdiv_entry(diff);
    proof {
        assert(-1300 <= num <= 1300);
        assert(-1300 * (180 * 4096) <= num * hd <= 1300 * (180 * 4096)) by (nonlinear_arith)
            requires
                -1300 <= num <= 1300,
                0 <= hd <= 180 * 4096,
        ;
    }
    let t = num * hd + 2048;
    let h1 = if t >= 0 {
        t / 4096
    } else {
        -((-t + 4095) / 4096)
    };
    proof {
        if t < 0 {
            let q = (-t + 4095) / 4096;
            vstd::arithmetic::div_mod::lemma_fundamental_div_mod(-t + 4095, 4096);
            vstd::arithmetic::div_mod::lemma_mod_bound(-t + 4095, 4096);
            vstd::arithmetic::div_mod::lemma_fundamental_div_mod_converse(
                t as int,
                4096,
                -q,
                t + 4096 * q,
            );
        }
    }
    let h = if h1 < 0 {
        h1 + 180
    } else {
        h1
    };
    (h as u8, s as u8, v as u8)
}

/// Whether an HSV triple lies inside `[lower, upper]` on every channel.
pub open spec fn hsv_within(hsv: (u8, u8, u8), lower: Seq<u8>, upper: Seq<u8>) -> bool {
    &&& lower[0] <= hsv.0 <= upper[0]
    &&& lower[1] <= hsv.1 <= upper[1]
    &&& lower[2] <= hsv.2 <= upper[2]
}

/// `cv2.inRange(cv2.cvtColor(bgr, COLOR_BGR2HSV), lower, upper)`, fused: 255
/// where the pixel's HSV lies inside the band on every channel, else 0.
pub fn hsv_in_range(bgr: &[u8], w: usize, h: usize, lower: [u8; 3], upper: [u8; 3]) -> (m: Gray)
    requires
        bgr@.len() >= w * h * 3,
        w * h * 3 <= usize::MAX,
    ensures
        m.w == w,
        m.h == h,
        m.wf(),
        forall|i: int|
            0 <= i < w * h ==> #[trigger] m.data@[i] == if hsv_within(
                hsv_spec(bgr@[3 * i], bgr@[3 * i + 1], bgr@[3 * i + 2]),
                lower@,
                upper@,
            ) {
                255u8
            } else {
                0u8
            },
{
    let n = w * h;
    let mut data: Vec<u8> = Vec::new();
    let mut i: usize = 0;
    while i < n
        invariant
            n == w * h,
            n * 3 <= usize::MAX,
            bgr@.len() >= n * 3,
            i <= n,
            data@.len() == i,
            forall|j: int|
                0 <= j < i ==> #[trigger] data@[j] == if hsv_within(
                    hsv_spec(bgr@[3 * j], bgr@[3 * j + 1], bgr@[3 * j + 2]),
                    lower@,
                    upper@,
                ) {
                    255u8
                } else {
                    0u8
                },
        decreases n - i,
    {
        let (hh, ss, vv) = bgr_to_hsv(bgr[3 * i], bgr[3 * i + 1], bgr[3 * i + 2]);
        let hit = hh >= lower[0] && hh <= upper[0] && ss >= lower[1] && ss <= upper[1] && vv
            >= lower[2] && vv <= upper[2];
        data.push(
            if hit {
                255
            } else {
                0
            },
        );
        i = i + 1;
    }
    Gray::from_vec(w, h, data)
}

// ── Morphology ───────────────────────────────────────────────────────────────

/// A pixel of a `w` by `h` image held as `s`, with everything outside the image
/// reading as `outside` (OpenCV's default morphology border).
pub open spec fn sample(w: int, h: int, s: Seq<u8>, x: int, y: int, outside: u8) -> u8 {
    if x < 0 || y < 0 || x >= w || y >= h {
        outside
    } else {
        s[y * w + x]
    }
}

/// The neutral border for a pass: `-inf` for a dilation, `+inf` for an erosion.
pub open spec fn border_value(take_max: bool) -> u8 {
    if take_max {
        0
    } else {
        255
    }
}

pub open spec fn pick(a: u8, b: u8, take_max: bool) -> u8 {
    if take_max {
        if a >= b {
            a
        } else {
            b
        }
    } else {
        if a <= b {
            a
        } else {
            b
        }
    }
}

/// Whether tap `k` (row-major over the kernel) belongs to the kernel: every tap
/// of the 3x3 rectangle, and at 5x5 OpenCV's `MORPH_ELLIPSE`, which leaves out
/// the two outer taps on each side of the top and bottom rows.
pub open spec fn kernel_tap(k: int, ellipse: bool) -> bool {
    !ellipse || !(k == 0 || k == 1 || k == 3 || k == 4 || k == 20 || k == 21 || k == 23 || k == 24)
}

/// The kernel's side: 3 for the rectangle, 5 for the ellipse.
pub open spec fn kernel_side(ellipse: bool) -> int {
    if ellipse {
        5
    } else {
        3
    }
}

/// The min or max over the first `k` kernel taps around `(x, y)`.
pub open spec fn fold_taps(
    w: int,
    h: int,
    s: Seq<u8>,
    x: int,
    y: int,
    take_max: bool,
    ellipse: bool,
    k: nat,
) -> u8
    decreases k,
{
    if k == 0 {
        border_value(take_max)
    } else {
        let prev = fold_taps(w, h, s, x, y, take_max, ellipse, (k - 1) as nat);
        let side = kernel_side(ellipse);
        let t = k - 1;
        if kernel_tap(t, ellipse) {
            pick(
                prev,
                sample(w, h, s, x + t % side - side / 2, y + t / side - side / 2, border_value(take_max)),
                take_max,
            )
        } else {
            prev
        }
    }
}

/// One full erosion or dilation pass over the image.
pub open spec fn pass_seq(w: int, h: int, s: Seq<u8>, take_max: bool, ellipse: bool) -> Seq<u8> {
    Seq::new(
        (w * h) as nat,
        |i: int|
            fold_taps(
                w,
                h,
                s,
                i % w,
                i / w,
                take_max,
                ellipse,
                (kernel_side(ellipse) * kernel_side(ellipse)) as nat,
            ),
    )
}

/// `n` passes in a row.
pub open spec fn passes(w: int, h: int, s: Seq<u8>, take_max: bool, ellipse: bool, n: nat) -> Seq<u8>
    decreases n,
{
    if n == 0 {
        s
    } else {
        pass_seq(w, h, passes(w, h, s, take_max, ellipse, (n - 1) as nat), take_max, ellipse)
    }
}

/// One erosion (`take_max == false`) or dilation pass with the 3x3 rectangle
/// or the 5x5 ellipse.
pub fn morph_pass(src: &Gray, take_max: bool, ellipse: bool) -> (out: Gray)
    requires
        src.wf(),
    ensures
        out.w == src.w,
        out.h == src.h,
        out.wf(),
        out.data@ == pass_seq(src.w as int, src.h as int, src.data@, take_max, ellipse),
{
    let w = src.w;
    let h = src.h;
    assert(src.data@.len() == src.data.len());
    let side: usize = if ellipse {
        5
    } else {
        3
    };
    let half: usize = side / 2;
    let taps: usize = side * side;
    let outside: u8 = if take_max {
        0
    } else {
        255
    };
    let mut data: Vec<u8> = Vec::new();
    let mut y: usize = 0;
    while y < h
        invariant
            src.wf(),
            w == src.w,
            h == src.h,
            w * h <= usize::MAX,
            side == kernel_side(ellipse),
            half == side / 2,
            taps == side * side,
            outside == border_value(take_max),
            y <= h,
            data@.len() == y * w,
            forall|j: int|
                0 <= j < y * w ==> #[trigger] data@[j] == fold_taps(
                    w as int,
                    h as int,
                    src.data@,
                    j % (w as int),
                    j / (w as int),
                    take_max,
                    ellipse,
                    taps as nat,
                ),
        decreases h - y,
    {
        let mut x: usize = 0;
        while x < w
            invariant
                src.wf(),
                w == src.w,
                h == src.h,
                w * h <= usize::MAX,
                side == kernel_side(ellipse),
                half == side / 2,
                taps == side * side,
                outside == border_value(take_max),
                y < h,
                x <= w,
                data@.len() == y * w + x,
                forall|j: int|
                    0 <= j < y * w + x ==> #[trigger] data@[j] == fold_taps(
                        w as int,
                        h as int,
                        src.data@,
                        j % (w as int),
                        j / (w as int),
                        take_max,
                        ellipse,
                        taps as nat,
                    ),
            decreases w - x,
        {
            let mut acc: u8 = outside;
            let mut k: usize = 0;
            while k < taps
                invariant
                    src.wf(),
                    w == src.w,
                    h == src.h,
                    side == kernel_side(ellipse),
                    half == side / 2,
                    taps == side * side,
                    outside == border_value(take_max),
                    y < h,
                    x < w,
                    k <= taps,
                    acc == fold_taps(
                        w as int,
                        h as int,
                        src.data@,
                        x as int,
                        y as int,
                        take_max,
                        ellipse,
                        k as nat,
                    ),
                decreases taps - k,
            {
                let on = !ellipse || !(k == 0 || k == 1 || k == 3 || k == 4 || k == 20 || k == 21 || k
                    == 23 || k == 24);
                if on {
                    let kx = k % side;
                    let ky = k / side;
                    let inside = if kx < half {
                        x >= half - kx
                    } else {
                        kx - half < w - x
                    } && if ky < half {
                        y >= half - ky
                    } else {
                        ky - half < h - y
                    };
                    let v = if !inside {
                        outside
                    } else {
                        let nx = if kx < half {
                            x - (half - kx)
                        } else {
                            x + (kx - half)
                        };
                        let ny = if ky < half {
                            y - (half - ky)
                        } else {
                            y + (ky - half)
                        };
                        src.at(nx, ny)
                    };
                    acc = if take_max {
                        if acc >= v {
                            acc
                        } else {
                            v
                        }
                    } else {
                        if acc <= v {
                            acc
                        } else {
                            v
                        }
                    };
                }
                k = k + 1;
            }
            proof {
                lemma_grid_index_coords(x as int, y as int, w as int);
                lemma_index_in_grid(x as int, y as int, w as int, h as int);
            }
            data.push(acc);
            x = x + 1;
        }
        proof {
            assert((y + 1) * w == y * w + w) by (nonlinear_arith);
        }
        y = y + 1;
    }
    proof {
        assert(h * w == w * h) by (nonlinear_arith);
    }
    let out = Gray::from_vec(w, h, data);
    proof {
        assert(out.data@ =~= pass_seq(w as int, h as int, src.data@, take_max, ellipse));
    }
    out
}

/// `n` passes of [`morph_pass`].
pub fn morph_passes(src: &Gray, take_max: bool, ellipse: bool, n: usize) -> (out: Gray)
    requires
        src.wf(),
    ensures
        out.w == src.w,
        out.h == src.h,
        out.wf(),
        out.data@ == passes(src.w as int, src.h as int, src.data@, take_max, ellipse, n as nat),
{
    let mut m = src.duplicate();
    let mut i: usize = 0;
    while i < n
        invariant
            src.wf(),
            m.w == src.w,
            m.h == src.h,
            m.wf(),
            i <= n,
            m.data@ == passes(src.w as int, src.h as int, src.data@, take_max, ellipse, i as nat),
        decreases n - i,
    {
        m = morph_pass(&m, take_max, ellipse);
        i = i + 1;
    }
    m
}

/// `cv2.morphologyEx(..., MORPH_OPEN, 3x3 rect, iterations)`: every erosion,
/// then every dilation.
pub fn morph_open(src: &Gray, iterations: usize) -> (out: Gray)
    requires
        src.wf(),
    ensures
        out.w == src.w,
        out.h == src.h,
        out.wf(),
        out.data@ == passes(
            src.w as int,
            src.h as int,
            passes(src.w as int, src.h as int, src.data@, false, false, iterations as nat),
            true,
            false,
            iterations as nat,
        ),
{
    let eroded = morph_passes(src, false, false, iterations);
    morph_passes(&eroded, true, false, iterations)
}

/// `cv2.morphologyEx(..., MORPH_CLOSE, 3x3 rect, iterations)`: every dilation
/// before every erosion, which is not the same as repeating a full close.
pub fn morph_close(src: &Gray, iterations: usize) -> (out: Gray)
    requires
        src.wf(),
    ensures
        out.w == src.w,
        out.h == src.h,
        out.wf(),
        out.data@ == passes(
            src.w as int,
            src.h as int,
            passes(src.w as int, src.h as int, src.data@, true, false, iterations as nat),
            false,
            false,
            iterations as nat,
        ),
{
    let dilated = morph_passes(src, true, false, iterations);
    morph_passes(&dilated, false, false, iterations)
}

/// `cv2.dilate` with the 5x5 elliptical kernel.
pub fn dilate_ellipse5(src: &Gray, iterations: usize) -> (out: Gray)
    requires
        src.wf(),
    ensures
        out.w == src.w,
        out.h == src.h,
        out.wf(),
        out.data@ == passes(src.w as int, src.h as int, src.data@, true, true, iterations as nat),
{
    morph_passes(src, true, true, iterations)
}

/// `cv2.morphologyEx(..., MORPH_CLOSE, 5x5 ellipse, iterations)`.
pub fn morph_close_ellipse5(src: &Gray, iterations: usize) -> (out: Gray)
    requires
        src.wf(),
    ensures
        out.w == src.w,
        out.h == src.h,
        out.wf(),
        out.data@ == passes(
            src.w as int,
            src.h as int,
            passes(src.w as int, src.h as int, src.data@, true, true, iterations as nat),
            false,
            true,
            iterations as nat,
        ),
{
    let dilated = morph_passes(src, true, true, iterations);
    morph_passes(&dilated, false, true, iterations)
}

// ── Flood fill ───────────────────────────────────────────────────────────────

/// How many entries of `s` equal `v`.
pub open spec fn count_eq<A>(s: Seq<A>, v: A) -> nat
    decreases s.len(),
{
    if s.len() == 0 {
        0
    } else {
        count_eq(s.drop_last(), v) + if s.last() == v {
            1nat
        } else {
            0nat
        }
    }
}

/// A sequence made entirely of `v` counts every entry.
pub proof fn lemma_count_eq_all<A>(s: Seq<A>, v: A)
    requires
        forall|i: int| 0 <= i < s.len() ==> s[i] == v,
    ensures
        count_eq(s, v) == s.len(),
    decreases s.len(),
{
    if s.len() > 0 {
        lemma_count_eq_all(s.drop_last(), v);
    }
}

pub proof fn lemma_count_eq_update<A>(s: Seq<A>, i: int, v: A, nv: A)
    requires
        0 <= i < s.len(),
        s[i] == v,
        nv != v,
    ensures
        count_eq(s.update(i, nv), v) + 1 == count_eq(s, v),
    decreases s.len(),
{
    let t = s.update(i, nv);
    if i == s.len() - 1 {
        assert(t.drop_last() =~= s.drop_last());
    } else {
        assert(t.drop_last() =~= s.drop_last().update(i, nv));
        lemma_count_eq_update(s.drop_last(), i, v, nv);
    }
}

/// Whether `(qx, qy)` is one of the four edge neighbours of `(px, py)`.
pub open spec fn adjacent4(px: int, py: int, qx: int, qy: int) -> bool {
    (qx == px && (qy == py - 1 || qy == py + 1)) || (qy == py && (qx == px - 1 || qx == px + 1))
}

/// `(qx, qy)` holds `v` and is reached from `(sx, sy)` in at most `k` steps
/// between edge neighbours that all hold `v`, in an image `w` by `h`.
pub open spec fn reach(s: Seq<u8>, w: int, h: int, v: u8, sx: int, sy: int, qx: int, qy: int, k: nat) -> bool
    decreases k,
{
    &&& 0 <= qx < w && 0 <= qy < h
    &&& s[qy * w + qx] == v
    &&& (qx == sx && qy == sy) || (k > 0 && exists|px: int, py: int|
        #![trigger adjacent4(px, py, qx, qy)]
        adjacent4(px, py, qx, qy) && reach(s, w, h, v, sx, sy, px, py, (k - 1) as nat))
}

/// `(qx, qy)` is in the 4-connected region of pixels holding `v` around
/// `(sx, sy)`.
pub open spec fn connected(s: Seq<u8>, w: int, h: int, v: u8, sx: int, sy: int, qx: int, qy: int) -> bool {
    exists|k: nat| reach(s, w, h, v, sx, sy, qx, qy, k)
}

/// A fill that repainted the seed, repainted only pixels holding its value,
/// and left no such pixel next to a repainted one, repainted every pixel of
/// the seed's region.
proof fn lemma_region_painted(
    before: Seq<u8>,
    after: Seq<u8>,
    w: int,
    h: int,
    target: u8,
    new_val: u8,
    sx: int,
    sy: int,
    qx: int,
    qy: int,
    k: nat,
)
    requires
        before.len() == w * h,
        after.len() == w * h,
        target != new_val,
        0 <= sx < w,
        0 <= sy < h,
        after[sy * w + sx] == new_val,
        forall|i: int| 0 <= i < w * h ==> #[trigger] after[i] == before[i] || (before[i] == target && after[i] == new_val),
        forall|px: int, py: int, rx: int, ry: int|
            #![trigger adjacent4(px, py, rx, ry)]
            0 <= px < w && 0 <= py < h && 0 <= rx < w && 0 <= ry < h && adjacent4(px, py, rx, ry) && before[py
                * w + px] != after[py * w + px] ==> after[ry * w + rx] != target,
        reach(before, w, h, target, sx, sy, qx, qy, k),
    ensures
        after[qy * w + qx] == new_val,
    decreases k,
{
    lemma_index_in_grid(qx, qy, w, h);
    if qx == sx && qy == sy {
    } else {
        let (px, py) = choose|px: int, py: int|
            #![trigger adjacent4(px, py, qx, qy)]
            adjacent4(px, py, qx, qy) && reach(before, w, h, target, sx, sy, px, py, (k - 1) as nat);
        lemma_region_painted(before, after, w, h, target, new_val, sx, sy, px, py, (k - 1) as nat);
        lemma_index_in_grid(px, py, w, h);
        assert(before[py * w + px] == target);
        assert(after[qy * w + qx] != target);
    }
}

/// `s` after a flood fill from `(sx, sy)` with `v`: the seed's 4-connected
/// region of pixels equal to the seed repainted `v`, everything else kept;
/// unchanged when the seed already holds `v`.
pub open spec fn filled(s: Seq<u8>, w: int, h: int, sx: int, sy: int, v: u8) -> Seq<u8> {
    let t = s[sy * w + sx];
    if t == v {
        s
    } else {
        Seq::new(
            s.len(),
            |i: int|
                if connected(s, w, h, t, sx, sy, i % w, i / w) {
                    v
                } else {
                    s[i]
                },
        )
    }
}

/// A fill that changed only pixels of the seed's region and painted all of
/// them with `v` left exactly [`filled`].
proof fn lemma_fill_result(before: Seq<u8>, after: Seq<u8>, w: int, h: int, sx: int, sy: int, v: u8)
    requires
        w > 0,
        h > 0,
        before.len() == w * h,
        after.len() == w * h,
        0 <= sx < w,
        0 <= sy < h,
        before[sy * w + sx] != v,
        forall|px: int, py: int|
            0 <= px < w && 0 <= py < h && before[py * w + px] != after[py * w + px] ==> #[trigger] connected(
                before,
                w,
                h,
                before[sy * w + sx],
                sx,
                sy,
                px,
                py,
            ),
        forall|px: int, py: int|
            0 <= px < w && 0 <= py < h && #[trigger] connected(before, w, h, before[sy * w + sx], sx, sy, px, py)
                ==> after[py * w + px] == v,
    ensures
        after == filled(before, w, h, sx, sy, v),
{
    let f = filled(before, w, h, sx, sy, v);
    assert forall|i: int| 0 <= i < w * h implies after[i] == #[trigger] f[i] by {
        crate::arith::lemma_grid_coords(i, w, h);
        let px = i % w;
        let py = i / w;
        vstd::arithmetic::div_mod::lemma_fundamental_div_mod(i, w);
        assert(i == py * w + px);
        if connected(before, w, h, before[sy * w + sx], sx, sy, px, py) {
        } else {
            assert(after[py * w + px] == before[py * w + px]);
        }
    }
    assert(after =~= f);
}

/// `cv2.floodFill(img, mask, seed, new_val)` with 4-connectivity and zero
/// tolerance: repaints pixels equal to the seed's value, starting at the seed.
///
/// The result repaints exactly the seed's connected region: every pixel
/// connected to the seed through pixels holding its value, and nothing else.
/// No pixel holding the seed's value is left next to a repainted one.
pub fn flood_fill(img: &mut Gray, seed: (usize, usize), new_val: u8)
    requires
        old(img).wf(),
        seed.0 < old(img).w,
        seed.1 < old(img).h,
    ensures
        final(img).w == old(img).w,
        final(img).h == old(img).h,
        final(img).wf(),
        final(img).data@ == filled(
            old(img).data@,
            old(img).w as int,
            old(img).h as int,
            seed.0 as int,
            seed.1 as int,
            new_val,
        ),
        ({
            let w = old(img).w as int;
            let h = old(img).h as int;
            let target = old(img).px(seed.0 as int, seed.1 as int);
            let before = old(img).data@;
            let after = final(img).data@;
            &&& target == new_val ==> after == before
            &&& target != new_val ==> {
                &&& final(img).px(seed.0 as int, seed.1 as int) == new_val
                &&& forall|i: int|
                    0 <= i < w * h ==> #[trigger] after[i] == before[i] || (before[i] == target
                        && after[i] == new_val)
                &&& forall|px: int, py: int, qx: int, qy: int|
 #![trigger adjacent4(px, py, qx, qy)]
                    0 <= px < w && 0 <= py < h && 0 <= qx < w && 0 <= qy < h && adjacent4(px, py, qx, qy)
                        && before[py * w + px] != after[py * w + px] ==> after[qy * w
                        + qx] != target
                &&& forall|px: int, py: int|
                    0 <= px < w && 0 <= py < h && before[py * w + px] != after[py * w + px] ==> #[trigger] connected(
                        before,
                        w,
                        h,
                        target,
                        seed.0 as int,
                        seed.1 as int,
                        px,
                        py,
                    )
                &&& forall|px: int, py: int|
                    0 <= px < w && 0 <= py < h && #[trigger] connected(
                        before,
                        w,
                        h,
                        target,
                        seed.0 as int,
                        seed.1 as int,
                        px,
                        py,
                    ) ==> after[py * w + px] == new_val
            }
        }),
{
    let target = img.at(seed.0, seed.1);
    if target == new_val {
        return;
    }
    let w = img.w;
    let h = img.h;
    let ghost before = img.data@;
    let mut stack: Vec<(usize, usize)> = Vec::new();
    img.set(seed.0, seed.1, new_val);
    stack.push(seed);
    proof {
        lemma_index_in_grid(seed.0 as int, seed.1 as int, w as int, h as int);
        lemma_count_eq_update(before, seed.1 * w + seed.0, target, new_val);
        assert(stack@[0] == seed);
        assert(reach(before, w as int, h as int, target, seed.0 as int, seed.1 as int, seed.0 as int, seed.1 as int, 0));
        assert forall|px: int, py: int|
            0 <= px < w && 0 <= py < h && before[py * w + px] != img.data@[py * w + px] implies #[trigger] connected(
                before,
                w as int,
                h as int,
                target,
                seed.0 as int,
                seed.1 as int,
                px,
                py,
            ) by {
            lemma_index_in_grid(px, py, w as int, h as int);
            if (px, py) != (seed.0 as int, seed.1 as int) {
                crate::arith::lemma_index_distinct(px, py, seed.0 as int, seed.1 as int, w as int);
            }
        }
        assert forall|px: int, py: int, qx: int, qy: int|
            #![trigger adjacent4(px, py, qx, qy)]
            0 <= px < w && 0 <= py < h && 0 <= qx < w && 0 <= qy < h && adjacent4(px, py, qx, qy)
                && before[py * w + px] != img.data@[py * w + px] && !stack@.contains(
                (px as usize, py as usize),
            ) implies img.data@[qy * w + qx] != target by {
            lemma_index_in_grid(px, py, w as int, h as int);
            if (px, py) != (seed.0 as int, seed.1 as int) {
                crate::arith::lemma_index_distinct(px, py, seed.0 as int, seed.1 as int, w as int);
            } else {
                assert(stack@.contains((px as usize, py as usize)));
            }
        }
    }
    while stack.len() > 0
        invariant
            img.wf(),
            img.w == w,
            img.h == h,
            before.len() == w * h,
            target != new_val,
            before[seed.1 * w + seed.0] == target,
            img.data@[seed.1 * w + seed.0] == new_val,
            seed.0 < w,
            seed.1 < h,
            forall|i: int|
                0 <= i < w * h ==> #[trigger] img.data@[i] == before[i] || (before[i] == target
                    && img.data@[i] == new_val),
            forall|k: int|
                0 <= k < stack@.len() ==> (#[trigger] stack@[k]).0 < w && stack@[k].1 < h
                    && before[stack@[k].1 * w + stack@[k].0] != img.data@[stack@[k].1 * w
                    + stack@[k].0],
            forall|px: int, py: int, qx: int, qy: int|
 #![trigger adjacent4(px, py, qx, qy)]
                0 <= px < w && 0 <= py < h && 0 <= qx < w && 0 <= qy < h && adjacent4(px, py, qx, qy)
                    && before[py * w + px] != img.data@[py * w + px] && !stack@.contains(
                    (px as usize, py as usize),
                ) ==> img.data@[qy * w + qx] != target,
            forall|px: int, py: int|
                0 <= px < w && 0 <= py < h && before[py * w + px] != img.data@[py * w + px] ==> #[trigger] connected(
                    before,
                    w as int,
                    h as int,
                    target,
                    seed.0 as int,
                    seed.1 as int,
                    px,
                    py,
                ),
        decreases count_eq(img.data@, target), stack@.len(),
    {
        let ghost full_stack = stack@;
        let (x, y) = stack.pop().unwrap();
        let ghost count_before = count_eq(img.data@, target);
        let ghost stack_before = stack@;
        proof {
            assert(full_stack == stack@.push((x, y)));
            assert(full_stack[full_stack.len() - 1] == (x, y));
            assert forall|px: int, py: int, qx: int, qy: int|
                #![trigger adjacent4(px, py, qx, qy)]
                0 <= px < w && 0 <= py < h && 0 <= qx < w && 0 <= qy < h && adjacent4(px, py, qx, qy)
                    && before[py * w + px] != img.data@[py * w + px] && !stack@.contains(
                    (px as usize, py as usize),
                ) && (px, py) != (x as int, y as int) implies img.data@[qy * w + qx] != target by {
                if full_stack.contains((px as usize, py as usize)) {
                    let k = choose|k: int| 0 <= k < full_stack.len() && full_stack[k] == (px as usize, py as usize);
                    if k < full_stack.len() - 1 {
                        assert(stack@[k] == full_stack[k]);
                    }
                }
            }
        }
        let mut n: usize = 0;
        while n < 4
            invariant
                img.wf(),
                img.w == w,
                img.h == h,
                before.len() == w * h,
                target != new_val,
                before[seed.1 * w + seed.0] == target,
                img.data@[seed.1 * w + seed.0] == new_val,
                seed.0 < w,
                seed.1 < h,
                x < w,
                y < h,
                before[y * w + x] != img.data@[y * w + x],
                n <= 4,
                forall|i: int|
                    0 <= i < w * h ==> #[trigger] img.data@[i] == before[i] || (before[i] == target
                        && img.data@[i] == new_val),
                forall|k: int|
                    0 <= k < stack@.len() ==> (#[trigger] stack@[k]).0 < w && stack@[k].1 < h
                        && before[stack@[k].1 * w + stack@[k].0] != img.data@[stack@[k].1 * w
                        + stack@[k].0],
                stack@.len() >= stack_before.len(),
                forall|k: int| 0 <= k < stack_before.len() ==> stack@[k] == #[trigger] stack_before[k],
                count_eq(img.data@, target) + (stack@.len() - stack_before.len()) == count_before,
                // neighbours already handled hold no target value
                n >= 1 && x >= 1 ==> img.data@[y * w + (x - 1)] != target,
                n >= 2 && x + 1 < w ==> img.data@[y * w + (x + 1)] != target,
                n >= 3 && y >= 1 ==> img.data@[(y - 1) * w + x] != target,
                n >= 4 && y + 1 < h ==> img.data@[(y + 1) * w + x] != target,
                forall|px: int, py: int, qx: int, qy: int|
 #![trigger adjacent4(px, py, qx, qy)]
                    0 <= px < w && 0 <= py < h && 0 <= qx < w && 0 <= qy < h && adjacent4(
                        px,
                        py,
                        qx,
                        qy,
                    ) && before[py * w + px] != img.data@[py * w + px] && !stack@.contains(
                        (px as usize, py as usize),
                    ) && (px, py) != (x as int, y as int) ==> img.data@[qy * w + qx]
                        != target,
                forall|px: int, py: int|
                    0 <= px < w && 0 <= py < h && before[py * w + px] != img.data@[py * w + px] ==> #[trigger] connected(
                        before,
                    w as int,
                    h as int,
                    target,
                    seed.0 as int,
                    seed.1 as int,
                    px,
                    py,
                ),
            decreases 4 - n,
        {
            let ok = if n == 0 {
                x >= 1
            } else if n == 1 {
                x + 1 < w
            } else if n == 2 {
                y >= 1
            } else {
                y + 1 < h
            };
            if ok {
                let nx = if n == 0 {
                    x - 1
                } else if n == 1 {
                    x + 1
                } else {
                    x
                };
                let ny = if n == 2 {
                    y - 1
                } else if n == 3 {
                    y + 1
                } else {
                    y
                };
                if img.at(nx, ny) == target {
                    let ghost prev = img.data@;
                    let ghost stack_pre = stack@;
                    proof {
                        lemma_index_in_grid(nx as int, ny as int, w as int, h as int);
                        lemma_count_eq_update(prev, ny * w + nx, target, new_val);
                    }
                    img.set(nx, ny, new_val);
                    stack.push((nx, ny));
                    proof {
                        assert(stack@ == stack_pre.push((nx, ny)));
                        lemma_index_in_grid(x as int, y as int, w as int, h as int);
                        assert(connected(before, w as int, h as int, target, seed.0 as int, seed.1 as int, x as int, y as int));
                        let k = choose|k: nat| reach(before, w as int, h as int, target, seed.0 as int, seed.1 as int, x as int, y as int, k);
                        assert(adjacent4(x as int, y as int, nx as int, ny as int));
                        assert(prev[ny * w + nx] == before[ny * w + nx]);
                        assert(reach(before, w as int, h as int, target, seed.0 as int, seed.1 as int, nx as int, ny as int, k + 1));
                        assert forall|px: int, py: int|
                            0 <= px < w && 0 <= py < h && before[py * w + px] != img.data@[py * w + px] implies #[trigger] connected(
                                before,
                                w as int,
                                h as int,
                                target,
                                seed.0 as int,
                                seed.1 as int,
                                px,
                                py,
                            ) by {
                            lemma_index_in_grid(px, py, w as int, h as int);
                            if (px, py) != (nx as int, ny as int) {
                                crate::arith::lemma_index_distinct(px, py, nx as int, ny as int, w as int);
                                assert(img.data@[py * w + px] == prev[py * w + px]);
                            }
                        }
                        lemma_index_in_grid(seed.0 as int, seed.1 as int, w as int, h as int);
                        lemma_index_in_grid(x as int, y as int, w as int, h as int);
                        if (seed.0, seed.1) != (nx, ny) {
                            crate::arith::lemma_index_distinct(seed.0 as int, seed.1 as int, nx as int, ny as int, w as int);
                        }
                        if (x, y) != (nx, ny) {
                            crate::arith::lemma_index_distinct(x as int, y as int, nx as int, ny as int, w as int);
                        }
                        assert forall|k: int| 0 <= k < stack@.len() implies (#[trigger] stack@[k]).0 < w
                            && stack@[k].1 < h && before[stack@[k].1 * w + stack@[k].0]
                            != img.data@[stack@[k].1 * w + stack@[k].0] by {
                            if k < stack_pre.len() {
                                let e = stack_pre[k];
                                lemma_index_in_grid(e.0 as int, e.1 as int, w as int, h as int);
                                if e != (nx, ny) {
                                    crate::arith::lemma_index_distinct(e.0 as int, e.1 as int, nx as int, ny as int, w as int);
                                }
                            }
                        }
                        assert forall|qx: int, qy: int|
                            0 <= qx < w && 0 <= qy < h && #[trigger] prev[qy * w + qx] != target implies img.data@[qy
                            * w + qx] != target by {
                            lemma_index_in_grid(qx, qy, w as int, h as int);
                            if (qx, qy) != (nx as int, ny as int) {
                                crate::arith::lemma_index_distinct(qx, qy, nx as int, ny as int, w as int);
                            }
                        }
                        assert forall|px: int, py: int, qx: int, qy: int|
 #![trigger adjacent4(px, py, qx, qy)]
                            0 <= px < w && 0 <= py < h && 0 <= qx < w && 0 <= qy < h && adjacent4(
                                px,
                                py,
                                qx,
                                qy,
                            ) && before[py * w + px] != img.data@[py * w + px] && !stack@.contains(
                                (px as usize, py as usize),
                            ) && (px, py) != (x as int, y as int) implies img.data@[qy
                            * w + qx] != target by {
                            if (px, py) == (nx as int, ny as int) {
                                assert(stack@[stack@.len() - 1] == (px as usize, py as usize));
                            } else {
                                crate::arith::lemma_index_distinct(px, py, nx as int, ny as int, w as int);
                                lemma_index_in_grid(px, py, w as int, h as int);
                                assert(img.data@[py * w + px] == prev[py * w + px]);
                                if stack_pre.contains((px as usize, py as usize)) {
                                    let k = choose|k: int| 0 <= k < stack_pre.len() && stack_pre[k] == (px as usize, py as usize);
                                    assert(stack@[k] == (px as usize, py as usize));
                                }
                                assert(prev[qy * w + qx] != target);
                            }
                        }
                    }
                }
            }
            n = n + 1;
        }
    }
    proof {
        assert forall|px: int, py: int|
            0 <= px < w && 0 <= py < h && #[trigger] connected(
                before,
                w as int,
                h as int,
                target,
                seed.0 as int,
                seed.1 as int,
                px,
                py,
            ) implies img.data@[py * w + px] == new_val by {
            let k = choose|k: nat| reach(before, w as int, h as int, target, seed.0 as int, seed.1 as int, px, py, k);
            assert forall|ax: int, ay: int, rx: int, ry: int|
                #![trigger adjacent4(ax, ay, rx, ry)]
                0 <= ax < w && 0 <= ay < h && 0 <= rx < w && 0 <= ry < h && adjacent4(ax, ay, rx, ry) && before[ay
                    * w + ax] != img.data@[ay * w + ax] implies img.data@[ry * w + rx] != target by {
                assert(!stack@.contains((ax as usize, ay as usize)));
            }
            lemma_region_painted(before, img.data@, w as int, h as int, target, new_val, seed.0 as int, seed.1 as int, px, py, k);
        }
        lemma_fill_result(before, img.data@, w as int, h as int, seed.0 as int, seed.1 as int, new_val);
    }
}

// ── Contours ─────────────────────────────────────────────────────────────────

/// One traced border, as the chain of pixel centres OpenCV's border following
/// visits.
#[derive(Debug)]
pub struct Contour {
    pub points: Vec<(i32, i32)>,
}

pub open spec fn min_x(s: Seq<(i32, i32)>) -> int
    decreases s.len(),
{
    if s.len() == 0 {
        i32::MAX as int
    } else {
        let m = min_x(s.drop_last());
        if s.last().0 < m {
            s.last().0 as int
        } else {
            m
        }
    }
}

pub open spec fn min_y(s: Seq<(i32, i32)>) -> int
    decreases s.len(),
{
    if s.len() == 0 {
        i32::MAX as int
    } else {
        let m = min_y(s.drop_last());
        if s.last().1 < m {
            s.last().1 as int
        } else {
            m
        }
    }
}

pub open spec fn max_x(s: Seq<(i32, i32)>) -> int
    decreases s.len(),
{
    if s.len() == 0 {
        i32::MIN as int
    } else {
        let m = max_x(s.drop_last());
        if s.last().0 > m {
            s.last().0 as int
        } else {
            m
        }
    }
}

pub open spec fn max_y(s: Seq<(i32, i32)>) -> int
    decreases s.len(),
{
    if s.len() == 0 {
        i32::MIN as int
    } else {
        let m = max_y(s.drop_last());
        if s.last().1 > m {
            s.last().1 as int
        } else {
            m
        }
    }
}

proof fn lemma_extrema_bounds(s: Seq<(i32, i32)>)
    requires
        s.len() > 0,
        forall|i: int| 0 <= i < s.len() ==> 0 <= (#[trigger] s[i]).0 < i32::MAX && 0 <= s[i].1 < i32::MAX,
    ensures
        0 <= min_x(s) <= max_x(s) < i32::MAX,
        0 <= min_y(s) <= max_y(s) < i32::MAX,
    decreases s.len(),
{
    if s.len() > 1 {
        assert forall|i: int| 0 <= i < s.drop_last().len() implies 0 <= (#[trigger] s.drop_last()[i]).0
            < i32::MAX && 0 <= s.drop_last()[i].1 < i32::MAX by {
            assert(s.drop_last()[i] == s[i]);
        }
        lemma_extrema_bounds(s.drop_last());
        assert(s.last() == s[s.len() - 1]);
    } else {
        assert(s.drop_last().len() == 0);
        assert(s.last() == s[0]);
        assert(min_x(s.drop_last()) == i32::MAX as int);
        assert(min_y(s.drop_last()) == i32::MAX as int);
        assert(max_x(s.drop_last()) == i32::MIN as int);
        assert(max_y(s.drop_last()) == i32::MIN as int);
    }
}

/// Twice the signed shoelace sum over the closed polygon `s`, taking the last
/// point as the predecessor of the first.
pub open spec fn shoelace_from(s: Seq<(i32, i32)>, k: int) -> int
    decreases k,
{
    if k <= 0 {
        0
    } else {
        let p = s[k - 1];
        let prev = if k - 1 == 0 {
            s[s.len() - 1]
        } else {
            s[k - 2]
        };
        shoelace_from(s, k - 1) + (prev.0 * p.1 - p.0 * prev.1)
    }
}

impl Contour {
    /// Twice `cv2.contourArea`: the absolute shoelace sum over the border
    /// polygon, 0 for fewer than three points. Kept doubled so it stays an
    /// exact integer; half of it is the area OpenCV reports.
    pub fn twice_area(&self) -> (a: i128)
        requires
            self.points@.len() < 0x1000_0000,
        ensures
            a == if self.points@.len() < 3 {
                0
            } else {
                let t = shoelace_from(self.points@, self.points@.len() as int);
                if t < 0 {
                    -t
                } else {
                    t
                }
            },
    {
        let n = self.points.len();
        if n < 3 {
            return 0;
        }
        let mut a: i128 = 0;
        let mut prev = self.points[n - 1];
        let mut k: usize = 0;
        while k < n
            invariant
                n == self.points@.len(),
                n >= 3,
                n < 0x1000_0000,
                k <= n,
                prev == if k == 0 {
                    self.points@[n - 1]
                } else {
                    self.points@[k - 1]
                },
                a == shoelace_from(self.points@, k as int),
                -(k as int) * 0x8000_0000_0000_0000 <= a <= (k as int) * 0x8000_0000_0000_0000,
            decreases n - k,
        {
            let p = self.points[k];
            proof {
                assert(-0x4000_0000_0000_0000 <= (prev.0 as i128) * (p.1 as i128) <= 0x4000_0000_0000_0000) by (nonlinear_arith)
                    requires
                        i32::MIN <= prev.0 <= i32::MAX,
                        i32::MIN <= p.1 <= i32::MAX,
                ;
                assert(-0x4000_0000_0000_0000 <= (p.0 as i128) * (prev.1 as i128) <= 0x4000_0000_0000_0000) by (nonlinear_arith)
                    requires
                        i32::MIN <= p.0 <= i32::MAX,
                        i32::MIN <= prev.1 <= i32::MAX,
                ;
                assert((k as int) * 0x8000_0000_0000_0000 <= 0x1000_0000 * 0x8000_0000_0000_0000) by (nonlinear_arith)
                    requires
                        k < 0x1000_0000,
                ;
            }
            let t = (prev.0 as i128) * (p.1 as i128) - (p.0 as i128) * (prev.1 as i128);
            a = a + t;
            prev = p;
            k = k + 1;
        }
        if a < 0 {
            -a
        } else {
            a
        }
    }

    /// `cv2.boundingRect`: `(x, y, w, h)`, inclusive of both extremes.
    pub fn bounding_rect(&self) -> (r: (i32, i32, i32, i32))
        requires
            self.points@.len() > 0,
            forall|i: int|
                0 <= i < self.points@.len() ==> 0 <= (#[trigger] self.points@[i]).0 < i32::MAX && 0
                    <= self.points@[i].1 < i32::MAX,
        ensures
            r.0 == min_x(self.points@),
            r.1 == min_y(self.points@),
            r.2 == max_x(self.points@) - min_x(self.points@) + 1,
            r.3 == max_y(self.points@) - min_y(self.points@) + 1,
    {
        proof {
            lemma_extrema_bounds(self.points@);
        }
        let mut x0 = i32::MAX;
        let mut y0 = i32::MAX;
        let mut x1 = i32::MIN;
        let mut y1 = i32::MIN;
        let mut k: usize = 0;
        while k < self.points.len()
            invariant
                k <= self.points@.len(),
                x0 == min_x(self.points@.take(k as int)),
                y0 == min_y(self.points@.take(k as int)),
                x1 == max_x(self.points@.take(k as int)),
                y1 == max_y(self.points@.take(k as int)),
            decreases self.points@.len() - k,
        {
            proof {
                assert(self.points@.take(k as int + 1).drop_last() == self.points@.take(k as int));
            }
            let (x, y) = self.points[k];
            if x < x0 {
                x0 = x;
            }
            if y < y0 {
                y0 = y;
            }
            if x > x1 {
                x1 = x;
            }
            if y > y1 {
                y1 = y;
            }
            k = k + 1;
        }
        proof {
            assert(self.points@.take(k as int) == self.points@);
        }
        (x0, y0, x1 - x0 + 1, y1 - y0 + 1)
    }
}

/// The eight neighbour offsets in OpenCV's `icvCodeDeltas` order: 0 is east and
/// the sequence runs counter-clockwise in image coordinates (y grows down).
pub open spec fn delta_spec(s: int) -> (i32, i32) {
    if s == 0 {
        (1, 0)
    } else if s == 1 {
        (1, -1i32)
    } else if s == 2 {
        (0, -1i32)
    } else if s == 3 {
        (-1i32, -1i32)
    } else if s == 4 {
        (-1i32, 0)
    } else if s == 5 {
        (-1i32, 1)
    } else if s == 6 {
        (0, 1)
    } else {
        (1, 1)
    }
}

/// Chain-code direction `s` as an offset.
pub fn delta(s: usize) -> (d: (i32, i32))
    requires
        s < 8,
    ensures
        d == delta_spec(s as int),
{
    if s == 0 {
        (1, 0)
    } else if s == 1 {
        (1, -1)
    } else if s == 2 {
        (0, -1)
    } else if s == 3 {
        (-1, -1)
    } else if s == 4 {
        (-1, 0)
    } else if s == 5 {
        (-1, 1)
    } else if s == 6 {
        (0, 1)
    } else {
        (1, 1)
    }
}

/// Whether `p` is a foreground pixel of `mask`.
pub open spec fn is_ink(mask: &Gray, p: (i32, i32)) -> bool {
    0 <= p.0 < mask.w && 0 <= p.1 < mask.h && mask.px(p.0 as int, p.1 as int) != 0
}

fn ink_at(mask: &Gray, p: (i32, i32)) -> (b: bool)
    requires
        mask.wf(),
        mask.w < i32::MAX,
        mask.h < i32::MAX,
    ensures
        b == is_ink(mask, p),
{
    p.0 >= 0 && p.1 >= 0 && (p.0 as usize) < mask.w && (p.1 as usize) < mask.h && mask.at(
        p.0 as usize,
        p.1 as usize,
    ) != 0
}

/// `(x, y)` lies on the outermost ring of a `w` by `h` image.
pub open spec fn on_border(w: int, h: int, x: int, y: int) -> bool {
    0 <= x < w && 0 <= y < h && (x == 0 || y == 0 || x == w - 1 || y == h - 1)
}

/// `(x, y)` is background 4-connected, through background, to a background
/// pixel on the image's border: outside every contour.
pub open spec fn outer_pixel(mask: &Gray, x: int, y: int) -> bool {
    exists|bx: int, by: int|
        on_border(mask.w as int, mask.h as int, bx, by) && #[trigger] connected(
            mask.data@,
            mask.w as int,
            mask.h as int,
            0,
            bx,
            by,
            x,
            y,
        )
}

/// Entry `(x, y)` of a `w`-wide flag plane.
pub open spec fn flag(seen: Seq<bool>, w: int, x: int, y: int) -> bool {
    seen[y * w + x]
}

/// The `t`-th pixel of side `k` of the border: top, bottom, left, right.
pub open spec fn side_pixel(k: int, t: int, w: int, h: int) -> (int, int) {
    if k == 0 {
        (t, 0)
    } else if k == 1 {
        (t, h - 1)
    } else if k == 2 {
        (0, t)
    } else {
        (w - 1, t)
    }
}

/// Every background pixel next to a flagged pixel that is not waiting on
/// the stack is flagged too.
pub open spec fn flags_closed(mask: &Gray, seen: Seq<bool>, stack: Seq<(usize, usize)>, skip: Option<(int, int)>) -> bool {
    forall|px: int, py: int, qx: int, qy: int|
        #![trigger adjacent4(px, py, qx, qy)]
        0 <= px < mask.w && 0 <= py < mask.h && 0 <= qx < mask.w && 0 <= qy < mask.h && adjacent4(
            px,
            py,
            qx,
            qy,
        ) && flag(seen, mask.w as int, px, py) && !stack.contains((px as usize, py as usize)) && skip != Some(
            (px, py),
        ) && mask.px(qx, qy) == 0 ==> flag(seen, mask.w as int, qx, qy)
}

/// The flags are sound: each flagged pixel is an outer background pixel.
pub open spec fn flags_sound(mask: &Gray, seen: Seq<bool>) -> bool {
    forall|x: int, y: int|
        0 <= x < mask.w && 0 <= y < mask.h && flag(seen, mask.w as int, x, y) ==> #[trigger] outer_pixel(
            mask,
            x,
            y,
        )
}

proof fn lemma_flags_complete(mask: &Gray, seen: Seq<bool>, bx: int, by: int, qx: int, qy: int, k: nat)
    requires
        mask.wf(),
        seen.len() == mask.w * mask.h,
        flags_closed(mask, seen, Seq::empty(), None),
        flag(seen, mask.w as int, bx, by),
        0 <= bx < mask.w,
        0 <= by < mask.h,
        reach(mask.data@, mask.w as int, mask.h as int, 0, bx, by, qx, qy, k),
    ensures
        flag(seen, mask.w as int, qx, qy),
    decreases k,
{
    if qx == bx && qy == by {
    } else {
        let (px, py) = choose|px: int, py: int|
            #![trigger adjacent4(px, py, qx, qy)]
            adjacent4(px, py, qx, qy) && reach(mask.data@, mask.w as int, mask.h as int, 0, bx, by, px, py, (k - 1) as nat);
        lemma_flags_complete(mask, seen, bx, by, px, py, (k - 1) as nat);
        assert(!Seq::<(usize, usize)>::empty().contains((px as usize, py as usize)));
        assert(mask.px(qx, qy) == 0);
    }
}

/// The background pixels 4-connected to the image border: everything OpenCV
/// would consider outside all contours. Entry `y * w + x` is whether
/// `(x, y)` is such a pixel ([`outer_pixel`]).
pub fn outer_background(mask: &Gray) -> (seen: Vec<bool>)
    requires
        mask.wf(),
        mask.w > 0,
        mask.h > 0,
    ensures
        seen@.len() == mask.w * mask.h,
        forall|i: int| 0 <= i < mask.w * mask.h && #[trigger] seen@[i] ==> mask.data@[i] == 0,
        forall|x: int, y: int|
            0 <= x < mask.w && 0 <= y < mask.h ==> (flag(seen@, mask.w as int, x, y) <==> #[trigger] outer_pixel(
                mask,
                x,
                y,
            )),
{
    let w = mask.w;
    let h = mask.h;
    assert(mask.data@.len() == mask.data.len());
    let n = w * h;
    let mut seen: Vec<bool> = vec![false; n];
    let mut stack: Vec<(usize, usize)> = Vec::new();
    proof {
        assert forall|px: int, py: int| 0 <= px < w && 0 <= py < h implies !#[trigger] flag(
            seen@,
            w as int,
            px,
            py,
        ) by {
            lemma_index_in_grid(px, py, w as int, h as int);
        }
    }
    // Seed from every border pixel that is background.
    let mut k: usize = 0;
    while k < 4
        invariant
            mask.wf(),
            w == mask.w,
            h == mask.h,
            w > 0,
            h > 0,
            n == w * h,
            k <= 4,
            seen@.len() == n,
            forall|i: int| 0 <= i < n && #[trigger] seen@[i] ==> mask.data@[i] == 0,
            forall|j: int|
                0 <= j < stack@.len() ==> (#[trigger] stack@[j]).0 < w && stack@[j].1 < h && flag(
                    seen@,
                    w as int,
                    stack@[j].0 as int,
                    stack@[j].1 as int,
                ),
            flags_closed(mask, seen@, stack@, None),
            flags_sound(mask, seen@),
            forall|kk: int, tt: int|
                0 <= kk < k && 0 <= tt < (if kk < 2 {
                    w as int
                } else {
                    h as int
                }) && mask.px(side_pixel(kk, tt, w as int, h as int).0, side_pixel(kk, tt, w as int, h as int).1)
                    == 0 ==> #[trigger] flag(
                    seen@,
                    w as int,
                    side_pixel(kk, tt, w as int, h as int).0,
                    side_pixel(kk, tt, w as int, h as int).1,
                ),
        decreases 4 - k,
    {
        let len = if k < 2 {
            w
        } else {
            h
        };
        let mut t: usize = 0;
        while t < len
            invariant
                mask.wf(),
                w == mask.w,
                h == mask.h,
                w > 0,
                h > 0,
                n == w * h,
                k < 4,
                len == if k < 2 {
                    w
                } else {
                    h
                },
                t <= len,
                seen@.len() == n,
                forall|i: int| 0 <= i < n && #[trigger] seen@[i] ==> mask.data@[i] == 0,
                forall|j: int|
                    0 <= j < stack@.len() ==> (#[trigger] stack@[j]).0 < w && stack@[j].1 < h && flag(
                        seen@,
                        w as int,
                        stack@[j].0 as int,
                        stack@[j].1 as int,
                    ),
                flags_closed(mask, seen@, stack@, None),
                flags_sound(mask, seen@),
                forall|kk: int, tt: int|
                    ((0 <= kk < k && 0 <= tt < (if kk < 2 {
                        w as int
                    } else {
                        h as int
                    })) || (kk == k && 0 <= tt < t)) && mask.px(
                        side_pixel(kk, tt, w as int, h as int).0,
                        side_pixel(kk, tt, w as int, h as int).1,
                    ) == 0 ==> #[trigger] flag(
                        seen@,
                        w as int,
                        side_pixel(kk, tt, w as int, h as int).0,
                        side_pixel(kk, tt, w as int, h as int).1,
                    ),
            decreases len - t,
        {
            let (x, y) = if k == 0 {
                (t, 0)
            } else if k == 1 {
                (t, h - 1)
            } else if k == 2 {
                (0, t)
            } else {
                (w - 1, t)
            };
            proof {
                lemma_index_in_grid(x as int, y as int, w as int, h as int);
                assert((x as int, y as int) == side_pixel(k as int, t as int, w as int, h as int));
            }
            if mask.at(x, y) == 0 && !seen[y * w + x] {
                let ghost before = seen@;
                let ghost stack_before = stack@;
                seen.set(y * w + x, true);
                stack.push((x, y));
                proof {
                    let i0 = y * w + x;
                    assert forall|i: int| 0 <= i < n && #[trigger] seen@[i] implies mask.data@[i] == 0 by {
                        if i != i0 {
                            assert(before[i]);
                        }
                    }
                    assert forall|px: int, py: int| 0 <= px < w && 0 <= py < h implies #[trigger] flag(
                        seen@,
                        w as int,
                        px,
                        py,
                    ) == (flag(before, w as int, px, py) || (px, py) == (x as int, y as int)) by {
                        lemma_index_in_grid(px, py, w as int, h as int);
                        if (px, py) != (x as int, y as int) {
                            crate::arith::lemma_index_distinct(px, py, x as int, y as int, w as int);
                        }
                    }
                    assert forall|j: int| 0 <= j < stack@.len() implies (#[trigger] stack@[j]).0 < w
                        && stack@[j].1 < h && flag(seen@, w as int, stack@[j].0 as int, stack@[j].1 as int) by {
                        if j < stack_before.len() {
                            assert(stack@[j] == stack_before[j]);
                        }
                    }
                    assert(stack@[stack@.len() - 1] == (x, y));
                    assert(stack@.contains((x, y)));
                    assert forall|px: int, py: int, qx: int, qy: int|
                        #![trigger adjacent4(px, py, qx, qy)]
                        0 <= px < w && 0 <= py < h && 0 <= qx < w && 0 <= qy < h && adjacent4(px, py, qx, qy)
                            && flag(seen@, w as int, px, py) && !stack@.contains((px as usize, py as usize))
                            && mask.px(qx, qy) == 0 implies flag(seen@, w as int, qx, qy) by {
                        if (px, py) != (x as int, y as int) {
                            if stack_before.contains((px as usize, py as usize)) {
                                let j = choose|j: int| 0 <= j < stack_before.len() && stack_before[j] == (px as usize, py as usize);
                                assert(stack@[j] == (px as usize, py as usize));
                            }
                            assert(flag(before, w as int, qx, qy));
                        }
                    }
                    assert(reach(mask.data@, w as int, h as int, 0, x as int, y as int, x as int, y as int, 0));
                    assert(on_border(w as int, h as int, x as int, y as int));
                    assert(connected(mask.data@, w as int, h as int, 0, x as int, y as int, x as int, y as int));
                    assert(outer_pixel(mask, x as int, y as int));
                }
            }
            t = t + 1;
        }
        k = k + 1;
    }
    proof {
        assert forall|bx: int, by: int| on_border(w as int, h as int, bx, by) && mask.px(bx, by) == 0 implies flag(
            seen@,
            w as int,
            bx,
            by,
        ) by {
            if by == 0 {
                assert(side_pixel(0, bx, w as int, h as int) == (bx, by));
                assert(flag(
                    seen@,
                    w as int,
                    side_pixel(0, bx, w as int, h as int).0,
                    side_pixel(0, bx, w as int, h as int).1,
                ));
            } else if by == h - 1 {
                assert(side_pixel(1, bx, w as int, h as int) == (bx, by));
                assert(flag(
                    seen@,
                    w as int,
                    side_pixel(1, bx, w as int, h as int).0,
                    side_pixel(1, bx, w as int, h as int).1,
                ));
            } else if bx == 0 {
                assert(side_pixel(2, by, w as int, h as int) == (bx, by));
                assert(flag(
                    seen@,
                    w as int,
                    side_pixel(2, by, w as int, h as int).0,
                    side_pixel(2, by, w as int, h as int).1,
                ));
            } else {
                assert(side_pixel(3, by, w as int, h as int) == (bx, by));
                assert(flag(
                    seen@,
                    w as int,
                    side_pixel(3, by, w as int, h as int).0,
                    side_pixel(3, by, w as int, h as int).1,
                ));
            }
        }
    }
    while stack.len() > 0
        invariant
            mask.wf(),
            w == mask.w,
            h == mask.h,
            w > 0,
            h > 0,
            n == w * h,
            seen@.len() == n,
            forall|i: int| 0 <= i < n && #[trigger] seen@[i] ==> mask.data@[i] == 0,
            forall|j: int|
                0 <= j < stack@.len() ==> (#[trigger] stack@[j]).0 < w && stack@[j].1 < h && flag(
                    seen@,
                    w as int,
                    stack@[j].0 as int,
                    stack@[j].1 as int,
                ),
            flags_closed(mask, seen@, stack@, None),
            flags_sound(mask, seen@),
            forall|bx: int, by: int|
                on_border(w as int, h as int, bx, by) && mask.px(bx, by) == 0 ==> #[trigger] flag(
                    seen@,
                    w as int,
                    bx,
                    by,
                ),
        decreases count_eq(seen@, false), stack@.len(),
    {
        let ghost full_stack = stack@;
        let (x, y) = stack.pop().unwrap();
        let ghost count_before = count_eq(seen@, false);
        let ghost len_before = stack@.len();
        let ghost stack_before = stack@;
        proof {
            assert(full_stack == stack@.push((x, y)));
            assert(full_stack[full_stack.len() - 1] == (x, y));
            assert forall|px: int, py: int, qx: int, qy: int|
                #![trigger adjacent4(px, py, qx, qy)]
                0 <= px < w && 0 <= py < h && 0 <= qx < w && 0 <= qy < h && adjacent4(px, py, qx, qy) && flag(
                    seen@,
                    w as int,
                    px,
                    py,
                ) && !stack@.contains((px as usize, py as usize)) && Some((x as int, y as int)) != Some(
                    (px, py),
                ) && mask.px(qx, qy) == 0 implies flag(seen@, w as int, qx, qy) by {
                if full_stack.contains((px as usize, py as usize)) {
                    let j = choose|j: int| 0 <= j < full_stack.len() && full_stack[j] == (px as usize, py as usize);
                    if j < full_stack.len() - 1 {
                        assert(stack@[j] == full_stack[j]);
                    }
                }
            }
            assert(flags_closed(mask, seen@, stack@, Some((x as int, y as int))));
        }
        let mut d: usize = 0;
        while d < 4
            invariant
                mask.wf(),
                w == mask.w,
                h == mask.h,
                w > 0,
                h > 0,
                n == w * h,
                x < w,
                y < h,
                d <= 4,
                flag(seen@, w as int, x as int, y as int),
                seen@.len() == n,
                forall|i: int| 0 <= i < n && #[trigger] seen@[i] ==> mask.data@[i] == 0,
                forall|j: int|
                    0 <= j < stack@.len() ==> (#[trigger] stack@[j]).0 < w && stack@[j].1 < h && flag(
                        seen@,
                        w as int,
                        stack@[j].0 as int,
                        stack@[j].1 as int,
                    ),
                flags_closed(mask, seen@, stack@, Some((x as int, y as int))),
                flags_sound(mask, seen@),
                forall|bx: int, by: int|
                    on_border(w as int, h as int, bx, by) && mask.px(bx, by) == 0 ==> #[trigger] flag(
                        seen@,
                        w as int,
                        bx,
                        by,
                    ),
                count_eq(seen@, false) + (stack@.len() - len_before) == count_before,
                stack@.len() >= len_before,
                forall|j: int| 0 <= j < len_before ==> stack@[j] == #[trigger] stack_before[j],
                d >= 1 && x + 1 < w && mask.px(x + 1, y as int) == 0 ==> flag(seen@, w as int, x + 1, y as int),
                d >= 2 && x >= 1 && mask.px(x - 1, y as int) == 0 ==> flag(seen@, w as int, x - 1, y as int),
                d >= 3 && y + 1 < h && mask.px(x as int, y + 1) == 0 ==> flag(seen@, w as int, x as int, y + 1),
                d >= 4 && y >= 1 && mask.px(x as int, y - 1) == 0 ==> flag(seen@, w as int, x as int, y - 1),
            decreases 4 - d,
        {
            let ok = if d == 0 {
                x + 1 < w
            } else if d == 1 {
                x >= 1
            } else if d == 2 {
                y + 1 < h
            } else {
                y >= 1
            };
            if ok {
                let nx = if d == 0 {
                    x + 1
                } else if d == 1 {
                    x - 1
                } else {
                    x
                };
                let ny = if d == 2 {
                    y + 1
                } else if d == 3 {
                    y - 1
                } else {
                    y
                };
                proof {
                    lemma_index_in_grid(nx as int, ny as int, w as int, h as int);
                }
                if mask.at(nx, ny) == 0 && !seen[ny * w + nx] {
                    let ghost before = seen@;
                    let ghost stack_pre = stack@;
                    proof {
                        lemma_count_eq_update(seen@, ny * w + nx, false, true);
                    }
                    seen.set(ny * w + nx, true);
                    stack.push((nx, ny));
                    proof {
                        let i0 = ny * w + nx;
                        assert forall|i: int| 0 <= i < n && #[trigger] seen@[i] implies mask.data@[i] == 0 by {
                            if i != i0 {
                                assert(before[i]);
                            }
                        }
                        assert forall|px: int, py: int| 0 <= px < w && 0 <= py < h implies #[trigger] flag(
                            seen@,
                            w as int,
                            px,
                            py,
                        ) == (flag(before, w as int, px, py) || (px, py) == (nx as int, ny as int)) by {
                            lemma_index_in_grid(px, py, w as int, h as int);
                            if (px, py) != (nx as int, ny as int) {
                                crate::arith::lemma_index_distinct(px, py, nx as int, ny as int, w as int);
                            }
                        }
                        assert forall|j: int| 0 <= j < stack@.len() implies (#[trigger] stack@[j]).0 < w
                            && stack@[j].1 < h && flag(seen@, w as int, stack@[j].0 as int, stack@[j].1 as int) by {
                            if j < stack_pre.len() {
                                assert(stack@[j] == stack_pre[j]);
                            }
                        }
                        assert forall|j: int| 0 <= j < len_before implies stack@[j] == #[trigger] stack_before[j] by {
                            assert(stack@[j] == stack_pre[j]);
                        }
                        assert(stack@[stack@.len() - 1] == (nx, ny));
                        assert(stack@.contains((nx, ny)));
                        assert forall|px: int, py: int, qx: int, qy: int|
                            #![trigger adjacent4(px, py, qx, qy)]
                            0 <= px < w && 0 <= py < h && 0 <= qx < w && 0 <= qy < h && adjacent4(px, py, qx, qy)
                                && flag(seen@, w as int, px, py) && !stack@.contains((px as usize, py as usize))
                                && Some((x as int, y as int)) != Some((px, py)) && mask.px(qx, qy) == 0 implies flag(
                                seen@,
                                w as int,
                                qx,
                                qy,
                            ) by {
                            if (px, py) != (nx as int, ny as int) {
                                if stack_pre.contains((px as usize, py as usize)) {
                                    let j = choose|j: int| 0 <= j < stack_pre.len() && stack_pre[j] == (px as usize, py as usize);
                                    assert(stack@[j] == (px as usize, py as usize));
                                }
                                assert(flag(before, w as int, qx, qy));
                            }
                        }
                        // The new pixel is outer: extend a border path to the popped pixel by one step.
                        assert(outer_pixel(mask, x as int, y as int));
                        let (bx, by) = choose|bx: int, by: int|
                            on_border(w as int, h as int, bx, by) && #[trigger] connected(
                                mask.data@,
                                w as int,
                                h as int,
                                0,
                                bx,
                                by,
                                x as int,
                                y as int,
                            );
                        let kk = choose|kk: nat| reach(mask.data@, w as int, h as int, 0, bx, by, x as int, y as int, kk);
                        assert(adjacent4(x as int, y as int, nx as int, ny as int));
                        assert(reach(mask.data@, w as int, h as int, 0, bx, by, nx as int, ny as int, kk + 1));
                        assert(connected(mask.data@, w as int, h as int, 0, bx, by, nx as int, ny as int));
                        assert forall|px: int, py: int|
                            0 <= px < w && 0 <= py < h && flag(seen@, w as int, px, py) implies #[trigger] outer_pixel(
                                mask,
                                px,
                                py,
                            ) by {
                            if (px, py) != (nx as int, ny as int) {
                                assert(flag(before, w as int, px, py));
                            }
                        }
                    }
                }
            }
            d = d + 1;
        }
        proof {
            assert forall|px: int, py: int, qx: int, qy: int|
                #![trigger adjacent4(px, py, qx, qy)]
                0 <= px < w && 0 <= py < h && 0 <= qx < w && 0 <= qy < h && adjacent4(px, py, qx, qy) && flag(
                    seen@,
                    w as int,
                    px,
                    py,
                ) && !stack@.contains((px as usize, py as usize)) && mask.px(qx, qy) == 0 implies flag(
                    seen@,
                    w as int,
                    qx,
                    qy,
                ) by {
                if (px, py) == (x as int, y as int) {
                } else {
                    assert(Some((x as int, y as int)) != Some((px, py)));
                }
            }
        }
    }
    proof {
        assert(stack@ =~= Seq::<(usize, usize)>::empty());
        assert forall|qx: int, qy: int| 0 <= qx < w && 0 <= qy < h implies (flag(seen@, w as int, qx, qy)
            <==> #[trigger] outer_pixel(mask, qx, qy)) by {
            if outer_pixel(mask, qx, qy) {
                let (bx, by) = choose|bx: int, by: int|
                    on_border(w as int, h as int, bx, by) && #[trigger] connected(
                        mask.data@,
                        w as int,
                        h as int,
                        0,
                        bx,
                        by,
                        qx,
                        qy,
                    );
                let kk = choose|kk: nat| reach(mask.data@, w as int, h as int, 0, bx, by, qx, qy, kk);
                lemma_reach_start(mask.data@, w as int, h as int, 0, bx, by, qx, qy, kk);
                lemma_flags_complete(mask, seen@, bx, by, qx, qy, kk);
            }
        }
    }
    seen
}

/// A path's first pixel holds the path's value.
proof fn lemma_reach_start(s: Seq<u8>, w: int, h: int, v: u8, sx: int, sy: int, qx: int, qy: int, k: nat)
    requires
        reach(s, w, h, v, sx, sy, qx, qy, k),
    ensures
        0 <= sx < w && 0 <= sy < h && s[sy * w + sx] == v,
    decreases k,
{
    if qx == sx && qy == sy {
    } else {
        let (px, py) = choose|px: int, py: int|
            #![trigger adjacent4(px, py, qx, qy)]
            adjacent4(px, py, qx, qy) && reach(s, w, h, v, sx, sy, px, py, (k - 1) as nat);
        lemma_reach_start(s, w, h, v, sx, sy, px, py, (k - 1) as nat);
    }
}

/// The neighbour of `p` in chain-code direction `s`.
pub open spec fn offset(p: (i32, i32), s: int) -> (i32, i32) {
    ((p.0 + delta_spec(s).0) as i32, (p.1 + delta_spec(s).1) as i32)
}

/// The first direction of `3, 2, 1, 0, 7, 6, 5, 4` (from the `t`-th on)
/// whose neighbour of `p` is ink: where the walk around `p`'s border starts.
pub open spec fn initial_search(mask: &Gray, p: (i32, i32), t: int) -> Option<int>
    decreases 8 - t,
{
    if t >= 8 {
        None
    } else {
        let s = (11 - t) % 8;
        if is_ink(mask, offset(p, s)) {
            Some(s)
        } else {
            initial_search(mask, p, t + 1)
        }
    }
}

/// Turning from direction `s0`: the first of `s0 + 1, s0 + 2, ..., s0 + 8`
/// (from the `k`-th on, modulo 8) whose neighbour of `p` is ink, with that
/// neighbour; `(s0, p)` when none is.
pub open spec fn turn(mask: &Gray, p: (i32, i32), s0: int, k: int) -> (int, (i32, i32))
    decreases 8 - k,
{
    if k >= 8 {
        (s0, p)
    } else {
        let s = (s0 + k + 1) % 8;
        if is_ink(mask, offset(p, s)) {
            (s, offset(p, s))
        } else {
            turn(mask, p, s0, k + 1)
        }
    }
}

/// The walk's position and direction after `n` steps from `(i0, s1)`: each
/// step turns to the next ink neighbour and faces back along the move.
pub open spec fn walk(mask: &Gray, i0: (i32, i32), s1: int, n: nat) -> ((i32, i32), int)
    decreases n,
{
    if n == 0 {
        (i0, s1)
    } else {
        let prev = walk(mask, i0, s1, (n - 1) as nat);
        let t = turn(mask, prev.0, prev.1, 0);
        (t.1, (t.0 + 4) % 8)
    }
}

/// Step `n` closes the border: it stands on `i1` and is about to return to
/// `i0`.
pub open spec fn closes(mask: &Gray, i0: (i32, i32), i1: (i32, i32), s1: int, n: nat) -> bool {
    let st = walk(mask, i0, s1, n);
    turn(mask, st.0, st.1, 0).1 == i0 && st.0 == i1
}

/// The most steps a border walk is given.
pub open spec fn walk_cap(mask: &Gray) -> int {
    8 * mask.w * mask.h + 8
}

proof fn lemma_turn_ink(mask: &Gray, p: (i32, i32), s0: int, k: int)
    requires
        is_ink(mask, p),
        0 <= s0 < 8,
    ensures
        is_ink(mask, turn(mask, p, s0, k).1),
        0 <= turn(mask, p, s0, k).0 < 8,
    decreases 8 - k,
{
    if k < 8 {
        lemma_turn_ink(mask, p, s0, k + 1);
    }
}

proof fn lemma_walk_ink(mask: &Gray, i0: (i32, i32), s1: int, n: nat)
    requires
        is_ink(mask, i0),
        0 <= s1 < 8,
    ensures
        is_ink(mask, walk(mask, i0, s1, n).0),
        0 <= walk(mask, i0, s1, n).1 < 8,
    decreases n,
{
    if n > 0 {
        lemma_walk_ink(mask, i0, s1, (n - 1) as nat);
        let prev = walk(mask, i0, s1, (n - 1) as nat);
        lemma_turn_ink(mask, prev.0, prev.1, 0);
    }
}

/// The neighbour of `p` in direction `s`, and whether it is ink.
fn neighbour(mask: &Gray, p: (i32, i32), s: usize) -> (r: ((i32, i32), bool))
    requires
        mask.wf(),
        mask.w < i32::MAX,
        mask.h < i32::MAX,
        is_ink(mask, p),
        s < 8,
    ensures
        r.0 == offset(p, s as int),
        r.1 == is_ink(mask, offset(p, s as int)),
{
    let d = delta(s);
    let cand = (p.0 + d.0, p.1 + d.1);
    (cand, ink_at(mask, cand))
}

/// See [`initial_search`].
fn initial_direction(mask: &Gray, p: (i32, i32)) -> (r: Option<usize>)
    requires
        mask.wf(),
        mask.w < i32::MAX,
        mask.h < i32::MAX,
        is_ink(mask, p),
    ensures
        match initial_search(mask, p, 0) {
            None => r is None,
            Some(s) => r == Some(s as usize) && 0 <= s < 8,
        },
{
    let mut t: usize = 0;
    while t < 8
        invariant
            mask.wf(),
            mask.w < i32::MAX,
            mask.h < i32::MAX,
            is_ink(mask, p),
            t <= 8,
            initial_search(mask, p, 0) == initial_search(mask, p, t as int),
        decreases 8 - t,
    {
        let s = (11 - t) % 8;
        let (_, ink) = neighbour(mask, p, s);
        if ink {
            return Some(s);
        }
        t = t + 1;
    }
    None
}

/// See [`turn`].
fn turn_from(mask: &Gray, p: (i32, i32), s0: usize) -> (r: (usize, (i32, i32)))
    requires
        mask.wf(),
        mask.w < i32::MAX,
        mask.h < i32::MAX,
        is_ink(mask, p),
        s0 < 8,
    ensures
        (r.0 as int, r.1) == turn(mask, p, s0 as int, 0),
        r.0 < 8,
{
    let mut k: usize = 0;
    while k < 8
        invariant
            mask.wf(),
            mask.w < i32::MAX,
            mask.h < i32::MAX,
            is_ink(mask, p),
            s0 < 8,
            k <= 8,
            turn(mask, p, s0 as int, 0) == turn(mask, p, s0 as int, k as int),
        decreases 8 - k,
    {
        let s = (s0 + k + 1) % 8;
        let (q, ink) = neighbour(mask, p, s);
        if ink {
            return (s, q);
        }
        k = k + 1;
    }
    (s0, p)
}

/// `pts` is the border walked from `origin`: just `origin` when it has no
/// ink neighbour; otherwise the positions of [`walk`] up to the step that
/// closes the border, or [`walk_cap`] of them.
pub open spec fn traced(mask: &Gray, origin: (i32, i32), pts: Seq<(i32, i32)>) -> bool {
    match initial_search(mask, origin, 0) {
        None => pts == seq![origin],
        Some(s1) => {
            &&& pts.len() <= walk_cap(mask)
            &&& forall|k: int| 0 <= k < pts.len() ==> #[trigger] pts[k] == walk(mask, origin, s1, k as nat).0
            &&& forall|k: int|
                0 <= k < pts.len() - 1 ==> !#[trigger] closes(mask, origin, offset(origin, s1), s1, k as nat)
            &&& pts.len() == walk_cap(mask) || closes(mask, origin, offset(origin, s1), s1, (pts.len() - 1) as nat)
        },
    }
}

/// OpenCV's `icvFetchContour` for an outer border: the walk starts looking
/// west and turns clockwise until it finds foreground, then follows the
/// boundary (see [`walk`]) until the step that closes it, given at most
/// [`walk_cap`] steps. A pixel with no ink neighbour is a border of its own.
pub fn trace_border(mask: &Gray, origin: (i32, i32)) -> (c: Contour)
    requires
        mask.wf(),
        mask.w < i32::MAX,
        mask.h < i32::MAX,
        8 * mask.w * mask.h + 8 <= usize::MAX,
        is_ink(mask, origin),
    ensures
        c.points@.len() > 0,
        c.points@[0] == origin,
        forall|i: int| 0 <= i < c.points@.len() ==> is_ink(mask, #[trigger] c.points@[i]),
        traced(mask, origin, c.points@),
{
    let i0 = origin;
    let first = initial_direction(mask, i0);
    if first.is_none() {
        let mut points: Vec<(i32, i32)> = Vec::new();
        points.push(i0);
        proof {
            assert(points@ =~= seq![origin]);
        }
        return Contour { points };
    }
    let mut s = first.unwrap();
    let (i1, _) = neighbour(mask, i0, s);
    let ghost s1 = s as int;
    let mut points: Vec<(i32, i32)> = Vec::new();
    let mut i3 = i0;
    proof {
        assert(8 * mask.w <= 8 * mask.w * mask.h) by (nonlinear_arith)
            requires
                mask.h >= 1,
        ;
    }
    let cap = 8 * mask.w * mask.h + 8;
    let mut steps: usize = 0;
    while steps < cap
        invariant_except_break
            (i3, s as int) == walk(mask, i0, s1, steps as nat),
            forall|k: int| 0 <= k < steps ==> !#[trigger] closes(mask, i0, i1, s1, k as nat),
        invariant
            mask.wf(),
            mask.w < i32::MAX,
            mask.h < i32::MAX,
            is_ink(mask, i0),
            0 <= s1 < 8,
            s < 8,
            i1 == offset(i0, s1),
            steps <= cap,
            cap == walk_cap(mask),
            points@.len() == steps,
            forall|k: int| 0 <= k < steps ==> #[trigger] points@[k] == walk(mask, i0, s1, k as nat).0,
        ensures
            points@.len() > 0,
            points@.len() <= cap,
            forall|k: int| 0 <= k < points@.len() ==> #[trigger] points@[k] == walk(mask, i0, s1, k as nat).0,
            forall|k: int| 0 <= k < points@.len() - 1 ==> !#[trigger] closes(mask, i0, i1, s1, k as nat),
            points@.len() == cap || closes(mask, i0, i1, s1, (points@.len() - 1) as nat),
        decreases cap - steps,
    {
        proof {
            lemma_walk_ink(mask, i0, s1, steps as nat);
        }
        let (sf, i4) = turn_from(mask, i3, s);
        points.push(i3);
        steps = steps + 1;
        if i4.0 == i0.0 && i4.1 == i0.1 && i3.0 == i1.0 && i3.1 == i1.1 {
            proof {
                assert(closes(mask, i0, i1, s1, (steps - 1) as nat));
            }
            break;
        }
        proof {
            assert(!closes(mask, i0, i1, s1, (steps - 1) as nat));
        }
        i3 = i4;
        s = (sf + 4) % 8;
    }
    proof {
        assert forall|i: int| 0 <= i < points@.len() implies is_ink(mask, #[trigger] points@[i]) by {
            lemma_walk_ink(mask, i0, s1, i as nat);
        }
    }
    Contour { points }
}

/// `(x, y)` is a foreground pixel of `mask`.
pub open spec fn ink_px(mask: &Gray, x: int, y: int) -> bool {
    0 <= x < mask.w && 0 <= y < mask.h && mask.px(x, y) != 0
}

/// `(qx, qy)` is foreground and reached from `(sx, sy)` in at most `k`
/// steps between 8-neighbours that are all foreground.
pub open spec fn reach8(mask: &Gray, sx: int, sy: int, qx: int, qy: int, k: nat) -> bool
    decreases k,
{
    &&& ink_px(mask, qx, qy)
    &&& (qx == sx && qy == sy) || (k > 0 && exists|px: int, py: int|
        #![trigger adjacent8(px, py, qx, qy)]
        adjacent8(px, py, qx, qy) && reach8(mask, sx, sy, px, py, (k - 1) as nat))
}

/// `(qx, qy)` is in the 8-connected foreground component of `(sx, sy)`.
pub open spec fn conn8(mask: &Gray, sx: int, sy: int, qx: int, qy: int) -> bool {
    exists|k: nat| reach8(mask, sx, sy, qx, qy, k)
}

/// `(x, y)` is off the image, or outer background.
pub open spec fn off_or_outer(mask: &Gray, x: int, y: int) -> bool {
    !(0 <= x < mask.w && 0 <= y < mask.h) || (mask.px(x, y) == 0 && outer_pixel(mask, x, y))
}

/// Some 8-neighbour of `(x, y)` is off the image or outer background.
pub open spec fn touches_outside(mask: &Gray, x: int, y: int) -> bool {
    exists|d: int| 0 <= d < 8 && #[trigger] off_or_outer(mask, x + delta_spec(d).0, y + delta_spec(d).1)
}

/// The component of `(x, y)` touches the outside: it has an outer border.
pub open spec fn external_component(mask: &Gray, x: int, y: int) -> bool {
    exists|qx: int, qy: int| #[trigger] conn8(mask, x, y, qx, qy) && touches_outside(mask, qx, qy)
}

/// `(x, y)` is foreground and the first pixel of its component in raster
/// order.
pub open spec fn first_of_component(mask: &Gray, x: int, y: int) -> bool {
    &&& ink_px(mask, x, y)
    &&& forall|ex: int, ey: int|
        0 <= ex < mask.w && 0 <= ey < mask.h && ey * mask.w + ex < y * mask.w + x ==> !#[trigger] conn8(
            mask,
            ex,
            ey,
            x,
            y,
        )
}

/// A contour starts at `(x, y)`: the first pixel of an external component.
pub open spec fn contour_start(mask: &Gray, x: int, y: int) -> bool {
    first_of_component(mask, x, y) && external_component(mask, x, y)
}

pub proof fn lemma_reach8_start(mask: &Gray, sx: int, sy: int, qx: int, qy: int, k: nat)
    requires
        reach8(mask, sx, sy, qx, qy, k),
    ensures
        ink_px(mask, sx, sy),
    decreases k,
{
    if !(qx == sx && qy == sy) {
        let (px, py) = choose|px: int, py: int|
            #![trigger adjacent8(px, py, qx, qy)]
            adjacent8(px, py, qx, qy) && reach8(mask, sx, sy, px, py, (k - 1) as nat);
        lemma_reach8_start(mask, sx, sy, px, py, (k - 1) as nat);
    }
}

proof fn lemma_reach8_trans(mask: &Gray, ax: int, ay: int, bx: int, by: int, cx: int, cy: int, k1: nat, k2: nat)
    requires
        reach8(mask, ax, ay, bx, by, k1),
        reach8(mask, bx, by, cx, cy, k2),
    ensures
        reach8(mask, ax, ay, cx, cy, k1 + k2),
    decreases k2,
{
    if cx == bx && cy == by {
        lemma_reach8_more(mask, ax, ay, bx, by, k1, k1 + k2);
    } else {
        let (px, py) = choose|px: int, py: int|
            #![trigger adjacent8(px, py, cx, cy)]
            adjacent8(px, py, cx, cy) && reach8(mask, bx, by, px, py, (k2 - 1) as nat);
        lemma_reach8_trans(mask, ax, ay, bx, by, px, py, k1, (k2 - 1) as nat);
        assert(reach8(mask, ax, ay, cx, cy, k1 + k2));
    }
}

proof fn lemma_reach8_more(mask: &Gray, sx: int, sy: int, qx: int, qy: int, k: nat, m: nat)
    requires
        reach8(mask, sx, sy, qx, qy, k),
        k <= m,
    ensures
        reach8(mask, sx, sy, qx, qy, m),
    decreases k,
{
    if !(qx == sx && qy == sy) {
        let (px, py) = choose|px: int, py: int|
            #![trigger adjacent8(px, py, qx, qy)]
            adjacent8(px, py, qx, qy) && reach8(mask, sx, sy, px, py, (k - 1) as nat);
        lemma_reach8_more(mask, sx, sy, px, py, (k - 1) as nat, (m - 1) as nat);
    }
}

proof fn lemma_reach8_sym(mask: &Gray, ax: int, ay: int, bx: int, by: int, k: nat)
    requires
        reach8(mask, ax, ay, bx, by, k),
    ensures
        reach8(mask, bx, by, ax, ay, k),
    decreases k,
{
    lemma_reach8_start(mask, ax, ay, bx, by, k);
    if !(bx == ax && by == ay) {
        let (px, py) = choose|px: int, py: int|
            #![trigger adjacent8(px, py, bx, by)]
            adjacent8(px, py, bx, by) && reach8(mask, ax, ay, px, py, (k - 1) as nat);
        lemma_reach8_sym(mask, ax, ay, px, py, (k - 1) as nat);
        assert(reach8(mask, bx, by, bx, by, 0));
        assert(adjacent8(bx, by, px, py));
        assert(reach8(mask, bx, by, px, py, 1));
        lemma_reach8_trans(mask, bx, by, px, py, ax, ay, 1, (k - 1) as nat);
    }
}

/// 8-connection is symmetric and transitive.
pub proof fn lemma_conn8_sym_trans(mask: &Gray, ax: int, ay: int, bx: int, by: int, cx: int, cy: int)
    ensures
        conn8(mask, ax, ay, bx, by) ==> conn8(mask, bx, by, ax, ay),
        conn8(mask, ax, ay, bx, by) && conn8(mask, bx, by, cx, cy) ==> conn8(mask, ax, ay, cx, cy),
{
    if conn8(mask, ax, ay, bx, by) {
        let k = choose|k: nat| reach8(mask, ax, ay, bx, by, k);
        lemma_reach8_sym(mask, ax, ay, bx, by, k);
        if conn8(mask, bx, by, cx, cy) {
            let k2 = choose|k2: nat| reach8(mask, bx, by, cx, cy, k2);
            lemma_reach8_trans(mask, ax, ay, bx, by, cx, cy, k, k2);
        }
    }
}

/// The neighbour of `(x, y)` in each direction, as an index of [`delta_spec`].
proof fn lemma_adjacent8_direction(x: int, y: int, qx: int, qy: int)
    requires
        adjacent8(x, y, qx, qy),
    ensures
        exists|d: int| 0 <= d < 8 && qx == x + delta_spec(d).0 && qy == y + delta_spec(d).1,
{
    let dx = qx - x;
    let dy = qy - y;
    if dx == 1 && dy == 0 {
        assert(delta_spec(0) == (1i32, 0i32));
    } else if dx == 1 && dy == -1 {
        assert(delta_spec(1) == (1i32, -1i32));
    } else if dx == 0 && dy == -1 {
        assert(delta_spec(2) == (0i32, -1i32));
    } else if dx == -1 && dy == -1 {
        assert(delta_spec(3) == (-1i32, -1i32));
    } else if dx == -1 && dy == 0 {
        assert(delta_spec(4) == (-1i32, 0i32));
    } else if dx == -1 && dy == 1 {
        assert(delta_spec(5) == (-1i32, 1i32));
    } else if dx == 0 && dy == 1 {
        assert(delta_spec(6) == (0i32, 1i32));
    } else {
        assert(delta_spec(7) == (1i32, 1i32));
    }
}

/// Entry `(x, y)` of a `w`-wide label plane.
pub open spec fn lab(label: Seq<u32>, w: int, x: int, y: int) -> u32 {
    label[y * w + x]
}

/// The pixels labelled `id` that are not waiting on the stack (nor `skip`)
/// have every foreground 8-neighbour labelled.
pub open spec fn labels_closed(mask: &Gray, label: Seq<u32>, stack: Seq<(usize, usize)>, id: u32, skip: Option<(int, int)>) -> bool {
    forall|px: int, py: int, qx: int, qy: int|
        #![trigger adjacent8(px, py, qx, qy)]
        0 <= px < mask.w && 0 <= py < mask.h && adjacent8(px, py, qx, qy) && lab(label, mask.w as int, px, py)
            == id && !stack.contains((px as usize, py as usize)) && skip != Some((px, py)) && ink_px(
            mask,
            qx,
            qy,
        ) ==> lab(label, mask.w as int, qx, qy) != u32::MAX
}

proof fn lemma_component_labelled(
    mask: &Gray,
    pre: Seq<u32>,
    label: Seq<u32>,
    id: u32,
    sx: int,
    sy: int,
    qx: int,
    qy: int,
    k: nat,
)
    requires
        mask.wf(),
        label.len() == mask.w * mask.h,
        pre.len() == mask.w * mask.h,
        labels_closed(mask, label, Seq::empty(), id, None),
        lab(label, mask.w as int, sx, sy) == id,
        forall|x: int, y: int|
            0 <= x < mask.w && 0 <= y < mask.h ==> #[trigger] lab(label, mask.w as int, x, y) == lab(
                pre,
                mask.w as int,
                x,
                y,
            ) || (lab(pre, mask.w as int, x, y) == u32::MAX && lab(label, mask.w as int, x, y) == id),
        forall|x: int, y: int|
            0 <= x < mask.w && 0 <= y < mask.h && #[trigger] conn8(mask, sx, sy, x, y) ==> lab(
                pre,
                mask.w as int,
                x,
                y,
            ) == u32::MAX,
        reach8(mask, sx, sy, qx, qy, k),
    ensures
        lab(label, mask.w as int, qx, qy) == id,
    decreases k,
{
    assert(conn8(mask, sx, sy, qx, qy));
    if !(qx == sx && qy == sy) {
        let (px, py) = choose|px: int, py: int|
            #![trigger adjacent8(px, py, qx, qy)]
            adjacent8(px, py, qx, qy) && reach8(mask, sx, sy, px, py, (k - 1) as nat);
        lemma_component_labelled(mask, pre, label, id, sx, sy, px, py, (k - 1) as nat);
        assert(!Seq::<(usize, usize)>::empty().contains((px as usize, py as usize)));
        assert(lab(label, mask.w as int, qx, qy) != u32::MAX);
        assert(lab(pre, mask.w as int, qx, qy) == u32::MAX);
    }
}

/// Labels the 8-connected foreground component of `(x, y)` with `id`, and
/// says whether it touches the outside (see [`external_component`]). The
/// component must be unlabelled; nothing else changes.
fn label_component(mask: &Gray, outside: &Vec<bool>, label: &mut Vec<u32>, x: usize, y: usize, id: u32) -> (external: bool)
    requires
        mask.wf(),
        mask.w < i32::MAX,
        mask.h < i32::MAX,
        mask.w * mask.h < u32::MAX,
        outside@.len() == mask.w * mask.h,
        forall|ox: int, oy: int|
            0 <= ox < mask.w && 0 <= oy < mask.h ==> (flag(outside@, mask.w as int, ox, oy)
                <==> #[trigger] outer_pixel(mask, ox, oy)),
        old(label)@.len() == mask.w * mask.h,
        x < mask.w,
        y < mask.h,
        mask.px(x as int, y as int) != 0,
        id != u32::MAX,
        forall|i: int| 0 <= i < mask.w * mask.h ==> #[trigger] old(label)@[i] == u32::MAX || old(label)@[i] < id,
        forall|qx: int, qy: int|
            0 <= qx < mask.w && 0 <= qy < mask.h && #[trigger] conn8(mask, x as int, y as int, qx, qy) ==> lab(
                old(label)@,
                mask.w as int,
                qx,
                qy,
            ) == u32::MAX,
    ensures
        final(label)@.len() == mask.w * mask.h,
        forall|qx: int, qy: int|
            0 <= qx < mask.w && 0 <= qy < mask.h ==> #[trigger] lab(final(label)@, mask.w as int, qx, qy) == (
            if conn8(mask, x as int, y as int, qx, qy) {
                id
            } else {
                lab(old(label)@, mask.w as int, qx, qy)
            }),
        forall|i: int|
            0 <= i < mask.w * mask.h ==> #[trigger] final(label)@[i] == u32::MAX || final(label)@[i] <= id,
        external == external_component(mask, x as int, y as int),
{
    let w = mask.w;
    let h = mask.h;
    let n = w * h;
    let ghost pre = label@;
    let ghost sx = x as int;
    let ghost sy = y as int;
    proof {
        lemma_index_in_grid(x as int, y as int, w as int, h as int);
        assert(reach8(mask, sx, sy, sx, sy, 0));
        assert(conn8(mask, sx, sy, sx, sy));
    }
    let mut external = false;
    let mut stack: Vec<(usize, usize)> = Vec::new();
    proof {
        lemma_count_eq_update(label@, y * w + x, u32::MAX, id);
    }
    label.set(y * w + x, id);
    stack.push((x, y));
    proof {
        assert forall|px: int, py: int| 0 <= px < w && 0 <= py < h implies #[trigger] lab(label@, w as int, px, py)
            == (if (px, py) == (sx, sy) {
            id
        } else {
            lab(pre, w as int, px, py)
        }) by {
            lemma_index_in_grid(px, py, w as int, h as int);
            if (px, py) != (sx, sy) {
                crate::arith::lemma_index_distinct(px, py, sx, sy, w as int);
            }
        }
        assert(stack@[0] == (x, y));
        assert(stack@.contains((x, y)));
        assert forall|px: int, py: int| 0 <= px < w && 0 <= py < h && lab(label@, w as int, px, py) == id
            implies (px, py) == (sx, sy) by {
            lemma_index_in_grid(px, py, w as int, h as int);
            assert(pre[py * w + px] == u32::MAX || pre[py * w + px] < id);
        }
    }
    while stack.len() > 0
        invariant
            mask.wf(),
            w == mask.w,
            h == mask.h,
            w < i32::MAX,
            h < i32::MAX,
            n == w * h,
            0 <= sx < w,
            0 <= sy < h,
            outside@.len() == n,
            forall|ox: int, oy: int|
                0 <= ox < w && 0 <= oy < h ==> (flag(outside@, w as int, ox, oy) <==> #[trigger] outer_pixel(
                    mask,
                    ox,
                    oy,
                )),
            label@.len() == n,
            pre.len() == n,
            id != u32::MAX,
            forall|i: int| 0 <= i < n ==> #[trigger] pre[i] == u32::MAX || pre[i] < id,
            forall|px: int, py: int|
                0 <= px < w && 0 <= py < h ==> #[trigger] lab(label@, w as int, px, py) == lab(
                    pre,
                    w as int,
                    px,
                    py,
                ) || (lab(pre, w as int, px, py) == u32::MAX && lab(label@, w as int, px, py) == id),
            forall|px: int, py: int|
                0 <= px < w && 0 <= py < h && #[trigger] lab(label@, w as int, px, py) == id ==> conn8(
                    mask,
                    sx,
                    sy,
                    px,
                    py,
                ),
            lab(label@, w as int, sx, sy) == id,
            forall|j: int|
                0 <= j < stack@.len() ==> (#[trigger] stack@[j]).0 < w && stack@[j].1 < h && lab(
                    label@,
                    w as int,
                    stack@[j].0 as int,
                    stack@[j].1 as int,
                ) == id,
            labels_closed(mask, label@, stack@, id, None),
            external ==> external_component(mask, sx, sy),
            forall|px: int, py: int|
                0 <= px < w && 0 <= py < h && lab(label@, w as int, px, py) == id && !stack@.contains(
                    (px as usize, py as usize),
                ) && #[trigger] touches_outside(mask, px, py) ==> external,
        decreases count_eq(label@, u32::MAX), stack@.len(),
    {
        let ghost full_stack = stack@;
        let (cx, cy) = stack.pop().unwrap();
        let ghost count_before = count_eq(label@, u32::MAX);
        let ghost len_before = stack@.len();
        let ghost stack_before = stack@;
        let ghost skip = Some((cx as int, cy as int));
        proof {
            assert(full_stack == stack@.push((cx, cy)));
            assert(full_stack[full_stack.len() - 1] == (cx, cy));
            assert forall|px: int, py: int, qx: int, qy: int|
                #![trigger adjacent8(px, py, qx, qy)]
                0 <= px < w && 0 <= py < h && adjacent8(px, py, qx, qy) && lab(label@, w as int, px, py) == id
                    && !stack@.contains((px as usize, py as usize)) && skip != Some((px, py)) && ink_px(
                    mask,
                    qx,
                    qy,
                ) implies lab(label@, w as int, qx, qy) != u32::MAX by {
                if full_stack.contains((px as usize, py as usize)) {
                    let j = choose|j: int| 0 <= j < full_stack.len() && full_stack[j] == (px as usize, py as usize);
                    if j < full_stack.len() - 1 {
                        assert(stack@[j] == full_stack[j]);
                    }
                }
            }
            assert forall|px: int, py: int|
                0 <= px < w && 0 <= py < h && lab(label@, w as int, px, py) == id && !stack@.contains(
                    (px as usize, py as usize),
                ) && skip != Some((px, py)) && #[trigger] touches_outside(mask, px, py) implies external by {
                if full_stack.contains((px as usize, py as usize)) {
                    let j = choose|j: int| 0 <= j < full_stack.len() && full_stack[j] == (px as usize, py as usize);
                    if j < full_stack.len() - 1 {
                        assert(stack@[j] == full_stack[j]);
                    }
                }
            }
        }
        let mut d: usize = 0;
        while d < 8
            invariant
                mask.wf(),
                w == mask.w,
                h == mask.h,
                w < i32::MAX,
                h < i32::MAX,
                n == w * h,
                0 <= sx < w,
                0 <= sy < h,
                cx < w,
                cy < h,
                d <= 8,
                skip == Some((cx as int, cy as int)),
                outside@.len() == n,
                forall|ox: int, oy: int|
                    0 <= ox < w && 0 <= oy < h ==> (flag(outside@, w as int, ox, oy)
                        <==> #[trigger] outer_pixel(mask, ox, oy)),
                label@.len() == n,
                pre.len() == n,
                id != u32::MAX,
                forall|i: int| 0 <= i < n ==> #[trigger] pre[i] == u32::MAX || pre[i] < id,
                forall|px: int, py: int|
                    0 <= px < w && 0 <= py < h ==> #[trigger] lab(label@, w as int, px, py) == lab(
                        pre,
                        w as int,
                        px,
                        py,
                    ) || (lab(pre, w as int, px, py) == u32::MAX && lab(label@, w as int, px, py) == id),
                forall|px: int, py: int|
                    0 <= px < w && 0 <= py < h && #[trigger] lab(label@, w as int, px, py) == id ==> conn8(
                        mask,
                        sx,
                        sy,
                        px,
                        py,
                    ),
                lab(label@, w as int, sx, sy) == id,
                lab(label@, w as int, cx as int, cy as int) == id,
                forall|j: int|
                    0 <= j < stack@.len() ==> (#[trigger] stack@[j]).0 < w && stack@[j].1 < h && lab(
                        label@,
                        w as int,
                        stack@[j].0 as int,
                        stack@[j].1 as int,
                    ) == id,
                labels_closed(mask, label@, stack@, id, skip),
                external ==> external_component(mask, sx, sy),
                forall|px: int, py: int|
                    0 <= px < w && 0 <= py < h && lab(label@, w as int, px, py) == id && !stack@.contains(
                        (px as usize, py as usize),
                    ) && skip != Some((px, py)) && #[trigger] touches_outside(mask, px, py) ==> external,
                forall|e: int|
                    0 <= e < d ==> #[trigger] off_or_outer(
                        mask,
                        cx + delta_spec(e).0,
                        cy + delta_spec(e).1,
                    ) ==> external,
                forall|e: int|
                    0 <= e < d && ink_px(mask, cx + delta_spec(e).0, cy + delta_spec(e).1) ==> lab(
                        label@,
                        w as int,
                        cx + #[trigger] delta_spec(e).0,
                        cy + delta_spec(e).1,
                    ) != u32::MAX,
                count_eq(label@, u32::MAX) + (stack@.len() - len_before) == count_before,
                stack@.len() >= len_before,
                forall|j: int| 0 <= j < len_before ==> stack@[j] == #[trigger] stack_before[j],
            decreases 8 - d,
        {
            let (dx, dy) = delta(d);
            let nx = cx as i32 + dx;
            let ny = cy as i32 + dy;
            if nx < 0 || ny < 0 || nx >= w as i32 || ny >= h as i32 {
                proof {
                    assert(off_or_outer(mask, cx + delta_spec(d as int).0, cy + delta_spec(d as int).1));
                    assert(touches_outside(mask, cx as int, cy as int));
                    assert(conn8(mask, sx, sy, cx as int, cy as int));
                }
                external = true;
            } else {
                let nxu = nx as usize;
                let nyu = ny as usize;
                proof {
                    lemma_index_in_grid(nxu as int, nyu as int, w as int, h as int);
                }
                if mask.at(nxu, nyu) == 0 {
                    if outside[nyu * w + nxu] {
                        proof {
                            assert(flag(outside@, w as int, nxu as int, nyu as int));
                            assert(off_or_outer(mask, cx + delta_spec(d as int).0, cy + delta_spec(d as int).1));
                            assert(touches_outside(mask, cx as int, cy as int));
                            assert(conn8(mask, sx, sy, cx as int, cy as int));
                        }
                        external = true;
                    } else {
                        proof {
                            assert(!flag(outside@, w as int, nxu as int, nyu as int));
                        }
                    }
                } else if label[nyu * w + nxu] == u32::MAX {
                    let ghost before = label@;
                    let ghost stack_pre = stack@;
                    proof {
                        lemma_count_eq_update(label@, nyu * w + nxu, u32::MAX, id);
                    }
                    label.set(nyu * w + nxu, id);
                    stack.push((nxu, nyu));
                    proof {
                        assert forall|px: int, py: int| 0 <= px < w && 0 <= py < h implies #[trigger] lab(
                            label@,
                            w as int,
                            px,
                            py,
                        ) == (if (px, py) == (nxu as int, nyu as int) {
                            id
                        } else {
                            lab(before, w as int, px, py)
                        }) by {
                            lemma_index_in_grid(px, py, w as int, h as int);
                            if (px, py) != (nxu as int, nyu as int) {
                                crate::arith::lemma_index_distinct(px, py, nxu as int, nyu as int, w as int);
                            }
                        }
                        assert(lab(before, w as int, nxu as int, nyu as int) == u32::MAX);
                        assert(lab(pre, w as int, nxu as int, nyu as int) == u32::MAX);
                        // The new pixel joins the component through the popped one.
                        assert(conn8(mask, sx, sy, cx as int, cy as int));
                        let kk = choose|kk: nat| reach8(mask, sx, sy, cx as int, cy as int, kk);
                        assert(adjacent8(cx as int, cy as int, nxu as int, nyu as int));
                        assert(reach8(mask, sx, sy, nxu as int, nyu as int, kk + 1));
                        assert forall|j: int| 0 <= j < stack@.len() implies (#[trigger] stack@[j]).0 < w
                            && stack@[j].1 < h && lab(label@, w as int, stack@[j].0 as int, stack@[j].1 as int)
                            == id by {
                            if j < stack_pre.len() {
                                assert(stack@[j] == stack_pre[j]);
                            }
                        }
                        assert forall|j: int| 0 <= j < len_before implies stack@[j] == #[trigger] stack_before[j] by {
                            assert(stack@[j] == stack_pre[j]);
                        }
                        assert(stack@[stack@.len() - 1] == (nxu, nyu));
                        assert(stack@.contains((nxu, nyu)));
                        assert forall|px: int, py: int, qx: int, qy: int|
                            #![trigger adjacent8(px, py, qx, qy)]
                            0 <= px < w && 0 <= py < h && adjacent8(px, py, qx, qy) && lab(label@, w as int, px, py)
                                == id && !stack@.contains((px as usize, py as usize)) && skip != Some((px, py))
                                && ink_px(mask, qx, qy) implies lab(label@, w as int, qx, qy) != u32::MAX by {
                            if (px, py) != (nxu as int, nyu as int) {
                                if stack_pre.contains((px as usize, py as usize)) {
                                    let j = choose|j: int| 0 <= j < stack_pre.len() && stack_pre[j] == (px as usize, py as usize);
                                    assert(stack@[j] == (px as usize, py as usize));
                                }
                                assert(lab(before, w as int, px, py) == id);
                                assert(lab(before, w as int, qx, qy) != u32::MAX);
                            }
                        }
                        assert forall|px: int, py: int|
                            0 <= px < w && 0 <= py < h && lab(label@, w as int, px, py) == id && !stack@.contains(
                                (px as usize, py as usize),
                            ) && skip != Some((px, py)) && #[trigger] touches_outside(mask, px, py) implies external by {
                            if (px, py) != (nxu as int, nyu as int) {
                                if stack_pre.contains((px as usize, py as usize)) {
                                    let j = choose|j: int| 0 <= j < stack_pre.len() && stack_pre[j] == (px as usize, py as usize);
                                    assert(stack@[j] == (px as usize, py as usize));
                                }
                                assert(lab(before, w as int, px, py) == id);
                            }
                        }
                        assert forall|e: int|
                            0 <= e < d && ink_px(mask, cx + delta_spec(e).0, cy + delta_spec(e).1) implies lab(
                            label@,
                            w as int,
                            cx + #[trigger] delta_spec(e).0,
                            cy + delta_spec(e).1,
                        ) != u32::MAX by {
                            assert(lab(before, w as int, cx + delta_spec(e).0, cy + delta_spec(e).1) != u32::MAX);
                        }
                    }
                }
            }
            d = d + 1;
        }
        proof {
            assert forall|px: int, py: int, qx: int, qy: int|
                #![trigger adjacent8(px, py, qx, qy)]
                0 <= px < w && 0 <= py < h && adjacent8(px, py, qx, qy) && lab(label@, w as int, px, py) == id
                    && !stack@.contains((px as usize, py as usize)) && ink_px(mask, qx, qy) implies lab(
                    label@,
                    w as int,
                    qx,
                    qy,
                ) != u32::MAX by {
                if (px, py) == (cx as int, cy as int) {
                    lemma_adjacent8_direction(px, py, qx, qy);
                    let e = choose|e: int| 0 <= e < 8 && qx == px + delta_spec(e).0 && qy == py + delta_spec(e).1;
                    assert(ink_px(mask, cx + delta_spec(e).0, cy + delta_spec(e).1));
                } else {
                    assert(skip != Some((px, py)));
                }
            }
            assert forall|px: int, py: int|
                0 <= px < w && 0 <= py < h && lab(label@, w as int, px, py) == id && !stack@.contains(
                    (px as usize, py as usize),
                ) && #[trigger] touches_outside(mask, px, py) implies external by {
                if (px, py) == (cx as int, cy as int) {
                    let e = choose|e: int| 0 <= e < 8 && #[trigger] off_or_outer(mask, px + delta_spec(e).0, py + delta_spec(e).1);
                    assert(off_or_outer(mask, cx + delta_spec(e).0, cy + delta_spec(e).1));
                } else {
                    assert(skip != Some((px, py)));
                }
            }
        }
    }
    proof {
        assert(stack@ =~= Seq::<(usize, usize)>::empty());
        assert(labels_closed(mask, label@, Seq::empty(), id, None));
        assert forall|qx: int, qy: int| 0 <= qx < w && 0 <= qy < h implies #[trigger] lab(label@, w as int, qx, qy)
            == (if conn8(mask, sx, sy, qx, qy) {
            id
        } else {
            lab(pre, w as int, qx, qy)
        }) by {
            lemma_index_in_grid(qx, qy, w as int, h as int);
            if conn8(mask, sx, sy, qx, qy) {
                let kk = choose|kk: nat| reach8(mask, sx, sy, qx, qy, kk);
                lemma_component_labelled(mask, pre, label@, id, sx, sy, qx, qy, kk);
            } else {
                assert(pre[qy * w + qx] == u32::MAX || pre[qy * w + qx] < id);
            }
        }
        assert forall|i: int| 0 <= i < n implies #[trigger] label@[i] == u32::MAX || label@[i] <= id by {
            crate::arith::lemma_grid_coords(i, w as int, h as int);
            vstd::arithmetic::div_mod::lemma_fundamental_div_mod(i, w as int);
            let px = i % (w as int);
            let py = i / (w as int);
            assert(i == py * w + px);
            assert(lab(label@, w as int, px, py) == label@[i]);
        }
        if external_component(mask, sx, sy) {
            let (qx, qy) = choose|qx: int, qy: int| #[trigger] conn8(mask, sx, sy, qx, qy) && touches_outside(mask, qx, qy);
            let kk = choose|kk: nat| reach8(mask, sx, sy, qx, qy, kk);
            lemma_component_labelled(mask, pre, label@, id, sx, sy, qx, qy, kk);
            assert(!stack@.contains((qx as usize, qy as usize)));
        }
    }
    external
}

/// The raster index of `p` in `mask`.
pub open spec fn raster(mask: &Gray, p: (i32, i32)) -> int {
    p.1 * mask.w + p.0
}

/// `cv2.findContours(mask, cv2.RETR_EXTERNAL, cv2.CHAIN_APPROX_SIMPLE)`: the
/// outer border of every 8-connected foreground component that touches the
/// outside ([`contour_start`]), traced from the component's first pixel, in
/// raster order of those pixels. The approximation step is skipped because it
/// changes neither the area nor the bounding box.
pub fn find_external_contours(mask: &Gray) -> (out: Vec<Contour>)
    requires
        mask.wf(),
        mask.w < i32::MAX,
        mask.h < i32::MAX,
        8 * mask.w * mask.h + 8 <= usize::MAX,
        mask.w * mask.h < u32::MAX,
    ensures
        forall|k: int|
            0 <= k < out@.len() ==> (#[trigger] out@[k]).points@.len() > 0 && forall|i: int|
                0 <= i < out@[k].points@.len() ==> is_ink(mask, #[trigger] out@[k].points@[i]),
        forall|k: int| 0 <= k < out@.len() ==> traced(mask, (#[trigger] out@[k]).points@[0], out@[k].points@),
        forall|k: int|
            0 <= k < out@.len() ==> contour_start(
                mask,
                (#[trigger] out@[k]).points@[0].0 as int,
                out@[k].points@[0].1 as int,
            ),
        forall|x: int, y: int|
            0 <= x < mask.w && 0 <= y < mask.h && #[trigger] contour_start(mask, x, y) ==> exists|k: int|
                0 <= k < out@.len() && (#[trigger] out@[k]).points@[0] == (x as i32, y as i32),
        forall|j: int, k: int|
            0 <= j < k < out@.len() ==> raster(mask, (#[trigger] out@[j]).points@[0]) < raster(
                mask,
                (#[trigger] out@[k]).points@[0],
            ),
{
    if mask.is_empty() {
        proof {
            assert forall|x: int, y: int| 0 <= x < mask.w && 0 <= y < mask.h implies !#[trigger] contour_start(
                mask,
                x,
                y,
            ) by {
                assert(mask.w * mask.h > 0) by (nonlinear_arith)
                    requires
                        0 <= x < mask.w,
                        0 <= y < mask.h,
                ;
            }
        }
        return Vec::new();
    }
    let w = mask.w;
    let h = mask.h;
    let n = w * h;
    let outside = outer_background(mask);
    let mut label: Vec<u32> = vec![u32::MAX; n];
    let mut out: Vec<Contour> = Vec::new();
    let mut next_label: u32 = 0;
    assert(mask.data@.len() == mask.data.len());
    proof {
        assert forall|qx: int, qy: int| 0 <= qx < w && 0 <= qy < h implies #[trigger] lab(label@, w as int, qx, qy)
            == u32::MAX by {
            lemma_index_in_grid(qx, qy, w as int, h as int);
        }
    }
    let mut y: usize = 0;
    while y < h
        invariant
            mask.wf(),
            w == mask.w,
            h == mask.h,
            w > 0,
            w < i32::MAX,
            h < i32::MAX,
            8 * w * h + 8 <= usize::MAX,
            n == w * h,
            n < u32::MAX,
            outside@.len() == n,
            forall|ox: int, oy: int|
                0 <= ox < w && 0 <= oy < h ==> (flag(outside@, w as int, ox, oy) <==> #[trigger] outer_pixel(
                    mask,
                    ox,
                    oy,
                )),
            label@.len() == n,
            y <= h,
            next_label <= y * w,
            forall|i: int| 0 <= i < n ==> #[trigger] label@[i] == u32::MAX || label@[i] < next_label,
            forall|qx: int, qy: int|
                0 <= qx < w && 0 <= qy < h ==> (#[trigger] lab(label@, w as int, qx, qy) != u32::MAX <==> exists|
                    ex: int,
                    ey: int,
                | 0 <= ex < w && 0 <= ey < h && ey * w + ex < y * w && #[trigger] conn8(mask, ex, ey, qx, qy)),
            forall|k: int|
                0 <= k < out@.len() ==> (#[trigger] out@[k]).points@.len() > 0 && forall|i: int|
                    0 <= i < out@[k].points@.len() ==> is_ink(mask, #[trigger] out@[k].points@[i]),
            forall|k: int| 0 <= k < out@.len() ==> traced(mask, (#[trigger] out@[k]).points@[0], out@[k].points@),
            forall|k: int|
                0 <= k < out@.len() ==> contour_start(
                    mask,
                    (#[trigger] out@[k]).points@[0].0 as int,
                    out@[k].points@[0].1 as int,
                ),
            forall|px: int, py: int|
                0 <= px < w && 0 <= py < h && py * w + px < y * w && #[trigger] contour_start(mask, px, py)
                    ==> exists|k: int|
                    0 <= k < out@.len() && (#[trigger] out@[k]).points@[0] == (px as i32, py as i32),
            forall|k: int| 0 <= k < out@.len() ==> raster(mask, (#[trigger] out@[k]).points@[0]) < y * w,
            forall|j: int, k: int|
                0 <= j < k < out@.len() ==> raster(mask, (#[trigger] out@[j]).points@[0]) < raster(
                    mask,
                    (#[trigger] out@[k]).points@[0],
                ),
        decreases h - y,
    {
        let mut x: usize = 0;
        while x < w
            invariant
                mask.wf(),
                w == mask.w,
                h == mask.h,
                w > 0,
                w < i32::MAX,
                h < i32::MAX,
                8 * w * h + 8 <= usize::MAX,
                n == w * h,
                n < u32::MAX,
                outside@.len() == n,
                forall|ox: int, oy: int|
                    0 <= ox < w && 0 <= oy < h ==> (flag(outside@, w as int, ox, oy)
                        <==> #[trigger] outer_pixel(mask, ox, oy)),
                label@.len() == n,
                y < h,
                x <= w,
                next_label <= y * w + x,
                forall|i: int| 0 <= i < n ==> #[trigger] label@[i] == u32::MAX || label@[i] < next_label,
                forall|qx: int, qy: int|
                    0 <= qx < w && 0 <= qy < h ==> (#[trigger] lab(label@, w as int, qx, qy) != u32::MAX
                        <==> exists|ex: int, ey: int|
                        0 <= ex < w && 0 <= ey < h && ey * w + ex < y * w + x && #[trigger] conn8(
                            mask,
                            ex,
                            ey,
                            qx,
                            qy,
                        )),
                forall|k: int|
                    0 <= k < out@.len() ==> (#[trigger] out@[k]).points@.len() > 0 && forall|i: int|
                        0 <= i < out@[k].points@.len() ==> is_ink(mask, #[trigger] out@[k].points@[i]),
                forall|k: int| 0 <= k < out@.len() ==> traced(mask, (#[trigger] out@[k]).points@[0], out@[k].points@),
                forall|k: int|
                    0 <= k < out@.len() ==> contour_start(
                        mask,
                        (#[trigger] out@[k]).points@[0].0 as int,
                        out@[k].points@[0].1 as int,
                    ),
                forall|px: int, py: int|
                    0 <= px < w && 0 <= py < h && py * w + px < y * w + x && #[trigger] contour_start(
                        mask,
                        px,
                        py,
                    ) ==> exists|k: int|
                        0 <= k < out@.len() && (#[trigger] out@[k]).points@[0] == (px as i32, py as i32),
                forall|k: int| 0 <= k < out@.len() ==> raster(mask, (#[trigger] out@[k]).points@[0]) < y * w + x,
                forall|j: int, k: int|
                    0 <= j < k < out@.len() ==> raster(mask, (#[trigger] out@[j]).points@[0]) < raster(
                        mask,
                        (#[trigger] out@[k]).points@[0],
                    ),
            decreases w - x,
        {
            proof {
                lemma_index_in_grid(x as int, y as int, w as int, h as int);
            }
            let ghost r = y * w + x;
            let ghost px = x as int;
            let ghost py = y as int;
            let ghost old_label = label@;
            let ghost old_out = out@;
            let is_ink_here = mask.at(x, y) != 0;
            let unlabelled = label[y * w + x] == u32::MAX;
            proof {
                assert(lab(label@, w as int, px, py) == label@[y * w + x]);
            }
            if is_ink_here && unlabelled {
                let id = next_label;
                proof {
                    assert(first_of_component(mask, px, py));
                    assert forall|qx: int, qy: int|
                        0 <= qx < w && 0 <= qy < h && #[trigger] conn8(mask, px, py, qx, qy) implies lab(
                        label@,
                        w as int,
                        qx,
                        qy,
                    ) == u32::MAX by {
                        if lab(label@, w as int, qx, qy) != u32::MAX {
                            let (ex, ey) = choose|ex: int, ey: int|
                                0 <= ex < w && 0 <= ey < h && ey * w + ex < r && #[trigger] conn8(mask, ex, ey, qx, qy);
                            lemma_conn8_sym_trans(mask, px, py, qx, qy, px, py);
                            lemma_conn8_sym_trans(mask, ex, ey, qx, qy, px, py);
                            assert(conn8(mask, ex, ey, px, py));
                        }
                    }
                }
                let external = label_component(mask, &outside, &mut label, x, y, id);
                next_label = next_label + 1;
                proof {
                    assert forall|qx: int, qy: int| 0 <= qx < w && 0 <= qy < h implies (#[trigger] lab(
                        label@,
                        w as int,
                        qx,
                        qy,
                    ) != u32::MAX <==> exists|ex: int, ey: int|
                        0 <= ex < w && 0 <= ey < h && ey * w + ex < r + 1 && #[trigger] conn8(mask, ex, ey, qx, qy)) by {
                        if lab(label@, w as int, qx, qy) != u32::MAX {
                            if conn8(mask, px, py, qx, qy) {
                                assert(py * w + px < r + 1);
                            } else {
                                assert(lab(old_label, w as int, qx, qy) != u32::MAX);
                            }
                        }
                        if exists|ex: int, ey: int|
                            0 <= ex < w && 0 <= ey < h && ey * w + ex < r + 1 && #[trigger] conn8(mask, ex, ey, qx, qy) {
                            let (ex, ey) = choose|ex: int, ey: int|
                                0 <= ex < w && 0 <= ey < h && ey * w + ex < r + 1 && #[trigger] conn8(mask, ex, ey, qx, qy);
                            if ey * w + ex < r {
                                assert(lab(old_label, w as int, qx, qy) != u32::MAX);
                            } else {
                                if (ex, ey) != (px, py) {
                                    crate::arith::lemma_index_distinct(ex, ey, px, py, w as int);
                                }
                            }
                        }
                    }
                }
                if external {
                    proof {
                        assert(is_ink(mask, (x as i32, y as i32)));
                        assert(contour_start(mask, px, py));
                    }
                    let c = trace_border(mask, (x as i32, y as i32));
                    out.push(c);
                    proof {
                        assert(out@[out@.len() - 1].points@[0] == (x as i32, y as i32));
                        assert forall|k: int| 0 <= k < out@.len() implies (#[trigger] out@[k]).points@.len() > 0
                            && forall|i: int|
                            0 <= i < out@[k].points@.len() ==> is_ink(mask, #[trigger] out@[k].points@[i]) by {
                            if k < old_out.len() {
                                assert(out@[k] == old_out[k]);
                            }
                        }
                        assert forall|k: int| 0 <= k < out@.len() implies traced(
                            mask,
                            (#[trigger] out@[k]).points@[0],
                            out@[k].points@,
                        ) by {
                            if k < old_out.len() {
                                assert(out@[k] == old_out[k]);
                            }
                        }
                        assert forall|k: int| 0 <= k < out@.len() implies contour_start(
                            mask,
                            (#[trigger] out@[k]).points@[0].0 as int,
                            out@[k].points@[0].1 as int,
                        ) by {
                            if k < old_out.len() {
                                assert(out@[k] == old_out[k]);
                            }
                        }
                        assert forall|k: int| 0 <= k < out@.len() implies raster(
                            mask,
                            (#[trigger] out@[k]).points@[0],
                        ) < r + 1 by {
                            if k < old_out.len() {
                                assert(out@[k] == old_out[k]);
                            }
                        }
                        assert forall|j: int, k: int| 0 <= j < k < out@.len() implies raster(
                            mask,
                            (#[trigger] out@[j]).points@[0],
                        ) < raster(mask, (#[trigger] out@[k]).points@[0]) by {
                            assert(out@[j] == old_out[j]);
                            if k < old_out.len() {
                                assert(out@[k] == old_out[k]);
                            }
                        }
                        assert forall|qx: int, qy: int|
                            0 <= qx < w && 0 <= qy < h && qy * w + qx < r + 1 && #[trigger] contour_start(
                                mask,
                                qx,
                                qy,
                            ) implies exists|k: int|
                            0 <= k < out@.len() && (#[trigger] out@[k]).points@[0] == (qx as i32, qy as i32) by {
                            if qy * w + qx < r {
                                let k = choose|k: int|
                                    0 <= k < old_out.len() && (#[trigger] old_out[k]).points@[0] == (qx as i32, qy as i32);
                                assert(out@[k] == old_out[k]);
                            } else {
                                if (qx, qy) != (px, py) {
                                    crate::arith::lemma_index_distinct(qx, qy, px, py, w as int);
                                }
                                assert(out@[out@.len() - 1].points@[0] == (qx as i32, qy as i32));
                            }
                        }
                    }
                } else {
                    proof {
                        assert forall|qx: int, qy: int|
                            0 <= qx < w && 0 <= qy < h && qy * w + qx < r + 1 && #[trigger] contour_start(
                                mask,
                                qx,
                                qy,
                            ) implies exists|k: int|
                            0 <= k < out@.len() && (#[trigger] out@[k]).points@[0] == (qx as i32, qy as i32) by {
                            if qy * w + qx == r {
                                if (qx, qy) != (px, py) {
                                    crate::arith::lemma_index_distinct(qx, qy, px, py, w as int);
                                }
                            }
                        }
                    }
                }
            } else {
                proof {
                    // No component starts here, and nothing new is reachable from here.
                    if !is_ink_here {
                        assert(!contour_start(mask, px, py));
                    } else {
                        let (ex, ey) = choose|ex: int, ey: int|
                            0 <= ex < w && 0 <= ey < h && ey * w + ex < r && #[trigger] conn8(mask, ex, ey, px, py);
                        assert(!first_of_component(mask, px, py));
                    }
                    assert forall|qx: int, qy: int| 0 <= qx < w && 0 <= qy < h implies (#[trigger] lab(
                        label@,
                        w as int,
                        qx,
                        qy,
                    ) != u32::MAX <==> exists|ex: int, ey: int|
                        0 <= ex < w && 0 <= ey < h && ey * w + ex < r + 1 && #[trigger] conn8(mask, ex, ey, qx, qy)) by {
                        if exists|ex: int, ey: int|
                            0 <= ex < w && 0 <= ey < h && ey * w + ex < r + 1 && #[trigger] conn8(mask, ex, ey, qx, qy) {
                            let (ex, ey) = choose|ex: int, ey: int|
                                0 <= ex < w && 0 <= ey < h && ey * w + ex < r + 1 && #[trigger] conn8(mask, ex, ey, qx, qy);
                            if ey * w + ex == r {
                                if (ex, ey) != (px, py) {
                                    crate::arith::lemma_index_distinct(ex, ey, px, py, w as int);
                                }
                                let kk = choose|kk: nat| reach8(mask, ex, ey, qx, qy, kk);
                                lemma_reach8_start(mask, ex, ey, qx, qy, kk);
                                let (fx, fy) = choose|fx: int, fy: int|
                                    0 <= fx < w && 0 <= fy < h && fy * w + fx < r && #[trigger] conn8(mask, fx, fy, px, py);
                                lemma_conn8_sym_trans(mask, fx, fy, px, py, qx, qy);
                                assert(conn8(mask, fx, fy, qx, qy));
                            }
                        }
                    }
                    assert forall|qx: int, qy: int|
                        0 <= qx < w && 0 <= qy < h && qy * w + qx < r + 1 && #[trigger] contour_start(
                            mask,
                            qx,
                            qy,
                        ) implies exists|k: int|
                        0 <= k < out@.len() && (#[trigger] out@[k]).points@[0] == (qx as i32, qy as i32) by {
                        if qy * w + qx == r {
                            if (qx, qy) != (px, py) {
                                crate::arith::lemma_index_distinct(qx, qy, px, py, w as int);
                            }
                        }
                    }
                }
            }
            x = x + 1;
        }
        proof {
            assert((y + 1) * w == y * w + w) by (nonlinear_arith);
        }
        y = y + 1;
    }
    proof {
        assert forall|qx: int, qy: int|
            0 <= qx < w && 0 <= qy < h && #[trigger] contour_start(mask, qx, qy) implies exists|k: int|
            0 <= k < out@.len() && (#[trigger] out@[k]).points@[0] == (qx as i32, qy as i32) by {
            lemma_index_in_grid(qx, qy, w as int, h as int);
        }
    }
    out
}

/// How many entries of `s` are non-zero.
pub open spec fn count_nonzero_seq(s: Seq<u8>) -> nat
    decreases s.len(),
{
    if s.len() == 0 {
        0
    } else {
        count_nonzero_seq(s.drop_last()) + if s.last() != 0 {
            1nat
        } else {
            0nat
        }
    }
}

} // verus!
