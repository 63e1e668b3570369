//! The exact integer core of template correlation: summed-area tables,
//! window sums, and the raw correlation of an image with a kernel.
//!
//! Pixels and template weights are small integers, so every sum here is exact;
//! only the normalising divisions that turn these sums into scores are done in
//! floating point, by the caller.

use vstd::prelude::*;
use crate::arith::lemma_index_in_grid;
use crate::hardware::vision::image::Gray;

verus! {

/// The largest magnitude of an `i32`.
pub open spec fn i32_span() -> int {
    0x8000_0000
}

/// Sum of `px[y * w + x]` over the columns `x0 <= x < x1` of row `y`.
pub open spec fn row_sum(px: Seq<i32>, w: int, y: int, x0: int, x1: int) -> int
    decreases x1 - x0,
{
    if x1 <= x0 {
        0
    } else {
        row_sum(px, w, y, x0, x1 - 1) + px[y * w + x1 - 1]
    }
}

/// Sum of the box of columns `x0 <= x < x1` and rows `y0 <= y < y1`.
pub open spec fn box_total(px: Seq<i32>, w: int, x0: int, y0: int, x1: int, y1: int) -> int
    decreases y1 - y0,
{
    if y1 <= y0 {
        0
    } else {
        box_total(px, w, x0, y0, x1, y1 - 1) + row_sum(px, w, y1 - 1, x0, x1)
    }
}

/// Entry `(x, y)` of a summed-area table for a `w`-wide plane.
pub open spec fn sat_at(sat: Seq<i64>, w: int, x: int, y: int) -> i64 {
    sat[y * (w + 1) + x]
}

/// `sat` is the summed-area table of the `w` by `h` plane `px`: one row and
/// one column wider, entry `(x, y)` holding the sum of everything above and
/// left of it.
pub open spec fn is_integral(sat: Seq<i64>, px: Seq<i32>, w: int, h: int) -> bool {
    &&& px.len() == w * h
    &&& sat.len() == (w + 1) * (h + 1)
    &&& forall|x: int, y: int|
        0 <= x <= w && 0 <= y <= h ==> #[trigger] sat_at(sat, w, x, y) == box_total(px, w, 0, 0, x, y)
}

proof fn lemma_row_sum_bound(px: Seq<i32>, w: int, y: int, x0: int, x1: int)
    requires
        0 <= x0 <= x1 <= w,
        0 <= y,
        (y + 1) * w <= px.len(),
    ensures
        -(x1 - x0) * i32_span() <= row_sum(px, w, y, x0, x1) <= (x1 - x0) * i32_span(),
    decreases x1 - x0,
{
    if x1 > x0 {
        lemma_row_sum_bound(px, w, y, x0, x1 - 1);
        lemma_index_in_grid(x1 - 1, y, w, y + 1);
    }
}

proof fn lemma_box_total_bound(px: Seq<i32>, w: int, x0: int, x1: int, y0: int, y1: int)
    requires
        0 <= x0 <= x1 <= w,
        0 <= y0 <= y1,
        y1 * w <= px.len(),
    ensures
        -((y1 - y0) * ((x1 - x0) * i32_span())) <= box_total(px, w, x0, y0, x1, y1) <= (y1 - y0) * ((
        x1 - x0) * i32_span()),
    decreases y1 - y0,
{
    if y1 > y0 {
        assert((y1 - 1) * w <= y1 * w) by (nonlinear_arith)
            requires
                w >= 0,
        ;
        lemma_box_total_bound(px, w, x0, x1, y0, y1 - 1);
        lemma_row_sum_bound(px, w, y1 - 1, x0, x1);
        let c = (x1 - x0) * i32_span();
        assert((y1 - y0) * c == (y1 - 1 - y0) * c + c) by (nonlinear_arith);
    }
}

proof fn lemma_empty_rows(px: Seq<i32>, w: int, x0: int, y0: int, y1: int)
    ensures
        box_total(px, w, x0, y0, x0, y1) == 0,
    decreases y1 - y0,
{
    if y1 > y0 {
        lemma_empty_rows(px, w, x0, y0, y1 - 1);
    }
}

/// The summed-area table of a `w` by `h` plane.
pub fn integral(px: &Vec<i32>, w: usize, h: usize) -> (sat: Vec<i64>)
    requires
        px@.len() == w * h,
        (w + 1) * (h + 1) <= usize::MAX,
        w * h <= 0x4000_0000,
    ensures
        is_integral(sat@, px@, w as int, h as int),
{
    proof {
        assert(w + 1 <= (w + 1) * (h + 1) && h + 1 <= (w + 1) * (h + 1)) by (nonlinear_arith);
    }
    let stride = w + 1;
    let n = stride * (h + 1);
    let mut out: Vec<i64> = vec![0i64; n];
    proof {
        assert forall|x: int| 0 <= x <= w implies #[trigger] sat_at(out@, w as int, x, 0) == box_total(
            px@,
            w as int,
            0,
            0,
            x,
            0,
        ) by {
            lemma_index_in_grid(x, 0, stride as int, h + 1);
        }
    }
    let mut y: usize = 0;
    while y < h
        invariant
            y <= h,
            stride == w + 1,
            n == stride * (h + 1),
            px@.len() == w * h,
            w * h <= 0x4000_0000,
            out@.len() == n,
            forall|x: int, yy: int|
                0 <= x <= w && 0 <= yy <= y ==> #[trigger] sat_at(out@, w as int, x, yy) == box_total(
                    px@,
                    w as int,
                    0,
                    0,
                    x,
                    yy,
                ),
            forall|k: int| (y + 1) * stride <= k < n ==> out@[k] == 0,
        decreases h - y,
    {
        proof {
            lemma_index_in_grid(0, y as int + 1, stride as int, h + 1);
            lemma_empty_rows(px@, w as int, 0, 0, y + 1);
            assert(sat_at(out@, w as int, 0, y + 1) == out@[(y + 1) * stride]);
        }
        let mut run: i64 = 0;
        let mut x: usize = 0;
        while x < w
            invariant
                y < h,
                x <= w,
                stride == w + 1,
                n == stride * (h + 1),
                px@.len() == w * h,
                w * h <= 0x4000_0000,
                out@.len() == n,
                run == row_sum(px@, w as int, y as int, 0, x as int),
                forall|xx: int, yy: int|
                    0 <= xx <= w && 0 <= yy <= y ==> #[trigger] sat_at(out@, w as int, xx, yy)
                        == box_total(px@, w as int, 0, 0, xx, yy),
                forall|xx: int|
                    0 <= xx <= x ==> #[trigger] sat_at(out@, w as int, xx, y + 1) == box_total(
                        px@,
                        w as int,
                        0,
                        0,
                        xx,
                        y + 1,
                    ),
                forall|k: int| (y + 1) * stride + x + 1 <= k < n ==> out@[k] == 0,
            decreases w - x,
        {
            proof {
                lemma_index_in_grid(x as int, y as int, w as int, h as int);
                assert((y + 1) * w <= w * h) by (nonlinear_arith)
                    requires
                        y < h,
                ;
                lemma_row_sum_bound(px@, w as int, y as int, 0, x as int + 1);
                lemma_box_total_bound(px@, w as int, 0, x as int + 1, 0, y as int + 1);
                assert((y + 1) * (x + 1) * i32_span() <= 0x4000_0000 * i32_span()) by (nonlinear_arith)
                    requires
                        y + 1 <= h,
                        x + 1 <= w,
                        w * h <= 0x4000_0000,
                ;
                assert((y as int + 1) * ((x as int + 1) * i32_span()) == (y + 1) * (x + 1) * i32_span())
                    by (nonlinear_arith);
                assert(x + 1 <= w * h) by (nonlinear_arith)
                    requires
                        x < w,
                        y < h,
                ;
                lemma_index_in_grid(x as int + 1, y as int, stride as int, h + 1);
                lemma_index_in_grid(x as int + 1, y as int + 1, stride as int, h + 1);
            }
            run = run + px[y * w + x] as i64;
            let above = out[y * stride + x + 1];
            proof {
                assert(sat_at(out@, w as int, x + 1, y as int) == out@[y * stride + x + 1]);
                assert(above == box_total(px@, w as int, 0, 0, x + 1, y as int));
                assert(box_total(px@, w as int, 0, 0, x + 1, y + 1) == above + run);
            }
            let ghost before = out@;
            out.set((y + 1) * stride + x + 1, above + run);
            proof {
                assert forall|xx: int, yy: int| 0 <= xx <= w && 0 <= yy <= y implies #[trigger] sat_at(
                    out@,
                    w as int,
                    xx,
                    yy,
                ) == box_total(px@, w as int, 0, 0, xx, yy) by {
                    lemma_index_in_grid(xx, yy, stride as int, y + 1);
                    assert(sat_at(before, w as int, xx, yy) == box_total(px@, w as int, 0, 0, xx, yy));
                }
                assert forall|xx: int| 0 <= xx <= x + 1 implies #[trigger] sat_at(
                    out@,
                    w as int,
                    xx,
                    y + 1,
                ) == box_total(px@, w as int, 0, 0, xx, y + 1) by {
                    lemma_index_in_grid(xx, y as int + 1, stride as int, h + 1);
                    if xx <= x {
                        assert(sat_at(before, w as int, xx, y + 1) == box_total(px@, w as int, 0, 0, xx, y + 1));
                    }
                }
            }
            x = x + 1;
        }
        y = y + 1;
    }
    out
}

proof fn lemma_row_split(px: Seq<i32>, w: int, y: int, x0: int, xm: int, x1: int)
    requires
        x0 <= xm <= x1,
    ensures
        row_sum(px, w, y, x0, x1) == row_sum(px, w, y, x0, xm) + row_sum(px, w, y, xm, x1),
    decreases x1 - xm,
{
    if x1 > xm {
        lemma_row_split(px, w, y, x0, xm, x1 - 1);
    }
}

proof fn lemma_box_columns(px: Seq<i32>, w: int, x0: int, xm: int, x1: int, y0: int, y1: int)
    requires
        x0 <= xm <= x1,
    ensures
        box_total(px, w, x0, y0, x1, y1) == box_total(px, w, x0, y0, xm, y1) + box_total(
            px,
            w,
            xm,
            y0,
            x1,
            y1,
        ),
    decreases y1 - y0,
{
    if y1 > y0 {
        lemma_box_columns(px, w, x0, xm, x1, y0, y1 - 1);
        lemma_row_split(px, w, y1 - 1, x0, xm, x1);
    }
}

proof fn lemma_box_rows(px: Seq<i32>, w: int, x0: int, x1: int, y0: int, ym: int, y1: int)
    requires
        y0 <= ym <= y1,
    ensures
        box_total(px, w, x0, y0, x1, y1) == box_total(px, w, x0, y0, x1, ym) + box_total(
            px,
            w,
            x0,
            ym,
            x1,
            y1,
        ),
    decreases y1 - ym,
{
    if y1 > ym {
        lemma_box_rows(px, w, x0, x1, y0, ym, y1 - 1);
    }
}

/// Four entries of a summed-area table give the sum of any box: the entry
/// at its far corner, less the two entries at its outer edges, plus the one
/// at its near corner.
pub proof fn lemma_window_from_integral(
    sat: Seq<i64>,
    px: Seq<i32>,
    w: int,
    h: int,
    x: int,
    y: int,
    bw: int,
    bh: int,
)
    requires
        is_integral(sat, px, w, h),
        0 <= x,
        0 <= y,
        0 <= bw,
        0 <= bh,
        x + bw <= w,
        y + bh <= h,
    ensures
        sat_at(sat, w, x, y) + sat_at(sat, w, x + bw, y + bh) - sat_at(sat, w, x + bw, y) - sat_at(
            sat,
            w,
            x,
            y + bh,
        ) == box_total(px, w, x, y, x + bw, y + bh),
{
    assert(sat_at(sat, w, x, y) == box_total(px, w, 0, 0, x, y));
    assert(sat_at(sat, w, x + bw, y + bh) == box_total(px, w, 0, 0, x + bw, y + bh));
    assert(sat_at(sat, w, x + bw, y) == box_total(px, w, 0, 0, x + bw, y));
    assert(sat_at(sat, w, x, y + bh) == box_total(px, w, 0, 0, x, y + bh));
    lemma_box_rows(px, w, 0, x + bw, 0, y, y + bh);
    lemma_box_rows(px, w, 0, x, 0, y, y + bh);
    lemma_box_columns(px, w, 0, x, x + bw, y, y + bh);
}

/// Every entry of the summed-area table of a plane of at most `2^30`
/// values is below `2^61` in magnitude.
proof fn lemma_integral_entry_bound(sat: Seq<i64>, px: Seq<i32>, w: int, h: int, x: int, y: int)
    requires
        is_integral(sat, px, w, h),
        w * h <= 0x4000_0000,
        0 <= x <= w,
        0 <= y <= h,
    ensures
        -0x2000_0000_0000_0000 <= sat_at(sat, w, x, y) <= 0x2000_0000_0000_0000,
{
    assert(sat_at(sat, w, x, y) == box_total(px, w, 0, 0, x, y));
    assert(y * w <= px.len()) by (nonlinear_arith)
        requires
            0 <= y <= h,
            px.len() == w * h,
            w >= 0,
    ;
    lemma_box_total_bound(px, w, 0, x, 0, y);
    assert(y * (x * i32_span()) <= 0x4000_0000 * i32_span()) by (nonlinear_arith)
        requires
            0 <= y <= h,
            0 <= x <= w,
            w * h <= 0x4000_0000,
    ;
}

/// The sum of the `bw` by `bh` box at `(x, y)`, from the summed-area table
/// `sat` of a `w`-wide plane.
pub fn box_sum(sat: &Vec<i64>, w: usize, x: usize, y: usize, bw: usize, bh: usize) -> (r: i64)
    requires
        exists|px: Seq<i32>, h: int|
            is_integral(sat@, px, w as int, h) && w * h <= 0x4000_0000 && x + bw <= w && y + bh
                <= h,
    ensures
        forall|px: Seq<i32>, h: int|
            is_integral(sat@, px, w as int, h) && x + bw <= w && y + bh <= h ==> r == box_total(
                px,
                w as int,
                x as int,
                y as int,
                x + bw,
                y + bh,
            ),
{
    let len = sat.len();
    let ghost (px, h) = choose|px: Seq<i32>, h: int|
        is_integral(sat@, px, w as int, h) && w * h <= 0x4000_0000 && x + bw <= w && y + bh <= h;
    proof {
        assert(0 <= h);
        assert(w + 1 <= (w + 1) * (h + 1)) by (nonlinear_arith)
            requires
                h >= 0,
                w >= 0,
        ;
        lemma_index_in_grid(x as int, y as int, w + 1, h + 1);
        lemma_index_in_grid(x + bw, y + bh, w + 1, h + 1);
        lemma_index_in_grid(x + bw, y as int, w + 1, h + 1);
        lemma_index_in_grid(x as int, y + bh, w + 1, h + 1);
        lemma_integral_entry_bound(sat@, px, w as int, h, x as int, y as int);
        lemma_integral_entry_bound(sat@, px, w as int, h, x + bw, y + bh);
        lemma_integral_entry_bound(sat@, px, w as int, h, x + bw, y as int);
        lemma_integral_entry_bound(sat@, px, w as int, h, x as int, y + bh);
        lemma_window_from_integral(sat@, px, w as int, h, x as int, y as int, bw as int, bh as int);
        assert((y + bh) * w <= w * h) by (nonlinear_arith)
            requires
                y + bh <= h,
                w >= 0,
        ;
        lemma_box_total_bound(px, w as int, x as int, x + bw, y as int, y + bh);
        assert(bh * (bw * i32_span()) <= 0x4000_0000 * i32_span()) by (nonlinear_arith)
            requires
                bh <= h,
                bw <= w,
                w * h <= 0x4000_0000,
        ;
        assert(y + bh <= (y + bh) * (w + 1)) by (nonlinear_arith);
    }
    let stride = w + 1;
    proof {
        assert((y + bh) * stride == (y + bh) * (w + 1));
        assert(y * stride == y * (w + 1));
        assert(sat@[y * stride + x] == sat_at(sat@, w as int, x as int, y as int));
        assert(sat@[(y + bh) * stride + x + bw] == sat_at(sat@, w as int, x + bw, y + bh));
        assert(sat@[y * stride + x + bw] == sat_at(sat@, w as int, x + bw, y as int));
        assert(sat@[(y + bh) * stride + x] == sat_at(sat@, w as int, x as int, y + bh));
    }
    let r = sat[y * stride + x] + sat[(y + bh) * stride + x + bw] - sat[y * stride + x + bw] - sat[(y
        + bh) * stride + x];
    proof {
        assert forall|qx: Seq<i32>, qh: int|
            is_integral(sat@, qx, w as int, qh) && x + bw <= w && y + bh <= qh implies r
            == box_total(qx, w as int, x as int, y as int, x + bw, y + bh) by {
            lemma_window_from_integral(sat@, qx, w as int, qh, x as int, y as int, bw as int, bh as int);
        }
    }
    r
}

// ── Correlation ─────────────────────────────────────────────────────────────

/// The largest value a correlated plane holds: the square of a byte.
pub const PLANE_MAX: i32 = 65025;

/// Every value of `s` lies in `0..=PLANE_MAX`.
pub open spec fn in_plane_range(s: Seq<i32>) -> bool {
    forall|k: int| 0 <= k < s.len() ==> 0 <= #[trigger] s[k] <= PLANE_MAX
}

/// Row `j` of the correlation at `(x, y)`, over the first `n` kernel columns:
/// the sum of `ker[j][i] * img[y + j][x + i]` for `i < n`.
pub open spec fn corr_row(img: Seq<i32>, iw: int, ker: Seq<i32>, kw: int, x: int, y: int, j: int, n: int) -> int
    decreases n,
{
    if n <= 0 {
        0
    } else {
        corr_row(img, iw, ker, kw, x, y, j, n - 1) + ker[j * kw + n - 1] * img[(y + j) * iw + x + n - 1]
    }
}

/// The correlation at `(x, y)` over the first `m` kernel rows.
pub open spec fn corr_window(img: Seq<i32>, iw: int, ker: Seq<i32>, kw: int, x: int, y: int, m: int) -> int
    decreases m,
{
    if m <= 0 {
        0
    } else {
        corr_window(img, iw, ker, kw, x, y, m - 1) + corr_row(img, iw, ker, kw, x, y, m - 1, kw)
    }
}

/// Entry `(x, y)` of a `w`-wide result plane.
pub open spec fn cell(s: Seq<i64>, w: int, x: int, y: int) -> i64 {
    s[y * w + x]
}

/// The product bound of two plane values.
pub open spec fn product_max() -> int {
    4_228_250_625
}

/// The valid-region correlation at one position:
/// `sum ker[j][i] * img[y + j][x + i]` over the whole kernel.
fn correlate_at(img: &Vec<i32>, iw: usize, ih: usize, ker: &Vec<i32>, kw: usize, kh: usize, x: usize, y: usize) -> (r: i64)
    requires
        img@.len() == iw * ih,
        ker@.len() == kw * kh,
        x + kw <= iw,
        y + kh <= ih,
        kw * kh <= 0x4000_0000,
        in_plane_range(img@),
        in_plane_range(ker@),
    ensures
        r == corr_window(img@, iw as int, ker@, kw as int, x as int, y as int, kh as int),
{
    let n_img = img.len();
    let mut acc: i64 = 0;
    let mut j: usize = 0;
    while j < kh
        invariant
            j <= kh,
            iw * ih <= usize::MAX,
            img@.len() == iw * ih,
            ker@.len() == kw * kh,
            x + kw <= iw,
            y + kh <= ih,
            kw * kh <= 0x4000_0000,
            in_plane_range(img@),
            in_plane_range(ker@),
            acc == corr_window(img@, iw as int, ker@, kw as int, x as int, y as int, j as int),
            0 <= acc <= (j * kw) * product_max(),
        decreases kh - j,
    {
        let mut s: i64 = 0;
        let mut i: usize = 0;
        while i < kw
            invariant
                i <= kw,
                j < kh,
                iw * ih <= usize::MAX,
                kw * kh <= 0x4000_0000,
                img@.len() == iw * ih,
                ker@.len() == kw * kh,
                x + kw <= iw,
                y + kh <= ih,
                in_plane_range(img@),
                in_plane_range(ker@),
                s == corr_row(img@, iw as int, ker@, kw as int, x as int, y as int, j as int, i as int),
                0 <= s <= i * product_max(),
            decreases kw - i,
        {
            proof {
                lemma_index_in_grid(i as int, j as int, kw as int, kh as int);
                lemma_index_in_grid(x + i, y + j, iw as int, ih as int);
            }
            let k = ker[j * kw + i] as i64;
            let v = img[(y + j) * iw + x + i] as i64;
            proof {
                assert(0 <= k * v <= product_max()) by (nonlinear_arith)
                    requires
                        0 <= k <= 65025,
                        0 <= v <= 65025,
                ;
            }
            s = s + k * v;
            i = i + 1;
        }
        proof {
            assert((j * kw) * product_max() + kw * product_max() == ((j + 1) * kw) * product_max())
                by (nonlinear_arith);
            assert(((j + 1) * kw) * product_max() <= 0x4000_0000 * product_max()) by (nonlinear_arith)
                requires
                    j + 1 <= kh,
                    kw * kh <= 0x4000_0000,
            ;
        }
        acc = acc + s;
        j = j + 1;
    }
    acc
}

/// The valid-region cross-correlation of a `kw` by `kh` kernel over an `iw`
/// by `ih` image: a `(iw - kw + 1)` by `(ih - kh + 1)` plane whose entry
/// `(x, y)` is the sum of `ker[j][i] * img[y + j][x + i]`.
pub fn correlate(img: &Vec<i32>, iw: usize, ih: usize, ker: &Vec<i32>, kw: usize, kh: usize) -> (out: Vec<i64>)
    requires
        img@.len() == iw * ih,
        ker@.len() == kw * kh,
        1 <= kw <= iw,
        1 <= kh <= ih,
        kw * kh <= 0x4000_0000,
        in_plane_range(img@),
        in_plane_range(ker@),
    ensures
        out@.len() == (iw - kw + 1) * (ih - kh + 1),
        forall|x: int, y: int|
            0 <= x < iw - kw + 1 && 0 <= y < ih - kh + 1 ==> #[trigger] cell(out@, iw - kw + 1, x, y)
                == corr_window(img@, iw as int, ker@, kw as int, x, y, kh as int),
{
    let ow = iw - kw + 1;
    let oh = ih - kh + 1;
    proof {
        assert(ow * oh <= iw * ih) by (nonlinear_arith)
            requires
                0 <= ow <= iw,
                0 <= oh <= ih,
        ;
    }
    let mut out: Vec<i64> = Vec::new();
    let mut y: usize = 0;
    while y < oh
        invariant
            y <= oh,
            ow == iw - kw + 1,
            oh == ih - kh + 1,
            ow * oh <= iw * ih,
            img@.len() == iw * ih,
            ker@.len() == kw * kh,
            1 <= kw <= iw,
            1 <= kh <= ih,
            kw * kh <= 0x4000_0000,
            in_plane_range(img@),
            in_plane_range(ker@),
            out@.len() == y * ow,
            forall|xx: int, yy: int|
                0 <= xx < ow && 0 <= yy < y ==> #[trigger] cell(out@, ow as int, xx, yy) == corr_window(
                    img@,
                    iw as int,
                    ker@,
                    kw as int,
                    xx,
                    yy,
                    kh as int,
                ),
        decreases oh - y,
    {
        let mut x: usize = 0;
        while x < ow
            invariant
                y < oh,
                x <= ow,
                ow == iw - kw + 1,
                oh == ih - kh + 1,
                ow * oh <= iw * ih,
                img@.len() == iw * ih,
                ker@.len() == kw * kh,
                1 <= kw <= iw,
                1 <= kh <= ih,
                kw * kh <= 0x4000_0000,
                in_plane_range(img@),
                in_plane_range(ker@),
                out@.len() == y * ow + x,
                forall|xx: int, yy: int|
                    0 <= xx < ow && 0 <= yy < y ==> #[trigger] cell(out@, ow as int, xx, yy)
                        == corr_window(img@, iw as int, ker@, kw as int, xx, yy, kh as int),
                forall|xx: int|
                    0 <= xx < x ==> #[trigger] cell(out@, ow as int, xx, y as int) == corr_window(
                        img@,
                        iw as int,
                        ker@,
                        kw as int,
                        xx,
                        y as int,
                        kh as int,
                    ),
            decreases ow - x,
        {
            let v = correlate_at(img, iw, ih, ker, kw, kh, x, y);
            proof {
                lemma_index_in_grid(x as int, y as int, ow as int, oh as int);
            }
            let ghost before = out@;
            out.push(v);
            proof {
                assert forall|xx: int, yy: int| 0 <= xx < ow && 0 <= yy < y implies #[trigger] cell(
                    out@,
                    ow as int,
                    xx,
                    yy,
                ) == corr_window(img@, iw as int, ker@, kw as int, xx, yy, kh as int) by {
                    lemma_index_in_grid(xx, yy, ow as int, y as int);
                    assert(cell(before, ow as int, xx, yy) == corr_window(
                        img@,
                        iw as int,
                        ker@,
                        kw as int,
                        xx,
                        yy,
                        kh as int,
                    ));
                }
                assert forall|xx: int| 0 <= xx < x + 1 implies #[trigger] cell(
                    out@,
                    ow as int,
                    xx,
                    y as int,
                ) == corr_window(img@, iw as int, ker@, kw as int, xx, y as int, kh as int) by {
                    if xx < x {
                        assert(cell(before, ow as int, xx, y as int) == corr_window(
                            img@,
                            iw as int,
                            ker@,
                            kw as int,
                            xx,
                            y as int,
                            kh as int,
                        ));
                    }
                }
            }
            x = x + 1;
        }
        proof {
            assert(y * ow + ow == (y + 1) * ow) by (nonlinear_arith);
        }
        y = y + 1;
    }
    proof {
        assert(oh * ow == ow * oh) by (nonlinear_arith);
    }
    out
}

// ── A prepared search area ──────────────────────────────────────────────────

/// A search area prepared for a sweep of correlations: its pixels and their
/// squares as correlation planes, and the summed-area table of each, so an
/// unmasked window sum costs four lookups.
pub struct Searched {
    w: usize,
    h: usize,
    px: Vec<i32>,
    px2: Vec<i32>,
    sum: Vec<i64>,
    sum2: Vec<i64>,
}

/// Each value of `sq` is the square of the value of `s` at the same place.
pub open spec fn squares_of(s: Seq<i32>, sq: Seq<i32>) -> bool {
    &&& sq.len() == s.len()
    &&& forall|k: int| 0 <= k < s.len() ==> #[trigger] sq[k] == s[k] * s[k]
}

impl Searched {
    pub closed spec fn width(&self) -> int {
        self.w as int
    }

    pub closed spec fn height(&self) -> int {
        self.h as int
    }

    /// The pixel plane.
    pub closed spec fn pixels(&self) -> Seq<i32> {
        self.px@
    }

    /// The plane of squared pixels.
    pub closed spec fn squares(&self) -> Seq<i32> {
        self.px2@
    }

    pub closed spec fn wf(&self) -> bool {
        &&& self.w * self.h <= 0x4000_0000
        &&& (self.w + 1) * (self.h + 1) <= usize::MAX
        &&& forall|k: int| 0 <= k < self.px@.len() ==> 0 <= #[trigger] self.px@[k] <= 255
        &&& squares_of(self.px@, self.px2@)
        &&& is_integral(self.sum@, self.px@, self.w as int, self.h as int)
        &&& is_integral(self.sum2@, self.px2@, self.w as int, self.h as int)
    }

    /// Prepares `img` for searching.
    pub fn new(img: &Gray) -> (s: Searched)
        requires
            img.wf(),
            img.w * img.h <= 0x4000_0000,
            (img.w + 1) * (img.h + 1) <= usize::MAX,
        ensures
            s.wf(),
            s.width() == img.w,
            s.height() == img.h,
            s.pixels().len() == img.data@.len(),
            forall|k: int| 0 <= k < img.data@.len() ==> #[trigger] s.pixels()[k] == img.data@[k],
    {
        let w = img.w;
        let h = img.h;
        let mut px: Vec<i32> = Vec::new();
        let mut px2: Vec<i32> = Vec::new();
        let mut k: usize = 0;
        while k < img.data.len()
            invariant
                k <= img.data@.len(),
                px@.len() == k,
                px2@.len() == k,
                forall|i: int| 0 <= i < k ==> #[trigger] px@[i] == img.data@[i],
                forall|i: int| 0 <= i < k ==> #[trigger] px2@[i] == px@[i] * px@[i],
            decreases img.data@.len() - k,
        {
            let v = img.data[k] as i32;
            proof {
                assert(v * v <= 65025) by (nonlinear_arith)
                    requires
                        0 <= v <= 255,
                ;
            }
            px.push(v);
            px2.push(v * v);
            k = k + 1;
        }
        proof {
            assert forall|i: int| 0 <= i < px@.len() implies 0 <= #[trigger] px2@[i] <= PLANE_MAX by {
                let v = px@[i];
                assert(0 <= v * v <= 65025) by (nonlinear_arith)
                    requires
                        0 <= v <= 255,
                ;
            }
        }
        let sum = integral(&px, w, h);
        let sum2 = integral(&px2, w, h);
        Searched { w, h, px, px2, sum, sum2 }
    }

    pub fn w(&self) -> (r: usize)
        ensures
            r == self.width(),
    {
        self.w
    }

    pub fn h(&self) -> (r: usize)
        ensures
            r == self.height(),
    {
        self.h
    }

    /// The sums of the pixels and of their squares over the `bw` by `bh`
    /// window at `(x, y)`.
    pub fn window_sums(&self, x: usize, y: usize, bw: usize, bh: usize) -> (r: (i64, i64))
        requires
            self.wf(),
            x + bw <= self.width(),
            y + bh <= self.height(),
        ensures
            r.0 == box_total(self.pixels(), self.width(), x as int, y as int, x + bw, y + bh),
            r.1 == box_total(self.squares(), self.width(), x as int, y as int, x + bw, y + bh),
    {
        let a = box_sum(&self.sum, self.w, x, y, bw, bh);
        let b = box_sum(&self.sum2, self.w, x, y, bw, bh);
        (a, b)
    }

    /// The correlation of a `kw` by `kh` kernel with the pixel plane (see
    /// [`correlate`]).
    pub fn correlate_pixels(&self, ker: &Vec<i32>, kw: usize, kh: usize) -> (out: Vec<i64>)
        requires
            self.wf(),
            ker@.len() == kw * kh,
            1 <= kw <= self.width(),
            1 <= kh <= self.height(),
            in_plane_range(ker@),
        ensures
            out@.len() == (self.width() - kw + 1) * (self.height() - kh + 1),
            forall|x: int, y: int|
                0 <= x < self.width() - kw + 1 && 0 <= y < self.height() - kh + 1 ==> #[trigger] cell(
                    out@,
                    self.width() - kw + 1,
                    x,
                    y,
                ) == corr_window(self.pixels(), self.width(), ker@, kw as int, x, y, kh as int),
    {
        proof {
            assert(kw * kh <= self.w * self.h) by (nonlinear_arith)
                requires
                    1 <= kw <= self.w,
                    1 <= kh <= self.h,
            ;
            assert forall|k: int| 0 <= k < self.px@.len() implies 0 <= #[trigger] self.px@[k] <= PLANE_MAX by {}
        }
        correlate(&self.px, self.w, self.h, ker, kw, kh)
    }

    /// The correlation of a `kw` by `kh` kernel with the plane of squared
    /// pixels.
    pub fn correlate_squares(&self, ker: &Vec<i32>, kw: usize, kh: usize) -> (out: Vec<i64>)
        requires
            self.wf(),
            ker@.len() == kw * kh,
            1 <= kw <= self.width(),
            1 <= kh <= self.height(),
            in_plane_range(ker@),
        ensures
            out@.len() == (self.width() - kw + 1) * (self.height() - kh + 1),
            forall|x: int, y: int|
                0 <= x < self.width() - kw + 1 && 0 <= y < self.height() - kh + 1 ==> #[trigger] cell(
                    out@,
                    self.width() - kw + 1,
                    x,
                    y,
                ) == corr_window(self.squares(), self.width(), ker@, kw as int, x, y, kh as int),
    {
        proof {
            assert(kw * kh <= self.w * self.h) by (nonlinear_arith)
                requires
                    1 <= kw <= self.w,
                    1 <= kh <= self.h,
            ;
            assert forall|k: int| 0 <= k < self.px2@.len() implies 0 <= #[trigger] self.px2@[k] <= PLANE_MAX by {
                let v = self.px@[k];
                assert(0 <= v * v <= 65025) by (nonlinear_arith)
                    requires
                        0 <= v <= 255,
                ;
            }
        }
        correlate(&self.px2, self.w, self.h, ker, kw, kh)
    }
}

} // verus!
