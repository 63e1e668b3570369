//! The integer half of contrast-limited adaptive histogram equalisation
//! (`cv2.createCLAHE`): reflect padding, per-tile histograms and the clip
//! limit's redistribution of excess counts.
//!
//! The tile lookup tables and the bilinear blend between them are computed in
//! single-precision floating point and are built on top of these functions.

use vstd::prelude::*;
use vstd::arithmetic::div_mod::{
    lemma_fundamental_div_mod, lemma_mod_multiples_basic, lemma_mod_self_0,
    lemma_mod_sub_multiples_vanish, lemma_small_mod,
};
use crate::arith::{lemma_grid_index_coords, lemma_index_in_grid};
use crate::hardware::vision::image::{count_eq, Gray};

verus! {

/// Bins in an 8-bit histogram.
pub const HIST_SIZE: usize = 256;

// ── Clip limit ───────────────────────────────────────────────────────────────

/// The sum of the entries of `s`.
pub open spec fn seq_sum(s: Seq<i32>) -> int
    decreases s.len(),
{
    if s.len() == 0 {
        0
    } else {
        seq_sum(s.drop_last()) + s.last()
    }
}

/// How far a bin holding `b` sits above the clip limit.
pub open spec fn over(b: int, clip: int) -> int {
    if b > clip {
        b - clip
    } else {
        0
    }
}

/// The total count above the clip limit, over all bins.
pub open spec fn excess(s: Seq<i32>, clip: int) -> int
    decreases s.len(),
{
    if s.len() == 0 {
        0
    } else {
        excess(s.drop_last(), clip) + over(s.last() as int, clip)
    }
}

/// Bin `i` after clipping: capped at `clip`, plus an even share of the excess,
/// plus one more for every `step`-th bin until the remainder is used up, where
/// `step` is `256 / remainder`. A histogram with nothing above the limit is
/// left alone.
pub open spec fn clipped_bin(s: Seq<i32>, clip: int, i: int) -> int {
    let e = excess(s, clip);
    if e == 0 {
        s[i] as int
    } else {
        let batch = e / 256;
        let residual = e % 256;
        let step = if residual > 0 {
            256int / residual
        } else {
            1
        };
        (if s[i] > clip {
            clip
        } else {
            s[i] as int
        }) + batch + if residual > 0 && i % step == 0 && i < residual * step {
            1int
        } else {
            0int
        }
    }
}

proof fn lemma_seq_sum_update(s: Seq<i32>, i: int, v: i32)
    requires
        0 <= i < s.len(),
    ensures
        seq_sum(s.update(i, v)) == seq_sum(s) - s[i] + v,
    decreases s.len(),
{
    let t = s.update(i, v);
    if i == s.len() - 1 {
        assert(t.drop_last() =~= s.drop_last());
    } else {
        assert(t.drop_last() =~= s.drop_last().update(i, v));
        lemma_seq_sum_update(s.drop_last(), i, v);
    }
}

proof fn lemma_excess_nonneg(s: Seq<i32>, clip: int)
    ensures
        excess(s, clip) >= 0,
    decreases s.len(),
{
    if s.len() > 0 {
        lemma_excess_nonneg(s.drop_last(), clip);
    }
}

proof fn lemma_excess_prefix(s: Seq<i32>, k: int, clip: int)
    requires
        0 <= k <= s.len(),
    ensures
        excess(s.take(k), clip) <= excess(s, clip),
    decreases s.len(),
{
    if k == s.len() {
        assert(s.take(k) =~= s);
    } else {
        assert(s.take(k) =~= s.drop_last().take(k));
        lemma_excess_prefix(s.drop_last(), k, clip);
    }
}

/// Between two multiples of `step` there is at least `step`.
proof fn lemma_next_multiple(i: int, j: int, step: int)
    requires
        step > 0,
        0 <= i < j,
        i % step == 0,
        j % step == 0,
    ensures
        j >= i + step,
{
    lemma_fundamental_div_mod(i, step);
    lemma_fundamental_div_mod(j, step);
    let qi = i / step;
    let qj = j / step;
    assert(qi < qj) by (nonlinear_arith)
        requires
            i == step * qi,
            j == step * qj,
            i < j,
            step > 0,
    ;
    assert(step * qj >= step * qi + step) by (nonlinear_arith)
        requires
            qi + 1 <= qj,
            step > 0,
    ;
}

/// Cap every bin at `clip` and hand the excess back out: an even share to
/// every bin, then one more to every `step`-th bin until the remainder is
/// used up. The total count is unchanged.
pub fn clip_histogram(hist: &mut [i32; 256], clip: i32)
    requires
        excess(old(hist)@, clip as int) <= i32::MAX,
        forall|i: int| 0 <= i < 256 ==> #[trigger] clipped_bin(old(hist)@, clip as int, i) <= i32::MAX,
    ensures
        final(hist)@.len() == 256,
        forall|i: int|
            0 <= i < 256 ==> #[trigger] final(hist)@[i] == clipped_bin(old(hist)@, clip as int, i),
        seq_sum(final(hist)@) == seq_sum(old(hist)@),
{
    let ghost orig = hist@;
    assert(orig.len() == 256);
    let mut clipped: i32 = 0;
    let mut i: usize = 0;
    while i < HIST_SIZE
        invariant
            orig.len() == 256,
            hist@.len() == 256,
            i <= 256,
            excess(orig, clip as int) <= i32::MAX,
            clipped == excess(orig.take(i as int), clip as int),
            forall|j: int|
                0 <= j < i ==> #[trigger] hist@[j] == (if orig[j] > clip {
                    clip
                } else {
                    orig[j]
                }),
            forall|j: int| i <= j < 256 ==> #[trigger] hist@[j] == orig[j],
            seq_sum(hist@) + clipped == seq_sum(orig),
        decreases 256 - i,
    {
        proof {
            assert(orig.take(i as int + 1).drop_last() =~= orig.take(i as int));
            lemma_excess_prefix(orig, i as int + 1, clip as int);
            lemma_excess_nonneg(orig.take(i as int), clip as int);
        }
        let b = hist[i];
        if b > clip {
            let ghost before = hist@;
            clipped = clipped + (b - clip);
            hist[i] = clip;
            proof {
                lemma_seq_sum_update(before, i as int, clip);
            }
        }
        i = i + 1;
    }
    proof {
        assert(orig.take(256) =~= orig);
        lemma_excess_nonneg(orig, clip as int);
    }
    if clipped == 0 {
        assert forall|j: int| 0 <= j < 256 implies #[trigger] hist@[j] == clipped_bin(
            orig,
            clip as int,
            j,
        ) by {
            lemma_excess_nonneg(orig.take(j), clip as int);
            assert(orig.take(j + 1).drop_last() =~= orig.take(j));
            lemma_excess_prefix(orig, j + 1, clip as int);
        }
        return;
    }
    let batch = clipped / 256;
    let mut residual = clipped - batch * 256;
    proof {
        lemma_fundamental_div_mod(clipped as int, 256);
        assert(batch * 256 == 256 * batch);
        assert(residual == clipped % 256);
    }
    let ghost r0 = residual as int;
    let mut i: usize = 0;
    while i < HIST_SIZE
        invariant
            orig.len() == 256,
            hist@.len() == 256,
            i <= 256,
            clipped == excess(orig, clip as int),
            clipped > 0,
            batch == clipped / 256,
            residual == clipped % 256,
            forall|j: int| 0 <= j < 256 ==> #[trigger] clipped_bin(orig, clip as int, j) <= i32::MAX,
            forall|j: int|
                0 <= j < i ==> #[trigger] hist@[j] == (if orig[j] > clip {
                    clip
                } else {
                    orig[j]
                }) + batch,
            forall|j: int|
                i <= j < 256 ==> #[trigger] hist@[j] == (if orig[j] > clip {
                    clip
                } else {
                    orig[j]
                }),
            seq_sum(hist@) + clipped - i * batch == seq_sum(orig),
        decreases 256 - i,
    {
        proof {
            assert(clipped_bin(orig, clip as int, i as int) <= i32::MAX);
        }
        let ghost before = hist@;
        hist[i] = hist[i] + batch;
        proof {
            lemma_seq_sum_update(before, i as int, hist@[i as int]);
            assert((i + 1) * batch == i * batch + batch) by (nonlinear_arith);
        }
        i = i + 1;
    }
    proof {
        assert(seq_sum(hist@) + residual == seq_sum(orig));
    }
    if residual > 0 {
        let q = 256 / residual;
        let step: usize = if q < 1 {
            1
        } else {
            q as usize
        };
        proof {
            lemma_fundamental_div_mod(256int, r0);
            assert(q == 256int / r0);
            assert(q >= 1) by (nonlinear_arith)
                requires
                    256 == r0 * q + 256int % r0,
                    0 <= 256int % r0 < r0,
                    1 <= r0 <= 255,
            ;
            assert(step == 256int / r0);
            assert(r0 * step <= 256);
            assert(step >= 1);
        }
        let mut i: usize = 0;
        while i < HIST_SIZE && residual > 0
            invariant
                orig.len() == 256,
                hist@.len() == 256,
                clipped == excess(orig, clip as int),
                clipped > 0,
                batch == clipped / 256,
                r0 == clipped % 256,
                r0 > 0,
                step == 256int / r0,
                step >= 1,
                r0 * step <= 256,
                0 <= residual <= r0,
                i == (r0 - residual) * step,
                forall|j: int| 0 <= j < 256 ==> #[trigger] clipped_bin(orig, clip as int, j) <= i32::MAX,
                forall|j: int|
                    0 <= j < 256 ==> #[trigger] hist@[j] == (if orig[j] > clip {
                        clip
                    } else {
                        orig[j]
                    }) + batch + if j % (step as int) == 0 && j < i {
                        1int
                    } else {
                        0int
                    },
                seq_sum(hist@) + residual == seq_sum(orig),
            decreases residual,
        {
            proof {
                lemma_mod_multiples_basic(r0 - residual, step as int);
                assert(clipped_bin(orig, clip as int, i as int) <= i32::MAX);
                assert((r0 - residual) * step <= (r0 - 1) * step) by (nonlinear_arith)
                    requires
                        residual >= 1,
                        step >= 1,
                ;
                assert((r0 - residual + 1) * step == (r0 - residual) * step + step)
                    by (nonlinear_arith);
                assert((r0 - residual) * step < r0 * step) by (nonlinear_arith)
                    requires
                        residual >= 1,
                        step >= 1,
                ;
            }
            let ghost before = hist@;
            hist[i] = hist[i] + 1;
            proof {
                lemma_seq_sum_update(before, i as int, hist@[i as int]);
                assert forall|j: int| 0 <= j < 256 implies #[trigger] hist@[j] == (if orig[j] > clip {
                    clip
                } else {
                    orig[j]
                }) + batch + if j % (step as int) == 0 && j < i + step {
                    1int
                } else {
                    0int
                } by {
                    if j != i && j % (step as int) == 0 && i < j {
                        lemma_next_multiple(i as int, j, step as int);
                    }
                }
            }
            residual = residual - 1;
            i = i + step;
        }
        proof {
            if residual > 0 {
                assert((r0 - residual) * step <= (r0 - 1) * step) by (nonlinear_arith)
                    requires
                        residual >= 1,
                        residual <= r0,
                        step >= 1,
                ;
                assert((r0 - 1) * step == r0 * step - step) by (nonlinear_arith);
            }
        }
    }
}

// ── Reflect padding ──────────────────────────────────────────────────────────

/// `cv::borderInterpolate` for `BORDER_REFLECT_101`: the index folded back
/// into `[0, len)` without repeating the edge pixel, so `len` maps to
/// `len - 2` and `-1` to `1`. The pattern repeats every `2 * (len - 1)`.
pub open spec fn reflect_spec(i: int, len: int) -> int {
    if len <= 1 {
        0
    } else {
        let p = 2 * (len - 1);
        let m = (if i < 0 {
            -i
        } else {
            i
        }) % p;
        if m < len {
            m
        } else {
            p - m
        }
    }
}

/// `cv::borderInterpolate` for `BORDER_REFLECT_101`.
pub fn reflect_index(i: i32, len: i32) -> (r: usize)
    requires
        len >= 1,
    ensures
        r == reflect_spec(i as int, len as int),
        r < len,
{
    if len == 1 {
        return 0;
    }
    let p: i64 = 2 * (len as i64 - 1);
    let mut j: i64 = i as i64;
    loop
        invariant
            len >= 2,
            p == 2 * (len - 1),
            -0x8000_0000 <= j <= 0x8000_0000,
            reflect_spec(j as int, len as int) == reflect_spec(i as int, len as int),
        decreases (if j < 0 {
            -(j as int)
        } else {
            j as int
        }), (if j < 0 {
            1int
        } else {
            0int
        }),
    {
        if j < 0 {
            j = -j;
        } else if j >= len as i64 {
            let ghost old_j = j as int;
            proof {
                if old_j < p {
                    lemma_small_mod(old_j as nat, p as nat);
                } else if old_j == p {
                    lemma_mod_self_0(p as int);
                } else {
                    lemma_mod_sub_multiples_vanish(old_j, p as int);
                }
                if 0 <= p - old_j {
                    lemma_small_mod((p - old_j) as nat, p as nat);
                }
            }
            j = p - j;
        } else {
            proof {
                lemma_small_mod(j as nat, p as nat);
            }
            return j as usize;
        }
    }
}

/// `cv2.copyMakeBorder(src, 0, bottom, 0, right, BORDER_REFLECT_101)`: the
/// image grown by `right` columns and `bottom` rows mirrored from its own
/// right and bottom edges.
pub fn reflect_101(src: &Gray, right: usize, bottom: usize) -> (out: Gray)
    requires
        src.wf(),
        src.w >= 1,
        src.h >= 1,
        src.w + right <= i32::MAX,
        src.h + bottom <= i32::MAX,
        (src.w + right) * (src.h + bottom) <= usize::MAX,
    ensures
        out.w == src.w + right,
        out.h == src.h + bottom,
        out.wf(),
        forall|x: int, y: int|
            0 <= x < out.w && 0 <= y < out.h ==> #[trigger] out.px(x, y) == src.px(
                reflect_spec(x, src.w as int),
                reflect_spec(y, src.h as int),
            ),
{
    let w = src.w + right;
    let h = src.h + bottom;
    let mut data: Vec<u8> = Vec::new();
    let mut y: usize = 0;
    while y < h
        invariant
            src.wf(),
            src.w >= 1,
            src.h >= 1,
            w == src.w + right,
            h == src.h + bottom,
            w <= i32::MAX,
            h <= i32::MAX,
            y <= h,
            data@.len() == y * w,
            forall|c: int, r: int|
                0 <= c < w && 0 <= r < y ==> #[trigger] data@[r * w + c] == src.px(
                    reflect_spec(c, src.w as int),
                    reflect_spec(r, src.h as int),
                ),
        decreases h - y,
    {
        let sy = reflect_index(y as i32, src.h as i32);
        let mut x: usize = 0;
        while x < w
            invariant
                src.wf(),
                src.w >= 1,
                src.h >= 1,
                w == src.w + right,
                h == src.h + bottom,
                w <= i32::MAX,
                h <= i32::MAX,
                y < h,
                x <= w,
                sy == reflect_spec(y as int, src.h as int),
                sy < src.h,
                data@.len() == y * w + x,
                forall|c: int, r: int|
                    0 <= c < w && 0 <= r < y ==> #[trigger] data@[r * w + c] == src.px(
                        reflect_spec(c, src.w as int),
                        reflect_spec(r, src.h as int),
                    ),
                forall|c: int|
                    0 <= c < x ==> #[trigger] data@[y * w + c] == src.px(
                        reflect_spec(c, src.w as int),
                        reflect_spec(y as int, src.h as int),
                    ),
            decreases w - x,
        {
            let sx = reflect_index(x as i32, src.w as i32);
            let v = src.at(sx, sy);
            let ghost before = data@;
            data.push(v);
            proof {
                assert forall|c: int, r: int|
                    0 <= c < w && 0 <= r < y implies #[trigger] data@[r * w + c] == src.px(
                    reflect_spec(c, src.w as int),
                    reflect_spec(r, src.h as int),
                ) by {
                    lemma_index_in_grid(c, r, w as int, y as int);
                    assert(data@[r * w + c] == before[r * w + c]);
                }
                assert forall|c: int| 0 <= c < x + 1 implies #[trigger] data@[y * w + c] == src.px(
                    reflect_spec(c, src.w as int),
                    reflect_spec(y as int, src.h as int),
                ) by {
                    if c < x {
                        assert(data@[y * w + c] == before[y * w + c]);
                    }
                }
            }
            x = x + 1;
        }
        proof {
            assert((y + 1) * w == y * w + w) by (nonlinear_arith);
        }
        y = y + 1;
    }
    proof {
        assert(h * w == w * h) by (nonlinear_arith);
    }
    let out = Gray::from_vec(w, h, data);
    proof {
        assert forall|x: int, y: int| 0 <= x < out.w && 0 <= y < out.h implies #[trigger] out.px(
            x,
            y,
        ) == src.px(reflect_spec(x, src.w as int), reflect_spec(y, src.h as int)) by {
            assert(out.px(x, y) == data@[y * w + x]);
        }
    }
    out
}

// ── Tiles ────────────────────────────────────────────────────────────────────

/// The right and bottom padding the lookup tables are built over. None when
/// both dimensions divide evenly into tiles; otherwise each axis is padded up
/// to the next multiple, and an axis that already divided evenly gains a whole
/// extra tile.
pub fn lut_padding(w: usize, h: usize, tiles_x: usize, tiles_y: usize) -> (pad: (usize, usize))
    requires
        tiles_x >= 1,
        tiles_y >= 1,
    ensures
        (w % tiles_x == 0 && h % tiles_y == 0) ==> pad == (0usize, 0usize),
        !(w % tiles_x == 0 && h % tiles_y == 0) ==> pad == ((tiles_x - w % tiles_x) as usize, (tiles_y
            - h % tiles_y) as usize),
{
    if w % tiles_x == 0 && h % tiles_y == 0 {
        (0, 0)
    } else {
        (tiles_x - (w % tiles_x), tiles_y - (h % tiles_y))
    }
}

/// The pixels of the `tw` by `th` tile at `(x0, y0)`, row by row.
pub open spec fn tile_pixels(src: &Gray, x0: int, y0: int, tw: int, th: int) -> Seq<u8> {
    Seq::new((tw * th) as nat, |k: int| src.px(x0 + k % tw, y0 + k / tw))
}

proof fn lemma_count_eq_le<A>(s: Seq<A>, v: A)
    ensures
        count_eq(s, v) <= s.len(),
    decreases s.len(),
{
    if s.len() > 0 {
        lemma_count_eq_le(s.drop_last(), v);
    }
}

/// The histogram of one tile: bin `v` counts the tile's pixels equal to `v`.
pub fn tile_histogram(src: &Gray, x0: usize, y0: usize, tw: usize, th: usize) -> (hist: [i32; 256])
    requires
        src.wf(),
        tw >= 1,
        x0 + tw <= src.w,
        y0 + th <= src.h,
        tw * th <= i32::MAX,
    ensures
        forall|v: int|
            0 <= v < 256 ==> #[trigger] hist@[v] == count_eq(
                tile_pixels(src, x0 as int, y0 as int, tw as int, th as int),
                v as u8,
            ),
{
    let ghost tp = tile_pixels(src, x0 as int, y0 as int, tw as int, th as int);
    let mut hist = [0i32; 256];
    assert forall|v: int| 0 <= v < 256 implies #[trigger] hist@[v] == count_eq(tp.take(0), v as u8) by {
    }
    let mut r: usize = 0;
    while r < th
        invariant
            src.wf(),
            tw >= 1,
            x0 + tw <= src.w,
            y0 + th <= src.h,
            tw * th <= i32::MAX,
            tp == tile_pixels(src, x0 as int, y0 as int, tw as int, th as int),
            r <= th,
            hist@.len() == 256,
            forall|v: int|
                0 <= v < 256 ==> #[trigger] hist@[v] == count_eq(tp.take(r * tw), v as u8),
        decreases th - r,
    {
        let mut c: usize = 0;
        while c < tw
            invariant
                src.wf(),
                tw >= 1,
                x0 + tw <= src.w,
                y0 + th <= src.h,
                tw * th <= i32::MAX,
                tp == tile_pixels(src, x0 as int, y0 as int, tw as int, th as int),
                r < th,
                c <= tw,
                hist@.len() == 256,
                forall|v: int|
                    0 <= v < 256 ==> #[trigger] hist@[v] == count_eq(tp.take(r * tw + c), v as u8),
            decreases tw - c,
        {
            let ghost k = r * tw + c;
            proof {
                lemma_index_in_grid(c as int, r as int, tw as int, th as int);
                lemma_grid_index_coords(c as int, r as int, tw as int);
                assert(tp.take(k + 1).drop_last() =~= tp.take(k));
                lemma_count_eq_le(tp.take(k), tp[k]);
            }
            let v = src.at(x0 + c, y0 + r);
            assert(v == tp[k]);
            let ghost before = hist@;
            hist[v as usize] = hist[v as usize] + 1;
            proof {
                assert forall|u: int| 0 <= u < 256 implies #[trigger] hist@[u] == count_eq(
                    tp.take(k + 1),
                    u as u8,
                ) by {
                    if u != v as int {
                        assert(before[u] == hist@[u]);
                    }
                }
            }
            c = c + 1;
        }
        proof {
            assert((r + 1) * tw == r * tw + tw) by (nonlinear_arith);
        }
        r = r + 1;
    }
    proof {
        assert(tp.take(th * tw) =~= tp) by {
            assert(th * tw == tw * th) by (nonlinear_arith);
        }
    }
    hist
}

} // verus!
