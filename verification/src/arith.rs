//! Small integer facts shared by the image code: row-major indexing and the
//! rounding rules the fixed-point conversions are written against.

use vstd::prelude::*;

verus! {

/// A row-major index stays inside its buffer.
pub proof fn lemma_index_in_grid(x: int, y: int, w: int, h: int)
    requires
        0 <= x < w,
        0 <= y < h,
    ensures
        0 <= y * w + x < w * h,
        y * w + x < h * w,
        y * w + x + 1 <= w * h,
        (y + 1) * w == y * w + w,
{
    assert(w * h == h * w) by (nonlinear_arith);
    assert(0 <= y * w + x < w * h) by (nonlinear_arith)
        requires
            0 <= x < w,
            0 <= y < h,
    ;
    assert((y + 1) * w == y * w + w) by (nonlinear_arith);
}

/// Two cells of a row-major grid share an index only when they are the same cell.
pub proof fn lemma_index_distinct(x1: int, y1: int, x2: int, y2: int, w: int)
    requires
        0 <= x1 < w,
        0 <= x2 < w,
        0 <= y1,
        0 <= y2,
        (x1, y1) != (x2, y2),
    ensures
        y1 * w + x1 != y2 * w + x2,
{
    if y1 == y2 {
    } else if y1 < y2 {
        assert(y1 * w + x1 < y2 * w + x2) by (nonlinear_arith)
            requires
                y1 < y2,
                0 <= x1 < w,
                0 <= x2,
        ;
    } else {
        assert(y2 * w + x2 < y1 * w + x1) by (nonlinear_arith)
            requires
                y2 < y1,
                0 <= x2 < w,
                0 <= x1,
        ;
    }
}

/// Row bounds: an index in row `y` lies in `[y*w, y*w + w)`.
pub proof fn lemma_row_monotone(y1: int, y2: int, w: int)
    requires
        0 <= y1 <= y2,
        0 <= w,
    ensures
        y1 * w <= y2 * w,
{
    assert(y1 * w <= y2 * w) by (nonlinear_arith)
        requires
            0 <= y1 <= y2,
            0 <= w,
    ;
}

/// Row-major coordinates of a flat index: column `i % w`, row `i / w`.
pub proof fn lemma_grid_coords(i: int, w: int, h: int)
    requires
        0 <= i < w * h,
        w > 0,
    ensures
        0 <= i % w < w,
        0 <= i / w < h,
        (i / w) * w + i % w == i,
{
    vstd::arithmetic::div_mod::lemma_fundamental_div_mod(i, w);
    vstd::arithmetic::div_mod::lemma_mod_bound(i, w);
    assert((i / w) * w == w * (i / w)) by (nonlinear_arith);
    assert(0 <= i / w) by (nonlinear_arith)
        requires
            i >= 0,
            w > 0,
    ;
    if i / w >= h {
        assert((i / w) * w >= h * w) by (nonlinear_arith)
            requires
                i / w >= h,
                w > 0,
        ;
        assert(h * w == w * h) by (nonlinear_arith);
    }
}

/// The index of `(x, y)` in a grid `w` wide recovers `x` and `y`.
pub proof fn lemma_grid_index_coords(x: int, y: int, w: int)
    requires
        0 <= x < w,
        0 <= y,
    ensures
        (y * w + x) % w == x,
        (y * w + x) / w == y,
{
    vstd::arithmetic::div_mod::lemma_fundamental_div_mod_converse(y * w + x, w, y, x);
}

/// A rounded quotient of a non-negative numerator never exceeds it.
pub proof fn lemma_round_half_even_bound(n: int, d: int)
    requires
        n >= 0,
        d >= 1,
    ensures
        0 <= round_half_even(n, d) <= n,
{
    vstd::arithmetic::div_mod::lemma_fundamental_div_mod(n, d);
    vstd::arithmetic::div_mod::lemma_mod_bound(n, d);
    assert(0 <= n / d) by (nonlinear_arith)
        requires
            n >= 0,
            d >= 1,
    ;
    if d == 1 {
        assert(n % d == 0);
        assert(n / d == n);
    } else {
        assert(d * (n / d) <= n);
        assert(2 * (n / d) <= d * (n / d)) by (nonlinear_arith)
            requires
                d >= 2,
                n / d >= 0,
        ;
        if n / d == n {
            assert(n == 0);
        }
    }
}

/// `v` clamped into `[lo, hi]`; `lo` wins when the bounds cross, as the clamp
/// helpers below do.
pub open spec fn clamp_spec(v: int, lo: int, hi: int) -> int {
    if v < lo {
        lo
    } else if v > hi {
        hi
    } else {
        v
    }
}

/// `n / d` rounded to the nearest integer, ties to even: `cvRound` of an exact
/// A multiple of `d` rounds to itself.
pub proof fn lemma_round_half_even_exact(t: int, d: int)
    requires
        d > 0,
    ensures
        round_half_even(t * d, d) == t,
{
    vstd::arithmetic::div_mod::lemma_fundamental_div_mod_converse(t * d, d, t, 0);
}

/// quotient.
pub open spec fn round_half_even(n: int, d: int) -> int
    recommends
        d > 0,
{
    let q = n / d;
    let r = n % d;
    if 2 * r > d {
        q + 1
    } else if 2 * r < d {
        q
    } else if q % 2 == 0 {
        q
    } else {
        q + 1
    }
}

/// Clamp for `i32`, `lo <= hi` required as `Ord::clamp` does.
pub fn clamp_i32(v: i32, lo: i32, hi: i32) -> (r: i32)
    requires
        lo <= hi,
    ensures
        r == clamp_spec(v as int, lo as int, hi as int),
{
    if v < lo {
        lo
    } else if v > hi {
        hi
    } else {
        v
    }
}

/// `n / d` rounded half to even, for a non-negative numerator.
pub fn div_round_half_even(n: i64, d: i64) -> (r: i64)
    requires
        n >= 0,
        d > 0,
        n <= 0x4000_0000_0000_0000,
        d <= 0x4000_0000_0000_0000,
    ensures
        r == round_half_even(n as int, d as int),
{
    let q = n / d;
    let rem = n % d;
    if 2 * rem > d {
        q + 1
    } else if 2 * rem < d {
        q
    } else if q % 2 == 0 {
        q
    } else {
        q + 1
    }
}

} // verus!
