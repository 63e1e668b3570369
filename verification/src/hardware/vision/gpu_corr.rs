//! When template correlation is worth sending to the GPU.

use vstd::prelude::*;

verus! {

/// Below this many multiplies a GPU dispatch loses to the CPU, because the
/// result plane still has to be copied back for the exact normalisation.
pub const GPU_MIN_MULTIPLIES: u64 = 24_000_000;

/// The multiplies a `kw` by `kh` kernel sliding over an `iw` by `ih` image
/// costs: one per kernel cell per output position.
pub open spec fn correlation_work(iw: int, ih: int, kw: int, kh: int) -> int {
    (iw - kw + 1) * (ih - kh + 1) * kw * kh
}

/// `a * b`, or `u64::MAX` when that overflows.
pub(crate) fn saturating_mul(a: u64, b: u64) -> (r: u64)
    ensures
        r == if a * b > u64::MAX {
            u64::MAX as int
        } else {
            a * b
        },
{
    match a.checked_mul(b) {
        Some(v) => v,
        None => u64::MAX,
    }
}

/// Whether correlating a `kw` by `kh` kernel over an `iw` by `ih` image is
/// worth the GPU: the kernel must be non-empty and fit, and the work reach
/// `GPU_MIN_MULTIPLIES` (counted with saturation at `u64::MAX`).
pub fn worth_accelerating(iw: usize, ih: usize, kw: usize, kh: usize) -> (b: bool)
    ensures
        b == (kw != 0 && kh != 0 && kw <= iw && kh <= ih && correlation_work(
            iw as int,
            ih as int,
            kw as int,
            kh as int,
        ) >= 24_000_000),
{
    if kw == 0 || kh == 0 || kw > iw || kh > ih {
        return false;
    }
    let ow = (iw - kw + 1) as u64;
    let oh = (ih - kh + 1) as u64;
    let a = saturating_mul(ow, oh);
    let b = saturating_mul(a, kw as u64);
    let c = saturating_mul(b, kh as u64);
    proof {
        let w = correlation_work(iw as int, ih as int, kw as int, kh as int);
        assert(ow * oh * kw * kh == w);
        assert(ow * oh >= 1 && a * kw >= a && b * kh >= b) by (nonlinear_arith)
            requires
                ow >= 1,
                oh >= 1,
                kw >= 1,
                kh >= 1,
                a >= 0,
                b >= 0,
        ;
        assert(a <= ow * oh);
        assert(a * kw <= ow * oh * kw) by (nonlinear_arith)
            requires
                0 <= a <= ow * oh,
                kw >= 1,
        ;
        assert(b <= ow * oh * kw);
        assert(b * kh <= ow * oh * kw * kh) by (nonlinear_arith)
            requires
                0 <= b <= ow * oh * kw,
                kh >= 1,
        ;
        assert(c <= w);
        if c < u64::MAX {
            assert(b < u64::MAX);
            assert(a < u64::MAX) by {
                if a == u64::MAX {
                    assert(a * kw >= u64::MAX);
                }
            }
            assert(a == ow * oh);
            assert(b == ow * oh * kw);
            assert(c == w);
        }
    }
    c >= GPU_MIN_MULTIPLIES
}

} // verus!
