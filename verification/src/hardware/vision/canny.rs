//! `cv2.Canny(src, low, high)`: 3x3 Sobel, L1 gradient magnitude, directional
//! non-maximum suppression against OpenCV's fixed-point `tan(22.5°)`, and
//! hysteresis along 8-connected runs.

use vstd::prelude::*;
use crate::arith::{lemma_grid_coords, lemma_grid_index_coords, lemma_index_in_grid};
use crate::hardware::vision::image::{count_eq, lemma_count_eq_update, Gray};

verus! {

/// OpenCV's fixed-point tangent comparison: `round(tan(22.5°) * 2^15)`.
pub const TG22: i32 = 13573;

/// The pixel at `(x, y)` with coordinates clamped into the image
/// (`BORDER_REPLICATE`).
pub open spec fn replicate(src: &Gray, x: int, y: int) -> int {
    let cx = if x < 0 {
        0
    } else if x > src.w - 1 {
        src.w - 1
    } else {
        x
    };
    let cy = if y < 0 {
        0
    } else if y > src.h - 1 {
        src.h - 1
    } else {
        y
    };
    src.px(cx, cy) as int
}

/// The horizontal Sobel derivative at `(x, y)`.
pub open spec fn sobel_dx(src: &Gray, x: int, y: int) -> int {
    (replicate(src, x + 1, y - 1) + 2 * replicate(src, x + 1, y) + replicate(src, x + 1, y + 1)) - (
    replicate(src, x - 1, y - 1) + 2 * replicate(src, x - 1, y) + replicate(src, x - 1, y + 1))
}

/// The vertical Sobel derivative at `(x, y)`.
pub open spec fn sobel_dy(src: &Gray, x: int, y: int) -> int {
    (replicate(src, x - 1, y + 1) + 2 * replicate(src, x, y + 1) + replicate(src, x + 1, y + 1)) - (
    replicate(src, x - 1, y - 1) + 2 * replicate(src, x, y - 1) + replicate(src, x + 1, y - 1))
}

pub open spec fn abs_i(v: int) -> int {
    if v < 0 {
        -v
    } else {
        v
    }
}

/// The L1 gradient magnitude `|dx| + |dy|`, OpenCV's default.
pub open spec fn magnitude_spec(src: &Gray, x: int, y: int) -> int {
    abs_i(sobel_dx(src, x, y)) + abs_i(sobel_dy(src, x, y))
}

fn clamp_index(v: i64, len: usize) -> (r: usize)
    requires
        1 <= len <= 0x7fff_ffff,
    ensures
        r == if v < 0 {
            0
        } else if v > len - 1 {
            len - 1
        } else {
            v as int
        },
{
    if v < 0 {
        0
    } else if v > (len - 1) as i64 {
        len - 1
    } else {
        v as usize
    }
}

fn replicate_at(src: &Gray, x: i64, y: i64) -> (v: i32)
    requires
        src.wf(),
        1 <= src.w <= 0x7fff_ffff,
        1 <= src.h <= 0x7fff_ffff,
    ensures
        v == replicate(src, x as int, y as int),
        0 <= v <= 255,
{
    let cx = clamp_index(x, src.w);
    let cy = clamp_index(y, src.h);
    src.at(cx, cy) as i32
}

/// The two Sobel derivatives, `BORDER_REPLICATE`, as row-major planes.
pub fn sobel3(src: &Gray) -> (d: (Vec<i32>, Vec<i32>))
    requires
        src.wf(),
        1 <= src.w <= 0x7fff_ffff,
        1 <= src.h <= 0x7fff_ffff,
    ensures
        d.0@.len() == src.w * src.h,
        d.1@.len() == src.w * src.h,
        forall|i: int|
            0 <= i < src.w * src.h ==> #[trigger] d.0@[i] == sobel_dx(src, i % (src.w as int), i / (src.w as int))
                && d.1@[i] == sobel_dy(src, i % (src.w as int), i / (src.w as int)),
        forall|i: int| 0 <= i < src.w * src.h ==> -1020 <= #[trigger] d.0@[i] <= 1020 && -1020 <= d.1@[i] <= 1020,
{
    let w = src.w;
    let h = src.h;
    let mut dx: Vec<i32> = Vec::new();
    let mut dy: Vec<i32> = Vec::new();
    let mut y: usize = 0;
    while y < h
        invariant
            src.wf(),
            w == src.w,
            h == src.h,
            1 <= w <= 0x7fff_ffff,
            1 <= h <= 0x7fff_ffff,
            y <= h,
            dx@.len() == y * w,
            dy@.len() == y * w,
            forall|i: int|
                0 <= i < y * w ==> #[trigger] dx@[i] == sobel_dx(src, i % (w as int), i / (w as int))
                    && dy@[i] == sobel_dy(src, i % (w as int), i / (w as int)),
            forall|i: int| 0 <= i < y * w ==> -1020 <= #[trigger] dx@[i] <= 1020 && -1020 <= dy@[i] <= 1020,
        decreases h - y,
    {
        let mut x: usize = 0;
        while x < w
            invariant
                src.wf(),
                w == src.w,
                h == src.h,
                1 <= w <= 0x7fff_ffff,
                1 <= h <= 0x7fff_ffff,
                y < h,
                x <= w,
                dx@.len() == y * w + x,
                dy@.len() == y * w + x,
                forall|i: int|
                    0 <= i < y * w + x ==> #[trigger] dx@[i] == sobel_dx(src, i % (w as int), i / (w as int))
                        && dy@[i] == sobel_dy(src, i % (w as int), i / (w as int)),
                forall|i: int|
                    0 <= i < y * w + x ==> -1020 <= #[trigger] dx@[i] <= 1020 && -1020 <= dy@[i] <= 1020,
            decreases w - x,
        {
            let xi = x as i64;
            let yi = y as i64;
            let tl = replicate_at(src, xi - 1, yi - 1);
            let tc = replicate_at(src, xi, yi - 1);
            let tr = replicate_at(src, xi + 1, yi - 1);
            let ml = replicate_at(src, xi - 1, yi);
            let mr = replicate_at(src, xi + 1, yi);
            let bl = replicate_at(src, xi - 1, yi + 1);
            let bc = replicate_at(src, xi, yi + 1);
            let br = replicate_at(src, xi + 1, yi + 1);
            proof {
                lemma_grid_index_coords(x as int, y as int, w as int);
            }
            dx.push((tr + 2 * mr + br) - (tl + 2 * ml + bl));
            dy.push((bl + 2 * bc + br) - (tl + 2 * tc + tr));
            x = x + 1;
        }
        proof {
            assert((y + 1) * w == y * w + w) by (nonlinear_arith);
        }
        y = y + 1;
    }
    proof {
        assert(h * w == w * h) by (nonlinear_arith);
    }
    (dx, dy)
}

/// The gradient magnitude at `(x, y)`, 0 off the image.
pub open spec fn magnitude_or_zero(src: &Gray, x: int, y: int) -> int {
    if 0 <= x < src.w && 0 <= y < src.h {
        magnitude_spec(src, x, y)
    } else {
        0
    }
}

/// Non-maximum suppression: the magnitude at `(x, y)` beats its two
/// neighbours across the edge. The gradient direction is quantised into
/// horizontal, vertical and the two diagonals with the fixed-point slopes
/// `tan(22.5°)` and `tan(67.5°)`; ties go to the earlier neighbour along the
/// horizontal and vertical directions.
pub open spec fn survives_nms(src: &Gray, x: int, y: int) -> bool {
    let xs = sobel_dx(src, x, y);
    let ys = sobel_dy(src, x, y);
    let m = magnitude_spec(src, x, y);
    let ax = abs_i(xs);
    let ay = abs_i(ys) * 32768;
    let tg22x = ax * TG22;
    if ay < tg22x {
        m > magnitude_or_zero(src, x - 1, y) && m >= magnitude_or_zero(src, x + 1, y)
    } else if ay > tg22x + ax * 65536 {
        m > magnitude_or_zero(src, x, y - 1) && m >= magnitude_or_zero(src, x, y + 1)
    } else {
        let s = if (xs < 0) != (ys < 0) {
            -1int
        } else {
            1int
        };
        m > magnitude_or_zero(src, x - s, y - 1) && m > magnitude_or_zero(src, x + s, y + 1)
    }
}

/// The magnitude at `(x, y)`, 0 off the image.
fn magnitude_at(src: &Gray, mag: &Vec<i32>, x: i64, y: i64) -> (m: i32)
    requires
        src.w <= 0x7fff_ffff,
        src.h <= 0x7fff_ffff,
        mag@.len() == src.w * src.h,
        forall|i: int|
            0 <= i < src.w * src.h ==> #[trigger] mag@[i] == magnitude_spec(
                src,
                i % (src.w as int),
                i / (src.w as int),
            ),
        forall|i: int| 0 <= i < src.w * src.h ==> 0 <= #[trigger] mag@[i] <= 2040,
    ensures
        0 <= m <= 2040,
        m == magnitude_or_zero(src, x as int, y as int),
{
    let w = src.w;
    let h = src.h;
    if x < 0 || y < 0 || x >= w as i64 || y >= h as i64 {
        0
    } else {
        proof {
            lemma_index_in_grid(x as int, y as int, w as int, h as int);
            lemma_grid_index_coords(x as int, y as int, w as int);
        }
        assert(mag@.len() == mag.len());
        let v = mag[(y as usize) * w + (x as usize)];
        assert(v == mag@[y * w + x]);
        v
    }
}

/// `(qx, qy)` is one of the eight neighbours of `(px, py)`.
pub open spec fn adjacent8(px: int, py: int, qx: int, qy: int) -> bool {
    (px, py) != (qx, qy) && -1 <= qx - px <= 1 && -1 <= qy - py <= 1
}

/// A pixel that survived suppression with a magnitude over `low`.
pub open spec fn edge_candidate(src: &Gray, low: int, x: int, y: int) -> bool {
    0 <= x < src.w && 0 <= y < src.h && magnitude_spec(src, x, y) > low && survives_nms(src, x, y)
}

/// `(x, y)` is a candidate over `high`, or is reached from one in at most
/// `k` steps between 8-neighbouring candidates.
pub open spec fn edge_reach(src: &Gray, low: int, high: int, x: int, y: int, k: nat) -> bool
    decreases k,
{
    &&& edge_candidate(src, low, x, y)
    &&& magnitude_spec(src, x, y) > high || (k > 0 && exists|px: int, py: int|
        #![trigger adjacent8(px, py, x, y)]
        adjacent8(px, py, x, y) && edge_reach(src, low, high, px, py, (k - 1) as nat))
}

/// Hysteresis: `(x, y)` is an edge when it is connected to a strong
/// candidate through 8-neighbouring candidates.
pub open spec fn hysteresis_edge(src: &Gray, low: int, high: int, x: int, y: int) -> bool {
    exists|k: nat| edge_reach(src, low, high, x, y, k)
}

/// The column and row offsets of the `k`-th of the eight neighbours, row by
/// row.
pub open spec fn nb_offset(k: int) -> (int, int) {
    let kk = if k < 4 {
        k
    } else {
        k + 1
    };
    (kk % 3 - 1, kk / 3 - 1)
}

/// The `k`-th neighbour of `(x, y)` is off the image or not undecided.
pub open spec fn nb_settled(map: Seq<u8>, w: int, h: int, x: int, y: int, k: int) -> bool {
    let (ox, oy) = nb_offset(k);
    let qx = x + ox;
    let qy = y + oy;
    !(0 <= qx < w && 0 <= qy < h) || map[qy * w + qx] != 0
}

proof fn lemma_nb_covers(x: int, y: int, qx: int, qy: int)
    requires
        adjacent8(x, y, qx, qy),
    ensures
        exists|k: int| 0 <= k < 8 && #[trigger] nb_offset(k) == (qx - x, qy - y),
{
    let dx = qx - x;
    let dy = qy - y;
    if dy == -1 {
        if dx == -1 {
            assert(nb_offset(0) == (dx, dy));
        } else if dx == 0 {
            assert(nb_offset(1) == (dx, dy));
        } else {
            assert(nb_offset(2) == (dx, dy));
        }
    } else if dy == 0 {
        if dx == -1 {
            assert(nb_offset(3) == (dx, dy));
        } else {
            assert(nb_offset(4) == (dx, dy));
        }
    } else {
        if dx == -1 {
            assert(nb_offset(5) == (dx, dy));
        } else if dx == 0 {
            assert(nb_offset(6) == (dx, dy));
        } else {
            assert(nb_offset(7) == (dx, dy));
        }
    }
}

/// With every candidate decided, every strong candidate an edge, and no
/// edge next to an undecided pixel, every pixel connected to a strong
/// candidate is an edge.
proof fn lemma_hysteresis_complete(src: &Gray, map: Seq<u8>, low: int, high: int, x: int, y: int, k: nat)
    requires
        src.w >= 1,
        map.len() == src.w * src.h,
        forall|i: int| 0 <= i < map.len() ==> #[trigger] map[i] <= 2,
        forall|px: int, py: int|
            #![trigger edge_candidate(src, low, px, py)]
            0 <= px < src.w && 0 <= py < src.h && edge_candidate(src, low, px, py) ==> map[py * src.w + px] != 1,
        forall|px: int, py: int|
            0 <= px < src.w && 0 <= py < src.h && magnitude_spec(src, px, py) > high && survives_nms(src, px, py)
                ==> #[trigger] map[py * src.w + px] == 2,
        forall|px: int, py: int, qx: int, qy: int|
            #![trigger adjacent8(px, py, qx, qy)]
            0 <= px < src.w && 0 <= py < src.h && 0 <= qx < src.w && 0 <= qy < src.h && adjacent8(px, py, qx, qy)
                && map[py * src.w + px] == 2 ==> map[qy * src.w + qx] != 0,
        edge_reach(src, low, high, x, y, k),
    ensures
        map[y * src.w + x] == 2,
    decreases k,
{
    if magnitude_spec(src, x, y) > high {
    } else {
        let (px, py) = choose|px: int, py: int|
            #![trigger adjacent8(px, py, x, y)]
            adjacent8(px, py, x, y) && edge_reach(src, low, high, px, py, (k - 1) as nat);
        lemma_hysteresis_complete(src, map, low, high, px, py, (k - 1) as nat);
        assert(edge_candidate(src, low, x, y));
        lemma_index_in_grid(x, y, src.w as int, src.h as int);
        assert(map[y * src.w + x] <= 2);
    }
}

/// The L1 magnitude of every pixel, row by row.
fn magnitudes(src: &Gray, dx: &Vec<i32>, dy: &Vec<i32>) -> (mag: Vec<i32>)
    requires
        src.wf(),
        2 <= src.w <= 0x7fff_ffff,
        2 <= src.h <= 0x7fff_ffff,
        dx@.len() == src.w * src.h,
        dy@.len() == src.w * src.h,
        forall|j: int| 0 <= j < src.w * src.h ==> -1020 <= #[trigger] dx@[j] <= 1020 && -1020 <= dy@[j] <= 1020,
        forall|j: int|
            0 <= j < src.w * src.h ==> #[trigger] dx@[j] == sobel_dx(src, j % (src.w as int), j / (src.w as int))
                && dy@[j] == sobel_dy(src, j % (src.w as int), j / (src.w as int)),
    ensures
        mag@.len() == src.w * src.h,
        forall|j: int|
            0 <= j < src.w * src.h ==> #[trigger] mag@[j] == magnitude_spec(src, j % (src.w as int), j / (src.w as int)),
        forall|j: int| 0 <= j < src.w * src.h ==> 0 <= #[trigger] mag@[j] <= 2040,
{
    assert(src.data@.len() == src.data.len());
    let n = src.w * src.h;
    let mut mag: Vec<i32> = Vec::new();
    let mut i: usize = 0;
    while i < n
        invariant
            n == src.w * src.h,
            dx@.len() == n,
            dy@.len() == n,
            forall|j: int| 0 <= j < n ==> -1020 <= #[trigger] dx@[j] <= 1020 && -1020 <= dy@[j] <= 1020,
            forall|j: int|
                0 <= j < n ==> #[trigger] dx@[j] == sobel_dx(src, j % (src.w as int), j / (src.w as int)) && dy@[j]
                    == sobel_dy(src, j % (src.w as int), j / (src.w as int)),
            i <= n,
            mag@.len() == i,
            forall|j: int|
                0 <= j < i ==> #[trigger] mag@[j] == magnitude_spec(src, j % (src.w as int), j / (src.w as int)),
            forall|j: int| 0 <= j < i ==> 0 <= #[trigger] mag@[j] <= 2040,
        decreases n - i,
    {
        let a = if dx[i] < 0 {
            -dx[i]
        } else {
            dx[i]
        };
        let b = if dy[i] < 0 {
            -dy[i]
        } else {
            dy[i]
        };
        mag.push(a + b);
        i = i + 1;
    }
    mag
}

/// The suppression map: 1 for a pixel that did not survive with a magnitude
/// over `low`, 0 for a weak survivor, 2 for one over `high`.
pub open spec fn suppressed_map(src: &Gray, low: int, high: int, map: Seq<u8>) -> bool {
    &&& map.len() == src.w * src.h
    &&& forall|j: int|
        0 <= j < src.w * src.h ==> {
            let x = j % (src.w as int);
            let y = j / (src.w as int);
            &&& #[trigger] map[j] <= 2
            &&& (map[j] != 1) == edge_candidate(src, low, x, y)
            &&& (map[j] == 2) == (edge_candidate(src, low, x, y) && magnitude_spec(src, x, y) > high)
        }
}

/// Non-maximum suppression and the split into weak and strong survivors;
/// every strong one is put on the stack.
fn suppress(src: &Gray, dx: &Vec<i32>, dy: &Vec<i32>, mag: &Vec<i32>, low: i32, high: i32) -> (r: (
    Vec<u8>,
    Vec<usize>,
))
    requires
        src.wf(),
        2 <= src.w <= 0x7fff_ffff,
        2 <= src.h <= 0x7fff_ffff,
        low <= high,
        dx@.len() == src.w * src.h,
        dy@.len() == src.w * src.h,
        mag@.len() == src.w * src.h,
        forall|j: int| 0 <= j < src.w * src.h ==> -1020 <= #[trigger] dx@[j] <= 1020 && -1020 <= dy@[j] <= 1020,
        forall|j: int|
            0 <= j < src.w * src.h ==> #[trigger] dx@[j] == sobel_dx(src, j % (src.w as int), j / (src.w as int))
                && dy@[j] == sobel_dy(src, j % (src.w as int), j / (src.w as int)),
        forall|j: int|
            0 <= j < src.w * src.h ==> #[trigger] mag@[j] == magnitude_spec(src, j % (src.w as int), j / (src.w as int)),
        forall|j: int| 0 <= j < src.w * src.h ==> 0 <= #[trigger] mag@[j] <= 2040,
    ensures
        suppressed_map(src, low as int, high as int, r.0@),
        forall|k: int| 0 <= k < r.1@.len() ==> #[trigger] r.1@[k] < src.w * src.h && r.0@[r.1@[k] as int] == 2,
        forall|j: int| 0 <= j < src.w * src.h && #[trigger] r.0@[j] == 2 ==> r.1@.contains(j as usize),
{
    assert(src.data@.len() == src.data.len());
    let w = src.w;
    let h = src.h;
    let n = w * h;
    let mut map: Vec<u8> = vec![1u8; n];
    let mut stack: Vec<usize> = Vec::new();
    let mut y: usize = 0;
    while y < h
        invariant
            n == w * h,
            w == src.w,
            h == src.h,
            2 <= w <= 0x7fff_ffff,
            h <= 0x7fff_ffff,
            low <= high,
            dx@.len() == n,
            dy@.len() == n,
            mag@.len() == n,
            forall|j: int| 0 <= j < n ==> -1020 <= #[trigger] dx@[j] <= 1020 && -1020 <= dy@[j] <= 1020,
            forall|j: int|
                0 <= j < n ==> #[trigger] dx@[j] == sobel_dx(src, j % (w as int), j / (w as int)) && dy@[j]
                    == sobel_dy(src, j % (w as int), j / (w as int)),
            forall|j: int|
                0 <= j < n ==> #[trigger] mag@[j] == magnitude_spec(src, j % (w as int), j / (w as int)),
            forall|j: int| 0 <= j < n ==> 0 <= #[trigger] mag@[j] <= 2040,
            map@.len() == n,
            y <= h,
            forall|j: int|
                y * w <= j < n ==> #[trigger] map@[j] == 1,
            forall|j: int|
                0 <= j < y * w ==> {
                    let px = j % (w as int);
                    let py = j / (w as int);
                    &&& #[trigger] map@[j] <= 2
                    &&& (map@[j] != 1) == edge_candidate(src, low as int, px, py)
                    &&& (map@[j] == 2) == (edge_candidate(src, low as int, px, py) && magnitude_spec(src, px, py) > high)
                },
            forall|k: int| 0 <= k < stack@.len() ==> #[trigger] stack@[k] < n && map@[stack@[k] as int] == 2,
            forall|j: int| 0 <= j < n && #[trigger] map@[j] == 2 ==> stack@.contains(j as usize),
        decreases h - y,
    {
        let mut x: usize = 0;
        while x < w
            invariant
                n == w * h,
                w == src.w,
                h == src.h,
                2 <= w <= 0x7fff_ffff,
                h <= 0x7fff_ffff,
                low <= high,
                dx@.len() == n,
                dy@.len() == n,
                mag@.len() == n,
                forall|j: int| 0 <= j < n ==> -1020 <= #[trigger] dx@[j] <= 1020 && -1020 <= dy@[j] <= 1020,
                forall|j: int|
                    0 <= j < n ==> #[trigger] dx@[j] == sobel_dx(src, j % (w as int), j / (w as int))
                        && dy@[j] == sobel_dy(src, j % (w as int), j / (w as int)),
                forall|j: int|
                    0 <= j < n ==> #[trigger] mag@[j] == magnitude_spec(src, j % (w as int), j / (w as int)),
                forall|j: int| 0 <= j < n ==> 0 <= #[trigger] mag@[j] <= 2040,
                map@.len() == n,
                y < h,
                x <= w,
                forall|j: int|
                    y * w + x <= j < n ==> #[trigger] map@[j] == 1,
                forall|j: int|
                    0 <= j < y * w + x ==> {
                        let px = j % (w as int);
                        let py = j / (w as int);
                        &&& #[trigger] map@[j] <= 2
                        &&& (map@[j] != 1) == edge_candidate(src, low as int, px, py)
                        &&& (map@[j] == 2) == (edge_candidate(src, low as int, px, py) && magnitude_spec(src, px, py)
                            > high)
                    },
                forall|k: int| 0 <= k < stack@.len() ==> #[trigger] stack@[k] < n && map@[stack@[k] as int] == 2,
                forall|j: int| 0 <= j < n && #[trigger] map@[j] == 2 ==> stack@.contains(j as usize),
            decreases w - x,
        {
            proof {
                lemma_index_in_grid(x as int, y as int, w as int, h as int);
                lemma_grid_index_coords(x as int, y as int, w as int);
            }
            let i = y * w + x;
            let m = mag[i];
            let ghost before = map@;
            let ghost stack_before = stack@;
            let mut set_to: u8 = 1;
            if m > low {
                let xs = dx[i];
                let ys = dy[i];
                let ax = if xs < 0 {
                    -xs
                } else {
                    xs
                };
                let ay = (if ys < 0 {
                    -ys
                } else {
                    ys
                }) * 32768;
                let tg22x = ax * TG22;
                let xi = x as i64;
                let yi = y as i64;
                let is_max = if ay < tg22x {
                    m > magnitude_at(src, mag, xi - 1, yi) && m >= magnitude_at(src, mag, xi + 1, yi)
                } else {
                    let tg67x = tg22x + ax * 65536;
                    if ay > tg67x {
                        m > magnitude_at(src, mag, xi, yi - 1) && m >= magnitude_at(src, mag, xi, yi + 1)
                    } else {
                        let s: i64 = if (xs < 0) != (ys < 0) {
                            -1
                        } else {
                            1
                        };
                        m > magnitude_at(src, mag, xi - s, yi - 1) && m > magnitude_at(src, mag, xi + s, yi + 1)
                    }
                };
                assert(is_max == survives_nms(src, x as int, y as int));
                if is_max {
                    if m > high {
                        map.set(i, 2);
                        stack.push(i);
                        set_to = 2;
                    } else {
                        map.set(i, 0);
                        set_to = 0;
                    }
                }
            }
            proof {
                assert(map@ == before.update(i as int, set_to));
                assert(set_to != 1 <==> edge_candidate(src, low as int, x as int, y as int));
                assert(set_to == 2 <==> (edge_candidate(src, low as int, x as int, y as int) && magnitude_spec(src, x as int, y as int) > high));
                assert forall|k: int| 0 <= k < stack@.len() implies #[trigger] stack@[k] < n && map@[stack@[k] as int] == 2 by {
                    if k < stack_before.len() {
                        assert(stack@[k] == stack_before[k]);
                    }
                }
                assert forall|j: int| 0 <= j < n && #[trigger] map@[j] == 2 implies stack@.contains(j as usize) by {
                    if j == i {
                        assert(stack@[stack@.len() - 1] == i);
                    } else {
                        assert(before[j] == 2);
                        let k = choose|k: int| 0 <= k < stack_before.len() && stack_before[k] == j as usize;
                        assert(stack@[k] == j as usize);
                    }
                }
            }
            x = x + 1;
        }
        proof {
            assert((y + 1) * w == y * w + w) by (nonlinear_arith);
        }
        y = y + 1;
    }
    proof {
        assert(y * w == n) by (nonlinear_arith)
            requires
                y == h,
                n == w * h,
        ;
    }
    (map, stack)
}

/// Marking the undecided `(nx, ny)` keeps every neighbour settled that was,
/// and settles the `k`-th neighbour when it is `(nx, ny)`.
proof fn lemma_marked_settled(prev: Seq<u8>, map: Seq<u8>, w: int, h: int, x: int, y: int, k: int, nx: int, ny: int)
    requires
        w >= 1,
        h >= 1,
        prev.len() == w * h,
        0 <= nx < w,
        0 <= ny < h,
        prev[ny * w + nx] == 0,
        map == prev.update(ny * w + nx, 2),
        nb_offset(k) == (nx - x, ny - y),
        forall|k2: int| 0 <= k2 < k ==> #[trigger] nb_settled(prev, w, h, x, y, k2),
    ensures
        forall|k2: int| 0 <= k2 < k + 1 ==> #[trigger] nb_settled(map, w, h, x, y, k2),
{
    assert forall|k2: int| 0 <= k2 < k + 1 implies #[trigger] nb_settled(map, w, h, x, y, k2) by {
        let (ox, oy) = nb_offset(k2);
        let qx = x + ox;
        let qy = y + oy;
        if 0 <= qx < w && 0 <= qy < h {
            lemma_index_in_grid(qx, qy, w, h);
            lemma_index_in_grid(nx, ny, w, h);
            if (qx, qy) != (nx, ny) {
                crate::arith::lemma_index_distinct(qx, qy, nx, ny, w);
            }
        }
        if k2 < k {
            assert(nb_settled(prev, w, h, x, y, k2));
        }
    }
}

/// Marking the undecided `(nx, ny)` and putting it on the stack keeps every
/// edge off the stack (but the one being settled, `(x, y)`) clear of
/// undecided neighbours.
proof fn lemma_marked_closed(
    prev: Seq<u8>,
    map: Seq<u8>,
    stack_pre: Seq<usize>,
    stack: Seq<usize>,
    w: int,
    h: int,
    x: int,
    y: int,
    nx: int,
    ny: int,
)
    requires
        w >= 1,
        h >= 1,
        prev.len() == w * h,
        0 <= nx < w,
        0 <= ny < h,
        map == prev.update(ny * w + nx, 2),
        stack == stack_pre.push((ny * w + nx) as usize),
        forall|px: int, py: int, qx: int, qy: int|
            #![trigger adjacent8(px, py, qx, qy)]
            0 <= px < w && 0 <= py < h && 0 <= qx < w && 0 <= qy < h && adjacent8(px, py, qx, qy)
                && prev[py * w + px] == 2 && !stack_pre.contains((py * w + px) as usize) && (px, py) != (x, y)
                ==> prev[qy * w + qx] != 0,
    ensures
        forall|px: int, py: int, qx: int, qy: int|
            #![trigger adjacent8(px, py, qx, qy)]
            0 <= px < w && 0 <= py < h && 0 <= qx < w && 0 <= qy < h && adjacent8(px, py, qx, qy)
                && map[py * w + px] == 2 && !stack.contains((py * w + px) as usize) && (px, py) != (x, y)
                ==> map[qy * w + qx] != 0,
{
    assert forall|px: int, py: int, qx: int, qy: int|
        #![trigger adjacent8(px, py, qx, qy)]
        0 <= px < w && 0 <= py < h && 0 <= qx < w && 0 <= qy < h && adjacent8(px, py, qx, qy)
            && map[py * w + px] == 2 && !stack.contains((py * w + px) as usize) && (px, py) != (x, y)
            implies map[qy * w + qx] != 0 by {
        lemma_index_in_grid(px, py, w, h);
        lemma_index_in_grid(qx, qy, w, h);
        lemma_index_in_grid(nx, ny, w, h);
        if (px, py) == (nx, ny) {
            assert(stack[stack.len() - 1] == (py * w + px) as usize);
        } else {
            crate::arith::lemma_index_distinct(px, py, nx, ny, w);
            assert(prev[py * w + px] == 2);
            if stack_pre.contains((py * w + px) as usize) {
                let k3 = choose|k3: int| 0 <= k3 < stack_pre.len() && stack_pre[k3] == (py * w + px) as usize;
                assert(stack[k3] == (py * w + px) as usize);
            }
            assert(prev[qy * w + qx] != 0);
            if (qx, qy) != (nx, ny) {
                crate::arith::lemma_index_distinct(qx, qy, nx, ny, w);
            }
        }
    }
}

/// Settles the `k`-th neighbour of the edge `(x, y)`: an undecided one
/// becomes an edge and goes on the stack.
#[verifier::spinoff_prover]
#[verifier::rlimit(100)]
fn settle_neighbour(
    src: &Gray,
    low: i32,
    high: i32,
    map: &mut Vec<u8>,
    stack: &mut Vec<usize>,
    x: usize,
    y: usize,
    k: usize,
    Ghost(len_before): Ghost<nat>,
    Ghost(count_before): Ghost<nat>,
    Ghost(stack_before): Ghost<Seq<usize>>,
)
    requires
        2 <= src.w <= 0x7fff_ffff,
        2 <= src.h <= 0x7fff_ffff,
        x < src.w,
        y < src.h,
        k < 8,
        old(map)@.len() == src.w * src.h,
        old(map)@[y * src.w + x] == 2,
        forall|j: int| 0 <= j < src.w * src.h ==> #[trigger] old(map)@[j] <= 2,
        forall|j: int|
            0 <= j < src.w * src.h ==> (#[trigger] old(map)@[j] != 1) == edge_candidate(src, low as int, j % (src.w as int), j / (src.w as int)),
        forall|j: int|
            0 <= j < src.w * src.h && edge_candidate(src, low as int, j % (src.w as int), j / (src.w as int)) && magnitude_spec(
                src,
                j % (src.w as int),
                j / (src.w as int),
            ) > high ==> #[trigger] old(map)@[j] == 2,
        forall|px: int, py: int|
            0 <= px < src.w && 0 <= py < src.h && #[trigger] old(map)@[py * src.w + px] == 2 ==> hysteresis_edge(src, low as int, high as int, px, py),
        forall|k2: int| 0 <= k2 < old(stack)@.len() ==> #[trigger] old(stack)@[k2] < src.w * src.h && old(map)@[old(stack)@[k2] as int] == 2,
        old(stack)@.len() >= len_before,
        forall|k2: int| 0 <= k2 < len_before ==> old(stack)@[k2] == #[trigger] stack_before[k2],
        count_eq(old(map)@, 0u8) + (old(stack)@.len() - len_before) == count_before,
        forall|k2: int| 0 <= k2 < k ==> #[trigger] nb_settled(old(map)@, src.w as int, src.h as int, x as int, y as int, k2),
        forall|px: int, py: int, qx: int, qy: int|
            #![trigger adjacent8(px, py, qx, qy)]
            0 <= px < src.w && 0 <= py < src.h && 0 <= qx < src.w && 0 <= qy < src.h && adjacent8(px, py, qx, qy)
                && old(map)@[py * src.w + px] == 2 && !old(stack)@.contains((py * src.w + px) as usize) && (px, py) != (
                x as int,
                y as int,
            ) ==> old(map)@[qy * src.w + qx] != 0,
    ensures
        final(map)@.len() == src.w * src.h,
        final(map)@[y * src.w + x] == 2,
        forall|j: int| 0 <= j < src.w * src.h ==> #[trigger] final(map)@[j] <= 2,
        forall|j: int|
            0 <= j < src.w * src.h ==> (#[trigger] final(map)@[j] != 1) == edge_candidate(src, low as int, j % (src.w as int), j / (src.w as int)),
        forall|j: int|
            0 <= j < src.w * src.h && edge_candidate(src, low as int, j % (src.w as int), j / (src.w as int)) && magnitude_spec(
                src,
                j % (src.w as int),
                j / (src.w as int),
            ) > high ==> #[trigger] final(map)@[j] == 2,
        forall|px: int, py: int|
            0 <= px < src.w && 0 <= py < src.h && #[trigger] final(map)@[py * src.w + px] == 2 ==> hysteresis_edge(src, low as int, high as int, px, py),
        forall|k2: int| 0 <= k2 < final(stack)@.len() ==> #[trigger] final(stack)@[k2] < src.w * src.h && final(map)@[final(stack)@[k2] as int] == 2,
        final(stack)@.len() >= len_before,
        forall|k2: int| 0 <= k2 < len_before ==> final(stack)@[k2] == #[trigger] stack_before[k2],
        count_eq(final(map)@, 0u8) + (final(stack)@.len() - len_before) == count_before,
        forall|k2: int| 0 <= k2 < k + 1 ==> #[trigger] nb_settled(final(map)@, src.w as int, src.h as int, x as int, y as int, k2),
        forall|px: int, py: int, qx: int, qy: int|
            #![trigger adjacent8(px, py, qx, qy)]
            0 <= px < src.w && 0 <= py < src.h && 0 <= qx < src.w && 0 <= qy < src.h && adjacent8(px, py, qx, qy)
                && final(map)@[py * src.w + px] == 2 && !final(stack)@.contains((py * src.w + px) as usize) && (px, py) != (
                x as int,
                y as int,
            ) ==> final(map)@[qy * src.w + qx] != 0,
{
    let w = src.w;
    let h = src.h;
    let ghost n = w * h;
    let ghost lo = low as int;
    let ghost hi = high as int;
    let mlen = map.len();
    let kk = if k < 4 {
        k
    } else {
        k + 1
    };
    let ddx: i64 = (kk % 3) as i64 - 1;
    let ddy: i64 = (kk / 3) as i64 - 1;
    proof {
        assert(nb_offset(k as int) == (ddx as int, ddy as int));
    }
    let nx = x as i64 + ddx;
    let ny = y as i64 + ddy;
    if !(nx < 0 || ny < 0 || nx >= w as i64 || ny >= h as i64) {
        let nyu = ny as usize;
        let nxu = nx as usize;
        proof {
            lemma_index_in_grid(nx as int, ny as int, w as int, h as int);
            assert(nyu * w + nxu < mlen) by (nonlinear_arith)
                requires
                    ny * w + nx < w * h,
                    mlen == w * h,
                    nyu == ny,
                    nxu == nx,
            ;
        }
        let ni = nyu * w + nxu;
        if map[ni] == 0 {
            let ghost prev = map@;
            let ghost stack_pre = stack@;
            let ghost kr0: nat = choose|kr: nat| edge_reach(src, lo, hi, x as int, y as int, kr);
            proof {
                lemma_count_eq_update(map@, ni as int, 0u8, 2u8);
                lemma_grid_index_coords(nx as int, ny as int, w as int);
                lemma_index_in_grid(x as int, y as int, w as int, h as int);
                lemma_grid_index_coords(x as int, y as int, w as int);
                // The new edge is a candidate next to an edge.
                assert(hysteresis_edge(src, lo, hi, x as int, y as int));
                assert(edge_reach(src, lo, hi, x as int, y as int, kr0));
                assert(adjacent8(x as int, y as int, nx as int, ny as int));
                assert(edge_candidate(src, lo, nx as int, ny as int));
                assert(edge_reach(src, lo, hi, nx as int, ny as int, kr0 + 1));
            }
            map.set(ni, 2);
            stack.push(ni);
            proof {
                assert(stack@ == stack_pre.push(ni));
                assert forall|px: int, py: int|
                    0 <= px < w && 0 <= py < h && #[trigger] map@[py * w + px] == 2 implies hysteresis_edge(src, lo, hi, px, py) by {
                    lemma_index_in_grid(px, py, w as int, h as int);
                    if (px, py) != (nx as int, ny as int) {
                        crate::arith::lemma_index_distinct(px, py, nx as int, ny as int, w as int);
                        assert(prev[py * w + px] == 2);
                    } else {
                        assert(edge_reach(src, lo, hi, nx as int, ny as int, kr0 + 1));
                    }
                }
                assert forall|k2: int| 0 <= k2 < stack@.len() implies #[trigger] stack@[k2] < n && map@[stack@[k2] as int] == 2 by {
                    if k2 < stack_pre.len() {
                        assert(stack@[k2] == stack_pre[k2]);
                        assert(prev[stack_pre[k2] as int] == 2);
                    }
                }
                lemma_marked_settled(prev, map@, w as int, h as int, x as int, y as int, k as int, nx as int, ny as int);
                lemma_marked_closed(prev, map@, stack_pre, stack@, w as int, h as int, x as int, y as int, nx as int, ny as int);
            }
        } else {
            proof {
                assert(nb_settled(map@, w as int, h as int, x as int, y as int, k as int));
            }
        }
    }
}

/// Grows the strong survivors along 8-neighbouring weak ones, transitively:
/// afterwards exactly the pixels connected to a strong survivor through weak
/// ones are marked 2.
#[verifier::spinoff_prover]
#[verifier::rlimit(60)]
fn hysteresis(src: &Gray, low: i32, high: i32, map: &mut Vec<u8>, stack: Vec<usize>)
    requires
        src.wf(),
        2 <= src.w <= 0x7fff_ffff,
        2 <= src.h <= 0x7fff_ffff,
        low <= high,
        suppressed_map(src, low as int, high as int, old(map)@),
        forall|k: int| 0 <= k < stack@.len() ==> #[trigger] stack@[k] < src.w * src.h && old(map)@[stack@[k] as int] == 2,
        forall|j: int| 0 <= j < src.w * src.h && #[trigger] old(map)@[j] == 2 ==> stack@.contains(j as usize),
    ensures
        final(map)@.len() == src.w * src.h,
        forall|j: int|
            0 <= j < src.w * src.h ==> (#[trigger] final(map)@[j] == 2) == hysteresis_edge(
                src,
                low as int,
                high as int,
                j % (src.w as int),
                j / (src.w as int),
            ),
{
    assert(src.data@.len() == src.data.len());
    let w = src.w;
    let h = src.h;
    let n = w * h;
    let mut stack = stack;
    let ghost lo = low as int;
    let ghost hi = high as int;
    proof {
        assert forall|px: int, py: int|
            0 <= px < w && 0 <= py < h && #[trigger] map@[py * w + px] == 2 implies hysteresis_edge(src, lo, hi, px, py) by {
            lemma_index_in_grid(px, py, w as int, h as int);
            lemma_grid_index_coords(px, py, w as int);
            assert(edge_reach(src, lo, hi, px, py, 0));
        }
        assert forall|px: int, py: int, qx: int, qy: int|
            #![trigger adjacent8(px, py, qx, qy)]
            0 <= px < w && 0 <= py < h && 0 <= qx < w && 0 <= qy < h && adjacent8(px, py, qx, qy)
                && map@[py * w + px] == 2 && !stack@.contains((py * w + px) as usize) implies map@[qy * w + qx] != 0 by {
            lemma_index_in_grid(px, py, w as int, h as int);
        }
    }
    while stack.len() > 0
        invariant
            n == w * h,
            w == src.w,
            h == src.h,
            2 <= w <= 0x7fff_ffff,
            2 <= h <= 0x7fff_ffff,
            lo == low as int,
            hi == high as int,
            map@.len() == n,
            forall|j: int| 0 <= j < n ==> #[trigger] map@[j] <= 2,
            forall|j: int|
                0 <= j < n ==> (#[trigger] map@[j] != 1) == edge_candidate(src, lo, j % (w as int), j / (w as int)),
            forall|j: int|
                0 <= j < n && edge_candidate(src, lo, j % (w as int), j / (w as int)) && magnitude_spec(
                    src,
                    j % (w as int),
                    j / (w as int),
                ) > hi ==> #[trigger] map@[j] == 2,
            forall|px: int, py: int|
                0 <= px < w && 0 <= py < h && #[trigger] map@[py * w + px] == 2 ==> hysteresis_edge(src, lo, hi, px, py),
            forall|k: int| 0 <= k < stack@.len() ==> #[trigger] stack@[k] < n && map@[stack@[k] as int] == 2,
            forall|px: int, py: int, qx: int, qy: int|
                #![trigger adjacent8(px, py, qx, qy)]
                0 <= px < w && 0 <= py < h && 0 <= qx < w && 0 <= qy < h && adjacent8(px, py, qx, qy)
                    && map@[py * w + px] == 2 && !stack@.contains((py * w + px) as usize) ==> map@[qy * w + qx] != 0,
        decreases count_eq(map@, 0u8), stack@.len(),
    {
        let ghost full_stack = stack@;
        let i = stack.pop().unwrap();
        let x = i % w;
        let y = i / w;
        proof {
            lemma_grid_coords(i as int, w as int, h as int);
            assert(full_stack == stack@.push(i));
            assert(full_stack[full_stack.len() - 1] == i);
            assert(map@[i as int] == 2);
            assert(i == y * w + x);
        }
        let ghost count_before = count_eq(map@, 0u8);
        let ghost len_before = stack@.len();
        let ghost stack_before = stack@;
        proof {
            assert forall|px: int, py: int, qx: int, qy: int|
                #![trigger adjacent8(px, py, qx, qy)]
                0 <= px < w && 0 <= py < h && 0 <= qx < w && 0 <= qy < h && adjacent8(px, py, qx, qy)
                    && map@[py * w + px] == 2 && !stack@.contains((py * w + px) as usize) && (px, py) != (x as int, y as int)
                    implies map@[qy * w + qx] != 0 by {
                if full_stack.contains((py * w + px) as usize) {
                    let k = choose|k: int| 0 <= k < full_stack.len() && full_stack[k] == (py * w + px) as usize;
                    if k < full_stack.len() - 1 {
                        assert(stack@[k] == full_stack[k]);
                    } else {
                        lemma_index_in_grid(px, py, w as int, h as int);
                        crate::arith::lemma_index_distinct(px, py, x as int, y as int, w as int);
                    }
                }
            }
        }
        let mut k: usize = 0;
        while k < 8
            invariant
                n == w * h,
                w == src.w,
                h == src.h,
                2 <= w <= 0x7fff_ffff,
                2 <= h <= 0x7fff_ffff,
                x < w,
                y < h,
                lo == low as int,
                hi == high as int,
                map@.len() == n,
                k <= 8,
                map@[y * w + x] == 2,
                forall|j: int| 0 <= j < n ==> #[trigger] map@[j] <= 2,
                forall|j: int|
                    0 <= j < n ==> (#[trigger] map@[j] != 1) == edge_candidate(src, lo, j % (w as int), j / (w as int)),
                forall|j: int|
                    0 <= j < n && edge_candidate(src, lo, j % (w as int), j / (w as int)) && magnitude_spec(
                        src,
                        j % (w as int),
                        j / (w as int),
                    ) > hi ==> #[trigger] map@[j] == 2,
                forall|px: int, py: int|
                    0 <= px < w && 0 <= py < h && #[trigger] map@[py * w + px] == 2 ==> hysteresis_edge(src, lo, hi, px, py),
                forall|k2: int| 0 <= k2 < stack@.len() ==> #[trigger] stack@[k2] < n && map@[stack@[k2] as int] == 2,
                stack@.len() >= len_before,
                forall|k2: int| 0 <= k2 < len_before ==> stack@[k2] == #[trigger] stack_before[k2],
                count_eq(map@, 0u8) + (stack@.len() - len_before) == count_before,
                forall|k2: int| 0 <= k2 < k ==> #[trigger] nb_settled(map@, w as int, h as int, x as int, y as int, k2),
                forall|px: int, py: int, qx: int, qy: int|
                    #![trigger adjacent8(px, py, qx, qy)]
                    0 <= px < w && 0 <= py < h && 0 <= qx < w && 0 <= qy < h && adjacent8(px, py, qx, qy)
                        && map@[py * w + px] == 2 && !stack@.contains((py * w + px) as usize) && (px, py) != (
                        x as int,
                        y as int,
                    ) ==> map@[qy * w + qx] != 0,
            decreases 8 - k,
        {
            settle_neighbour(
                src,
                low,
                high,
                map,
                &mut stack,
                x,
                y,
                k,
                Ghost(len_before),
                Ghost(count_before),
                Ghost(stack_before),
            );
            k = k + 1;
        }
        proof {
            assert forall|px: int, py: int, qx: int, qy: int|
                #![trigger adjacent8(px, py, qx, qy)]
                0 <= px < w && 0 <= py < h && 0 <= qx < w && 0 <= qy < h && adjacent8(px, py, qx, qy)
                    && map@[py * w + px] == 2 && !stack@.contains((py * w + px) as usize) implies map@[qy * w + qx] != 0 by {
                if (px, py) == (x as int, y as int) {
                    lemma_nb_covers(px, py, qx, qy);
                    let kn = choose|kn: int| 0 <= kn < 8 && #[trigger] nb_offset(kn) == (qx - px, qy - py);
                    assert(nb_settled(map@, w as int, h as int, x as int, y as int, kn));
                }
            }
        }
    }
    proof {
        assert forall|j: int| 0 <= j < n implies (#[trigger] map@[j] == 2) == hysteresis_edge(
            src,
            lo,
            hi,
            j % (w as int),
            j / (w as int),
        ) by {
            lemma_grid_coords(j, w as int, h as int);
            let px = j % (w as int);
            let py = j / (w as int);
            assert(j == py * w + px);
            if hysteresis_edge(src, lo, hi, px, py) {
                let kr = choose|kr: nat| edge_reach(src, lo, hi, px, py, kr);
                assert forall|ax: int, ay: int|
                    #![trigger edge_candidate(src, lo, ax, ay)]
                    0 <= ax < w && 0 <= ay < h && edge_candidate(src, lo, ax, ay) implies map@[ay * w + ax] != 1 by {
                    lemma_index_in_grid(ax, ay, w as int, h as int);
                    lemma_grid_index_coords(ax, ay, w as int);
                }
                assert forall|ax: int, ay: int|
                    0 <= ax < w && 0 <= ay < h && magnitude_spec(src, ax, ay) > hi && survives_nms(src, ax, ay)
                        implies #[trigger] map@[ay * w + ax] == 2 by {
                    lemma_index_in_grid(ax, ay, w as int, h as int);
                    lemma_grid_index_coords(ax, ay, w as int);
                    assert(edge_candidate(src, lo, ax, ay));
                }
                assert forall|ax: int, ay: int, bx: int, by: int|
                    #![trigger adjacent8(ax, ay, bx, by)]
                    0 <= ax < w && 0 <= ay < h && 0 <= bx < w && 0 <= by < h && adjacent8(ax, ay, bx, by)
                        && map@[ay * w + ax] == 2 implies map@[by * w + bx] != 0 by {
                    assert(!stack@.contains((ay * w + ax) as usize));
                }
                lemma_hysteresis_complete(src, map@, lo, hi, px, py, kr);
            }
        }
    }
}

/// `cv2.Canny(src, low, high)` (the thresholds are swapped when given in the
/// wrong order). The result has the source's size and holds only 0 and 255;
/// a pixel is lit exactly when it survived non-maximum suppression with a
/// magnitude over the low threshold and is 8-connected through such pixels
/// to one over the high threshold. Images narrower or shorter than two pixels

/// Every pixel of `src` has the same value.
pub open spec fn is_flat(src: &Gray) -> bool {
    forall|i: int| 0 <= i < src.data@.len() ==> #[trigger] src.data@[i] == src.data@[0]
}

proof fn lemma_flat_replicate(src: &Gray, x: int, y: int)
    requires
        src.wf(),
        src.w >= 1,
        src.h >= 1,
        is_flat(src),
    ensures
        replicate(src, x, y) == src.data@[0],
{
    let cx = if x < 0 { 0 } else if x > src.w - 1 { src.w - 1 } else { x };
    let cy = if y < 0 { 0 } else if y > src.h - 1 { src.h - 1 } else { y };
    lemma_index_in_grid(cx, cy, src.w as int, src.h as int);
}

proof fn lemma_flat_magnitude(src: &Gray, x: int, y: int)
    requires
        src.wf(),
        src.w >= 1,
        src.h >= 1,
        is_flat(src),
    ensures
        magnitude_spec(src, x, y) == 0,
        magnitude_or_zero(src, x, y) == 0,
{
    lemma_flat_replicate(src, x - 1, y - 1);
    lemma_flat_replicate(src, x - 1, y);
    lemma_flat_replicate(src, x - 1, y + 1);
    lemma_flat_replicate(src, x, y - 1);
    lemma_flat_replicate(src, x, y + 1);
    lemma_flat_replicate(src, x + 1, y - 1);
    lemma_flat_replicate(src, x + 1, y);
    lemma_flat_replicate(src, x + 1, y + 1);
}

/// A flat image has no edges: its gradient vanishes everywhere, so no pixel
/// survives suppression.
pub proof fn lemma_flat_has_no_edges(src: &Gray, low: int, high: int, x: int, y: int)
    requires
        src.wf(),
        is_flat(src),
    ensures
        !hysteresis_edge(src, low, high, x, y),
{
    if hysteresis_edge(src, low, high, x, y) {
        let k = choose|k: nat| edge_reach(src, low, high, x, y, k);
        assert(edge_candidate(src, low, x, y));
        assert(src.w >= 1 && src.h >= 1);
        lemma_flat_magnitude(src, x, y);
        lemma_flat_magnitude(src, x - 1, y);
        lemma_flat_magnitude(src, x + 1, y);
        lemma_flat_magnitude(src, x, y - 1);
        lemma_flat_magnitude(src, x, y + 1);
        lemma_flat_magnitude(src, x - 1, y - 1);
        lemma_flat_magnitude(src, x + 1, y + 1);
        lemma_flat_magnitude(src, x + 1, y - 1);
        lemma_flat_magnitude(src, x - 1, y + 1);
        assert(!survives_nms(src, x, y));
    }
}

/// come back blank.
pub fn canny(src: &Gray, low: i32, high: i32) -> (e: Gray)
    requires
        src.wf(),
        src.w <= 0x7fff_ffff,
        src.h <= 0x7fff_ffff,
    ensures
        e.w == src.w,
        e.h == src.h,
        e.wf(),
        forall|i: int| 0 <= i < src.w * src.h ==> #[trigger] e.data@[i] == 0 || e.data@[i] == 255,
        (src.w < 2 || src.h < 2) ==> forall|i: int| 0 <= i < src.w * src.h ==> #[trigger] e.data@[i] == 0,
        is_flat(src) ==> forall|i: int| 0 <= i < src.w * src.h ==> #[trigger] e.data@[i] == 0,
        src.w >= 2 && src.h >= 2 ==> forall|i: int|
            0 <= i < src.w * src.h ==> (#[trigger] e.data@[i] == 255) == hysteresis_edge(
                src,
                if low > high { high as int } else { low as int },
                if low > high { low as int } else { high as int },
                i % (src.w as int),
                i / (src.w as int),
            ),
{
    let (low, high) = if low > high {
        (high, low)
    } else {
        (low, high)
    };
    assert(src.data@.len() == src.data.len());
    if src.w < 2 || src.h < 2 {
        return Gray::new(src.w, src.h);
    }
    let w = src.w;
    let h = src.h;
    let (dx, dy) = sobel3(src);
    let ghost sobel_ok = forall|j: int|
        0 <= j < src.w * src.h ==> #[trigger] dx@[j] == sobel_dx(src, j % (src.w as int), j / (src.w as int))
            && dy@[j] == sobel_dy(src, j % (src.w as int), j / (src.w as int));
    assert(sobel_ok);
    let mag = magnitudes(src, &dx, &dy);
    assert(sobel_ok);
    let (mut map, stack) = suppress(src, &dx, &dy, &mag, low, high);
    hysteresis(src, low, high, &mut map, stack);
    let n = w * h;
    let mut data: Vec<u8> = Vec::new();
    let mut i: usize = 0;
    while i < n
        invariant
            n == w * h,
            w == src.w,
            h == src.h,
            map@.len() == n,
            forall|j: int|
                0 <= j < n ==> (#[trigger] map@[j] == 2) == hysteresis_edge(
                    src,
                    low as int,
                    high as int,
                    j % (w as int),
                    j / (w as int),
                ),
            i <= n,
            data@.len() == i,
            forall|j: int| 0 <= j < i ==> (#[trigger] data@[j] == 255) == (map@[j] == 2),
            forall|j: int| 0 <= j < i ==> #[trigger] data@[j] == 0 || data@[j] == 255,
        decreases n - i,
    {
        let v: u8 = if map[i] == 2 {
            255
        } else {
            0
        };
        data.push(v);
        i = i + 1;
    }
    proof {
        if is_flat(src) {
            assert forall|j: int| 0 <= j < src.w * src.h implies #[trigger] data@[j] == 0 by {
                lemma_flat_has_no_edges(src, low as int, high as int, j % (w as int), j / (w as int));
            }
        }
    }
    Gray::from_vec(w, h, data)
}

} // verus!
