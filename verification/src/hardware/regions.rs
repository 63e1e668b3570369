//! The 8-connected regions of a mark mask, taken one at a time, with the box
//! each one spans.

use vstd::prelude::*;
use std::collections::VecDeque;
use crate::arith::lemma_index_in_grid;
use crate::hardware::vision::canny::adjacent8;
use crate::hardware::vision::image::{
    conn8,
    count_eq,
    flag,
    ink_px,
    lemma_conn8_sym_trans,
    lemma_count_eq_update,
    lemma_reach8_start,
    reach8,
    Gray,
};

verus! {

/// Widest and tallest mask handled here.
pub const REGION_W: usize = 640;
pub const REGION_H: usize = 400;

/// Every flagged pixel is foreground, and every foreground 8-neighbour of a
/// flagged pixel is flagged: the flags are a union of whole regions.
pub open spec fn flags_whole(mask: &Gray, seen: Seq<bool>) -> bool {
    &&& forall|x: int, y: int|
        0 <= x < mask.w && 0 <= y < mask.h && #[trigger] flag(seen, mask.w as int, x, y) ==> ink_px(mask, x, y)
    &&& forall|px: int, py: int, qx: int, qy: int|
        #![trigger adjacent8(px, py, qx, qy)]
        0 <= px < mask.w && 0 <= py < mask.h && adjacent8(px, py, qx, qy) && flag(seen, mask.w as int, px, py)
            && ink_px(mask, qx, qy) ==> flag(seen, mask.w as int, qx, qy)
}

/// `b` is `(left, top, right, bottom)`, inclusive: every pixel of the region
/// of `(x, y)` lies within it and each of its sides touches the region.
pub open spec fn region_box(mask: &Gray, x: int, y: int, b: (i32, i32, i32, i32)) -> bool {
    &&& forall|qx: int, qy: int| #[trigger] conn8(mask, x, y, qx, qy) ==> b.0 <= qx <= b.2 && b.1 <= qy <= b.3
    &&& exists|qx: int, qy: int| #[trigger] conn8(mask, x, y, qx, qy) && qx == b.0
    &&& exists|qx: int, qy: int| #[trigger] conn8(mask, x, y, qx, qy) && qx == b.2
    &&& exists|qx: int, qy: int| #[trigger] conn8(mask, x, y, qx, qy) && qy == b.1
    &&& exists|qx: int, qy: int| #[trigger] conn8(mask, x, y, qx, qy) && qy == b.3
}

/// `(qx, qy)` is in the region of some pixel whose raster index is below `i`.
pub open spec fn covered_before(mask: &Gray, i: int, qx: int, qy: int) -> bool {
    exists|ex: int, ey: int|
        0 <= ex < mask.w && 0 <= ey < mask.h && ey * mask.w + ex < i && #[trigger] conn8(mask, ex, ey, qx, qy)
}

/// A region has one box.
pub proof fn lemma_region_box_unique(mask: &Gray, x: int, y: int, a: (i32, i32, i32, i32), b: (i32, i32, i32, i32))
    requires
        region_box(mask, x, y, a),
        region_box(mask, x, y, b),
    ensures
        a == b,
{
    let (p, q) = choose|qx: int, qy: int| #[trigger] conn8(mask, x, y, qx, qy) && qx == a.0;
    let (p, q) = choose|qx: int, qy: int| #[trigger] conn8(mask, x, y, qx, qy) && qx == b.0;
    let (p, q) = choose|qx: int, qy: int| #[trigger] conn8(mask, x, y, qx, qy) && qx == a.2;
    let (p, q) = choose|qx: int, qy: int| #[trigger] conn8(mask, x, y, qx, qy) && qx == b.2;
    let (p, q) = choose|qx: int, qy: int| #[trigger] conn8(mask, x, y, qx, qy) && qy == a.1;
    let (p, q) = choose|qx: int, qy: int| #[trigger] conn8(mask, x, y, qx, qy) && qy == b.1;
    let (p, q) = choose|qx: int, qy: int| #[trigger] conn8(mask, x, y, qx, qy) && qy == a.3;
    let (p, q) = choose|qx: int, qy: int| #[trigger] conn8(mask, x, y, qx, qy) && qy == b.3;
}

/// Flags closed under foreground 8-neighbours reach everything a flagged
/// pixel connects to.
proof fn lemma_flags_reach(mask: &Gray, seen: Seq<bool>, ax: int, ay: int, bx: int, by: int, k: nat)
    requires
        mask.wf(),
        0 <= ax < mask.w,
        0 <= ay < mask.h,
        flag(seen, mask.w as int, ax, ay),
        forall|px: int, py: int, qx: int, qy: int|
            #![trigger adjacent8(px, py, qx, qy)]
            0 <= px < mask.w && 0 <= py < mask.h && adjacent8(px, py, qx, qy) && flag(seen, mask.w as int, px, py)
                && ink_px(mask, qx, qy) ==> flag(seen, mask.w as int, qx, qy),
        reach8(mask, ax, ay, bx, by, k),
    ensures
        0 <= bx < mask.w,
        0 <= by < mask.h,
        flag(seen, mask.w as int, bx, by),
    decreases k,
{
    if !(bx == ax && by == ay) {
        let (px, py) = choose|px: int, py: int|
            #![trigger adjacent8(px, py, bx, by)]
            adjacent8(px, py, bx, by) && reach8(mask, ax, ay, px, py, (k - 1) as nat);
        lemma_flags_reach(mask, seen, ax, ay, px, py, (k - 1) as nat);
    }
}

/// Visit the eight neighbours of `(cx, cy)`: each foreground one not yet
/// flagged is flagged and queued.
fn region_expand(
    mask: &Gray,
    seen: &mut Vec<bool>,
    queue: &mut VecDeque<(i32, i32)>,
    cx: i32,
    cy: i32,
    Ghost(base): Ghost<Seq<bool>>,
    Ghost(seed): Ghost<(int, int)>,
)
    requires
        mask.wf(),
        0 < mask.w <= REGION_W,
        0 < mask.h <= REGION_H,
        old(seen)@.len() == mask.w * mask.h,
        0 <= cx < mask.w,
        0 <= cy < mask.h,
        flag(old(seen)@, mask.w as int, cx as int, cy as int),
        conn8(mask, seed.0, seed.1, cx as int, cy as int),
        forall|x: int, y: int|
            0 <= x < mask.w && 0 <= y < mask.h && #[trigger] flag(old(seen)@, mask.w as int, x, y) ==> flag(
                base,
                mask.w as int,
                x,
                y,
            ) || conn8(mask, seed.0, seed.1, x, y),
        forall|j: int|
            0 <= j < old(queue)@.len() ==> 0 <= (#[trigger] old(queue)@[j]).0 < mask.w && 0 <= old(queue)@[j].1
                < mask.h && flag(old(seen)@, mask.w as int, old(queue)@[j].0 as int, old(queue)@[j].1 as int)
                && conn8(mask, seed.0, seed.1, old(queue)@[j].0 as int, old(queue)@[j].1 as int),
    ensures
        final(seen)@.len() == old(seen)@.len(),
        count_eq(final(seen)@, false) + (final(queue)@.len() - old(queue)@.len()) == count_eq(old(seen)@, false),
        final(queue)@.len() >= old(queue)@.len(),
        forall|j: int| 0 <= j < old(queue)@.len() ==> final(queue)@[j] == #[trigger] old(queue)@[j],
        forall|j: int|
            0 <= j < final(queue)@.len() ==> 0 <= (#[trigger] final(queue)@[j]).0 < mask.w && 0
                <= final(queue)@[j].1 < mask.h && flag(
                final(seen)@,
                mask.w as int,
                final(queue)@[j].0 as int,
                final(queue)@[j].1 as int,
            ) && conn8(mask, seed.0, seed.1, final(queue)@[j].0 as int, final(queue)@[j].1 as int),
        forall|x: int, y: int|
            0 <= x < mask.w && 0 <= y < mask.h && #[trigger] flag(final(seen)@, mask.w as int, x, y) ==> flag(
                base,
                mask.w as int,
                x,
                y,
            ) || conn8(mask, seed.0, seed.1, x, y),
        forall|x: int, y: int|
            0 <= x < mask.w && 0 <= y < mask.h && #[trigger] flag(old(seen)@, mask.w as int, x, y) ==> flag(
                final(seen)@,
                mask.w as int,
                x,
                y,
            ),
        forall|x: int, y: int|
            0 <= x < mask.w && 0 <= y < mask.h && #[trigger] flag(final(seen)@, mask.w as int, x, y) && !flag(
                old(seen)@,
                mask.w as int,
                x,
                y,
            ) ==> final(queue)@.contains((x as i32, y as i32)),
        forall|qx: int, qy: int|
            #[trigger] adjacent8(cx as int, cy as int, qx, qy) && ink_px(mask, qx, qy) ==> flag(
                final(seen)@,
                mask.w as int,
                qx,
                qy,
            ),
{
    let ghost w = mask.w as int;
    let ghost h = mask.h as int;
    let ghost seen0 = seen@;
    let ghost q0 = queue@;
    let ww = mask.w as i32;
    let wh = mask.h as i32;
    proof {
        assert(w * h <= 640 * 400) by (nonlinear_arith)
            requires
                0 < w <= 640,
                0 < h <= 400,
        ;
    }
    let mut k: i32 = 0;
    while k < 9
        invariant
            mask.wf(),
            w * h <= 640 * 400,
            flag(seen@, w, cx as int, cy as int),
            0 < mask.w <= REGION_W,
            0 < mask.h <= REGION_H,
            w == mask.w,
            h == mask.h,
            ww == w,
            wh == h,
            0 <= cx < w,
            0 <= cy < h,
            0 <= k <= 9,
            seen@.len() == seen0.len(),
            seen0.len() == w * h,
            conn8(mask, seed.0, seed.1, cx as int, cy as int),
            count_eq(seen@, false) + (queue@.len() - q0.len()) == count_eq(seen0, false),
            queue@.len() >= q0.len(),
            forall|j: int| 0 <= j < q0.len() ==> queue@[j] == #[trigger] q0[j],
            forall|j: int|
                0 <= j < queue@.len() ==> 0 <= (#[trigger] queue@[j]).0 < w && 0 <= queue@[j].1 < h && flag(
                    seen@,
                    w,
                    queue@[j].0 as int,
                    queue@[j].1 as int,
                ) && conn8(mask, seed.0, seed.1, queue@[j].0 as int, queue@[j].1 as int),
            forall|x: int, y: int|
                0 <= x < w && 0 <= y < h && #[trigger] flag(seen@, w, x, y) ==> flag(base, w, x, y) || conn8(
                    mask,
                    seed.0,
                    seed.1,
                    x,
                    y,
                ),
            forall|x: int, y: int| 0 <= x < w && 0 <= y < h && #[trigger] flag(seen0, w, x, y) ==> flag(seen@, w, x, y),
            forall|x: int, y: int|
                0 <= x < w && 0 <= y < h && #[trigger] flag(seen@, w, x, y) && !flag(seen0, w, x, y)
                    ==> queue@.contains((x as i32, y as i32)),
            forall|qx: int, qy: int|
                #[trigger] adjacent8(cx as int, cy as int, qx, qy) && ink_px(mask, qx, qy) && (qy - cy + 1) * 3 + (qx
                    - cx + 1) < k ==> flag(seen@, w, qx, qy),
        decreases 9 - k,
    {
        let ny = cy - 1 + k / 3;
        let nx = cx - 1 + k % 3;
        let ghost seen_k = seen@;
        let ghost queue_k = queue@;
        if 0 <= nx && nx < ww && 0 <= ny && ny < wh {
            proof {
                lemma_index_in_grid(nx as int, ny as int, w, h);
            }
            let b = (ny as usize) * mask.w + (nx as usize);
            if mask.data[b] != 0 && !seen[b] {
                proof {
                    lemma_count_eq_update(seen@, b as int, false, true);
                }
                seen.set(b, true);
                queue.push_back((nx, ny));
                proof {
                    assert forall|x: int, y: int| 0 <= x < w && 0 <= y < h implies #[trigger] flag(seen@, w, x, y) == (
                    flag(seen_k, w, x, y) || (x, y) == (nx as int, ny as int)) by {
                        lemma_index_in_grid(x, y, w, h);
                        if (x, y) != (nx as int, ny as int) {
                            crate::arith::lemma_index_distinct(x, y, nx as int, ny as int, w);
                        }
                    }
                    assert(adjacent8(cx as int, cy as int, nx as int, ny as int));
                    assert(ink_px(mask, nx as int, ny as int));
                    let kk = choose|kk: nat| reach8(mask, seed.0, seed.1, cx as int, cy as int, kk);
                    assert(reach8(mask, seed.0, seed.1, nx as int, ny as int, kk + 1));
                    assert(conn8(mask, seed.0, seed.1, nx as int, ny as int));
                    assert(queue@[queue@.len() - 1] == (nx, ny));
                    assert forall|j: int| 0 <= j < queue@.len() implies 0 <= (#[trigger] queue@[j]).0 < w && 0
                        <= queue@[j].1 < h && flag(seen@, w, queue@[j].0 as int, queue@[j].1 as int) && conn8(
                        mask,
                        seed.0,
                        seed.1,
                        queue@[j].0 as int,
                        queue@[j].1 as int,
                    ) by {
                        if j < queue_k.len() {
                            assert(queue@[j] == queue_k[j]);
                        }
                    }
                    assert forall|j: int| 0 <= j < q0.len() implies queue@[j] == #[trigger] q0[j] by {
                        assert(queue@[j] == queue_k[j]);
                    }
                    assert forall|x: int, y: int|
                        0 <= x < w && 0 <= y < h && #[trigger] flag(seen@, w, x, y) && !flag(
                            seen0,
                            w,
                            x,
                            y,
                        ) implies queue@.contains((x as i32, y as i32)) by {
                        if (x, y) != (nx as int, ny as int) {
                            assert(flag(seen_k, w, x, y));
                            let j = choose|j: int| 0 <= j < queue_k.len() && queue_k[j] == (x as i32, y as i32);
                            assert(queue@[j] == queue_k[j]);
                        } else {
                            assert(queue@[queue@.len() - 1] == (x as i32, y as i32));
                        }
                    }
                }
            }
        }
        proof {
            assert forall|qx: int, qy: int|
                #[trigger] adjacent8(cx as int, cy as int, qx, qy) && ink_px(mask, qx, qy) && (qy - cy + 1) * 3 + (qx
                    - cx + 1) < k + 1 implies flag(seen@, w, qx, qy) by {
                if qx == nx && qy == ny {
                    lemma_index_in_grid(nx as int, ny as int, w, h);
                } else {
                    assert(flag(seen_k, w, qx, qy));
                }
            }
        }
        k = k + 1;
    }
}

fn min_i32(a: i32, b: i32) -> (r: i32)
    ensures
        r == if a <= b {
            a
        } else {
            b
        },
{
    if a <= b {
        a
    } else {
        b
    }
}

fn max_i32(a: i32, b: i32) -> (r: i32)
    ensures
        r == if a >= b {
            a
        } else {
            b
        },
{
    if a >= b {
        a
    } else {
        b
    }
}

/// Flag the whole region of the unflagged foreground pixel `(u, v)` and
/// return its box as `(left, top, right, bottom)`, inclusive. The flags must
/// already be a union of whole regions; afterwards they are that union plus
/// this region.
pub fn region_box_of(mask: &Gray, seen: &mut Vec<bool>, u: i32, v: i32) -> (b: (i32, i32, i32, i32))
    requires
        mask.wf(),
        0 < mask.w <= REGION_W,
        0 < mask.h <= REGION_H,
        old(seen)@.len() == mask.w * mask.h,
        0 <= u < mask.w,
        0 <= v < mask.h,
        ink_px(mask, u as int, v as int),
        !flag(old(seen)@, mask.w as int, u as int, v as int),
        flags_whole(mask, old(seen)@),
    ensures
        final(seen)@.len() == old(seen)@.len(),
        forall|x: int, y: int|
            0 <= x < mask.w && 0 <= y < mask.h ==> #[trigger] flag(final(seen)@, mask.w as int, x, y) == (flag(
                old(seen)@,
                mask.w as int,
                x,
                y,
            ) || conn8(mask, u as int, v as int, x, y)),
        flags_whole(mask, final(seen)@),
        region_box(mask, u as int, v as int, b),
        0 <= b.0 <= u <= b.2 < mask.w,
        0 <= b.1 <= v <= b.3 < mask.h,
{
    let ghost w = mask.w as int;
    let ghost h = mask.h as int;
    let ghost base = seen@;
    let ghost seed = (u as int, v as int);
    proof {
        assert(w * h <= 640 * 400) by (nonlinear_arith)
            requires
                0 < w <= 640,
                0 < h <= 400,
        ;
        lemma_index_in_grid(u as int, v as int, w, h);
        lemma_count_eq_update(seen@, v * w + u, false, true);
    }
    seen.set((v as usize) * mask.w + (u as usize), true);
    let mut queue: VecDeque<(i32, i32)> = VecDeque::new();
    queue.push_back((u, v));
    proof {
        assert forall|x: int, y: int| 0 <= x < w && 0 <= y < h implies #[trigger] flag(seen@, w, x, y) == (flag(
            base,
            w,
            x,
            y,
        ) || (x, y) == (u as int, v as int)) by {
            lemma_index_in_grid(x, y, w, h);
            if (x, y) != (u as int, v as int) {
                crate::arith::lemma_index_distinct(x, y, u as int, v as int, w);
            }
        }
        assert(reach8(mask, u as int, v as int, u as int, v as int, 0));
        assert(conn8(mask, u as int, v as int, u as int, v as int));
        assert(conn8(mask, seed.0, seed.1, u as int, v as int));
        assert(queue@[0] == (u, v));
        assert(queue@.contains((u, v)));
    }
    let mut bx0 = u;
    let mut by0 = v;
    let mut bx1 = u;
    let mut by1 = v;
    while queue.len() > 0
        invariant
            mask.wf(),
            0 < mask.w <= REGION_W,
            0 < mask.h <= REGION_H,
            w == mask.w,
            h == mask.h,
            w * h <= 640 * 400,
            seed == (u as int, v as int),
            0 <= u < w,
            0 <= v < h,
            base.len() == w * h,
            seen@.len() == w * h,
            !flag(base, w, u as int, v as int),
            flags_whole(mask, base),
            flag(seen@, w, u as int, v as int),
            conn8(mask, u as int, v as int, u as int, v as int),
            0 <= bx0 <= u <= bx1 < w,
            0 <= by0 <= v <= by1 < h,
            forall|j: int|
                0 <= j < queue@.len() ==> 0 <= (#[trigger] queue@[j]).0 < w && 0 <= queue@[j].1 < h && flag(
                    seen@,
                    w,
                    queue@[j].0 as int,
                    queue@[j].1 as int,
                ) && conn8(mask, seed.0, seed.1, queue@[j].0 as int, queue@[j].1 as int),
            forall|x: int, y: int|
                0 <= x < w && 0 <= y < h && #[trigger] flag(seen@, w, x, y) ==> flag(base, w, x, y) || conn8(
                    mask,
                    seed.0,
                    seed.1,
                    x,
                    y,
                ),
            forall|x: int, y: int| 0 <= x < w && 0 <= y < h && #[trigger] flag(base, w, x, y) ==> flag(seen@, w, x, y),
            forall|px: int, py: int, qx: int, qy: int|
                #![trigger adjacent8(px, py, qx, qy)]
                0 <= px < w && 0 <= py < h && adjacent8(px, py, qx, qy) && flag(seen@, w, px, py) && !queue@.contains(
                    (px as i32, py as i32),
                ) && ink_px(mask, qx, qy) ==> flag(seen@, w, qx, qy),
            forall|x: int, y: int|
                0 <= x < w && 0 <= y < h && #[trigger] flag(seen@, w, x, y) && !flag(base, w, x, y)
                    && !queue@.contains((x as i32, y as i32)) ==> bx0 <= x <= bx1 && by0 <= y <= by1,
            exists|qx: int, qy: int| #[trigger] conn8(mask, seed.0, seed.1, qx, qy) && qx == bx0,
            exists|qx: int, qy: int| #[trigger] conn8(mask, seed.0, seed.1, qx, qy) && qx == bx1,
            exists|qx: int, qy: int| #[trigger] conn8(mask, seed.0, seed.1, qx, qy) && qy == by0,
            exists|qx: int, qy: int| #[trigger] conn8(mask, seed.0, seed.1, qx, qy) && qy == by1,
        decreases count_eq(seen@, false), queue@.len(),
    {
        let ghost full_queue = queue@;
        let ghost seen_mid = seen@;
        let (cx, cy) = queue.pop_front().unwrap();
        let ghost queue_mid = queue@;
        let ghost px0 = cx as int;
        let ghost py0 = cy as int;
        proof {
            assert(full_queue == seq![(cx, cy)] + queue@);
            assert(full_queue[0] == (cx, cy));
            assert forall|j: int| 0 <= j < queue@.len() implies 0 <= (#[trigger] queue@[j]).0 < w && 0 <= queue@[j].1
                < h && flag(seen@, w, queue@[j].0 as int, queue@[j].1 as int) && conn8(
                mask,
                seed.0,
                seed.1,
                queue@[j].0 as int,
                queue@[j].1 as int,
            ) by {
                assert(queue@[j] == full_queue[j + 1]);
            }
        }
        bx0 = min_i32(bx0, cx);
        by0 = min_i32(by0, cy);
        bx1 = max_i32(bx1, cx);
        by1 = max_i32(by1, cy);
        region_expand(mask, seen, &mut queue, cx, cy, Ghost(base), Ghost(seed));
        proof {
            assert forall|x: int, y: int|
                0 <= x < w && 0 <= y < h && #[trigger] flag(seen@, w, x, y) && !queue@.contains(
                    (x as i32, y as i32),
                ) implies flag(seen_mid, w, x, y) && ((x, y) == (px0, py0) || !full_queue.contains(
                (x as i32, y as i32),
            )) by {
                if !flag(seen_mid, w, x, y) {
                    assert(queue@.contains((x as i32, y as i32)));
                }
                if (x, y) != (px0, py0) && full_queue.contains((x as i32, y as i32)) {
                    let j = choose|j: int| 0 <= j < full_queue.len() && full_queue[j] == (x as i32, y as i32);
                    assert(j > 0);
                    assert(queue_mid[j - 1] == full_queue[j]);
                    assert(queue@[j - 1] == queue_mid[j - 1]);
                }
            }
            assert forall|px: int, py: int, qx: int, qy: int|
                #![trigger adjacent8(px, py, qx, qy)]
                0 <= px < w && 0 <= py < h && adjacent8(px, py, qx, qy) && flag(seen@, w, px, py) && !queue@.contains(
                    (px as i32, py as i32),
                ) && ink_px(mask, qx, qy) implies flag(seen@, w, qx, qy) by {
                if (px, py) == (px0, py0) {
                    assert(adjacent8(px0, py0, qx, qy));
                } else {
                    assert(flag(seen_mid, w, px, py) && !full_queue.contains((px as i32, py as i32)));
                    assert(flag(seen_mid, w, qx, qy));
                }
            }
            assert forall|x: int, y: int|
                0 <= x < w && 0 <= y < h && #[trigger] flag(seen@, w, x, y) && !flag(base, w, x, y)
                    && !queue@.contains((x as i32, y as i32)) implies bx0 <= x <= bx1 && by0 <= y <= by1 by {
                if (x, y) != (px0, py0) {
                    assert(flag(seen_mid, w, x, y) && !full_queue.contains((x as i32, y as i32)));
                }
            }
            assert(flag(seen@, w, u as int, v as int));
        }
    }
    proof {
        assert forall|px: int, py: int, qx: int, qy: int|
            #![trigger adjacent8(px, py, qx, qy)]
            0 <= px < w && 0 <= py < h && adjacent8(px, py, qx, qy) && flag(seen@, w, px, py) && ink_px(mask, qx, qy)
                implies flag(seen@, w, qx, qy) by {
            assert(!queue@.contains((px as i32, py as i32)));
        }
        assert forall|x: int, y: int| #[trigger] conn8(mask, u as int, v as int, x, y) implies 0 <= x < w && 0 <= y < h
            && flag(seen@, w, x, y) && !flag(base, w, x, y) by {
            let k = choose|k: nat| reach8(mask, u as int, v as int, x, y, k);
            lemma_flags_reach(mask, seen@, u as int, v as int, x, y, k);
            if flag(base, w, x, y) {
                lemma_conn8_sym_trans(mask, u as int, v as int, x, y, x, y);
                let k2 = choose|k2: nat| reach8(mask, x, y, u as int, v as int, k2);
                lemma_flags_reach(mask, base, x, y, u as int, v as int, k2);
            }
        }
        assert forall|x: int, y: int| 0 <= x < w && 0 <= y < h && #[trigger] flag(seen@, w, x, y) implies ink_px(
            mask,
            x,
            y,
        ) by {
            if !flag(base, w, x, y) {
                let k = choose|k: nat| reach8(mask, u as int, v as int, x, y, k);
            }
        }
        assert forall|qx: int, qy: int| #[trigger] conn8(mask, u as int, v as int, qx, qy) implies bx0 <= qx <= bx1
            && by0 <= qy <= by1 by {
            assert(!queue@.contains((qx as i32, qy as i32)));
        }
    }
    (bx0, by0, bx1, by1)
}

} // verus!
