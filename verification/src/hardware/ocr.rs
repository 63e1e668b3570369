//! The text-recognition side of guards: how a frame is prepared for the
//! recognizer, and how a needle is found in the lines it reads back.
//!
//! Matching is case-insensitive over whitespace-collapsed text, exact when the
//! needle occurs verbatim and otherwise within a small edit budget that grows
//! with the needle's length.

use vstd::prelude::*;
use crate::arith::{lemma_grid_coords, lemma_grid_index_coords, lemma_index_in_grid};
use crate::text::{char_is_whitespace, chars_of, is_whitespace, string_of, trim_end, trim_start};

verus! {

/// The short side the recognizer is given at least, when a frame is smaller.
pub const MIN_SHORT_SIDE: u32 = 160;

/// The largest upscale factor.
pub const MAX_SCALE: u32 = 6;

// ── Preparing the frame ──────────────────────────────────────────────────────

/// The integer factor that lifts the short side to `MIN_SHORT_SIDE`
/// (rounding up, at most `MAX_SCALE`); 1 when the frame is already large
/// enough or empty.
pub open spec fn scale_factor_spec(width: u32, height: u32) -> int {
    let short = if width < height {
        width as int
    } else {
        height as int
    };
    if short == 0 || short >= 160 {
        1
    } else {
        let f = (160 + short - 1) / short;
        if f > 6 {
            6
        } else {
            f
        }
    }
}

pub fn scale_factor(width: u32, height: u32) -> (f: u32)
    ensures
        f == scale_factor_spec(width, height),
        1 <= f <= MAX_SCALE,
{
    let short = if width < height {
        width
    } else {
        height
    };
    if short == 0 || short >= MIN_SHORT_SIDE {
        return 1;
    }
    let f = (MIN_SHORT_SIDE + short - 1) / short;
    proof {
        assert(f >= 1) by (nonlinear_arith)
            requires
                1 <= short < 160,
                f == (160 + short - 1) as int / short as int,
        ;
    }
    if f > MAX_SCALE {
        MAX_SCALE
    } else {
        f
    }
}

/// Byte `k` of a tight BGR image `w` pixels wide, upscaled by `f` with
/// nearest-neighbour sampling.
pub open spec fn upscaled_byte(bgr: Seq<u8>, w: int, f: int, k: int) -> u8 {
    let p = k / 3;
    let big_y = p / (w * f);
    let big_x = p % (w * f);
    bgr[((big_y / f) * w + big_x / f) * 3 + k % 3]
}

proof fn lemma_upscale_index(w: int, h: int, f: int, k: int)
    requires
        w >= 1,
        h >= 1,
        f >= 1,
        0 <= k < w * f * (h * f) * 3,
    ensures
        0 <= ((k / 3) / (w * f) / f) * w + ((k / 3) % (w * f)) / f < w * h,
        0 <= ((k / 3) / (w * f) / f * w + (k / 3) % (w * f) / f) * 3 + k % 3 < w * h * 3,
{
    let wf = w * f;
    let hf = h * f;
    assert(w * f >= 1) by (nonlinear_arith)
        requires
            w >= 1,
            f >= 1,
    ;
    assert(wf * hf * 3 == (wf * hf) * 3);
    let p = k / 3;
    lemma_grid_coords(k, 3, wf * hf);
    assert(0 <= p < wf * hf);
    lemma_grid_coords(p, wf, hf);
    let by = p / wf;
    let bx = p % wf;
    assert(0 <= by < h * f);
    assert(0 <= bx < w * f);
    assert(f * h == h * f) by (nonlinear_arith);
    lemma_grid_coords(by, f, h);
    assert(f * w == w * f) by (nonlinear_arith);
    lemma_grid_coords(bx, f, w);
    lemma_index_in_grid(bx / f, by / f, w, h);
    assert(((by / f) * w + bx / f) * 3 + k % 3 < w * h * 3) by (nonlinear_arith)
        requires
            (by / f) * w + bx / f < w * h,
            0 <= k % 3 < 3,
    ;
}

/// Nearest-neighbour upscale of a tight BGR buffer by an integer factor: every
/// pixel becomes an `f` by `f` block of itself.
pub fn upscale_bgr(bgr: &[u8], width: u32, height: u32, factor: u32) -> (out: Vec<u8>)
    requires
        factor >= 1,
        bgr@.len() >= width * height * 3,
        width * factor * (height * factor) * 3 <= usize::MAX,
    ensures
        out@.len() == width * factor * (height * factor) * 3,
        forall|k: int|
            0 <= k < out@.len() ==> #[trigger] out@[k] == upscaled_byte(
                bgr@,
                width as int,
                factor as int,
                k,
            ),
{
    let w = width as usize;
    let h = height as usize;
    let f = factor as usize;
    if w == 0 || h == 0 {
        proof {
            assert(width * factor * (height * factor) * 3 == 0) by (nonlinear_arith)
                requires
                    width == 0 || height == 0,
            ;
        }
        return Vec::new();
    }
    proof {
        assert(w * f <= w * f * (h * f) * 3 && h * f <= w * f * (h * f) * 3 && w * f * (h * f)
            <= w * f * (h * f) * 3) by (nonlinear_arith)
            requires
                w >= 1,
                h >= 1,
                f >= 1,
        ;
    }
    let wf = w * f;
    let total = wf * (h * f) * 3;
    let mut out: Vec<u8> = Vec::new();
    let mut k: usize = 0;
    while k < total
        invariant
            w == width,
            h == height,
            f == factor,
            w >= 1,
            h >= 1,
            f >= 1,
            wf == w * f,
            total == w * f * (h * f) * 3,
            bgr@.len() >= w * h * 3,
            k <= total,
            out@.len() == k,
            forall|j: int|
                0 <= j < k ==> #[trigger] out@[j] == upscaled_byte(bgr@, w as int, f as int, j),
        decreases total - k,
    {
        proof {
            lemma_upscale_index(w as int, h as int, f as int, k as int);
        }
        let p = k / 3;
        let by = p / wf;
        let bx = p % wf;
        assert((by / f) * w + bx / f < w * h);
        assert(((by / f) * w + bx / f) * 3 + k % 3 < w * h * 3);
        assert(w * h * 3 <= bgr@.len());
        assert(bgr@.len() == bgr.len());
        let src = ((by / f) * w + bx / f) * 3 + k % 3;
        out.push(bgr[src]);
        k = k + 1;
    }
    out
}

/// Tight BGR to tight BGRA with every alpha opaque (a trailing partial pixel is
/// dropped).
pub fn bgr_to_bgra(bgr: &[u8]) -> (out: Vec<u8>)
    ensures
        out@.len() == bgr@.len() / 3 * 4,
        forall|i: int, c: int|
            0 <= i < bgr@.len() / 3 && 0 <= c < 3 ==> #[trigger] out@[4 * i + c] == bgr@[3 * i + c],
        forall|i: int| 0 <= i < bgr@.len() / 3 ==> #[trigger] out@[4 * i + 3] == 255,
{
    let n = bgr.len() / 3;
    let mut out: Vec<u8> = Vec::new();
    let mut i: usize = 0;
    while i < n
        invariant
            n == bgr@.len() / 3,
            i <= n,
            out@.len() == 4 * i,
            forall|j: int, c: int|
                0 <= j < i && 0 <= c < 3 ==> #[trigger] out@[4 * j + c] == bgr@[3 * j + c],
            forall|j: int| 0 <= j < i ==> #[trigger] out@[4 * j + 3] == 255,
        decreases n - i,
    {
        proof {
            assert(3 * i + 3 <= bgr@.len()) by (nonlinear_arith)
                requires
                    i < n,
                    n == bgr@.len() / 3,
            ;
            assert(bgr@.len() == bgr.len());
        }
        out.push(bgr[3 * i]);
        out.push(bgr[3 * i + 1]);
        out.push(bgr[3 * i + 2]);
        out.push(255);
        i = i + 1;
    }
    out
}

// ── Normalising text ─────────────────────────────────────────────────────────

/// What `str::to_lowercase` gives for the text `s` (Unicode lower case).
pub uninterp spec fn unicode_lowercase(s: Seq<char>) -> Seq<char>;

/// `str::to_lowercase`: the text in Unicode lower case.
#[verifier::external_body]
fn to_lowercase(s: &str) -> (r: String)
    ensures
        r@ == unicode_lowercase(s@),
{
    s.to_lowercase()
}

/// The text seen so far with whitespace runs collapsed, and whether a
/// separator is owed before the next word.
pub open spec fn collapse_state(s: Seq<char>) -> (Seq<char>, bool)
    decreases s.len(),
{
    if s.len() == 0 {
        (Seq::empty(), false)
    } else {
        let prev = collapse_state(s.drop_last());
        let c = s.last();
        if char_is_whitespace(c) {
            (prev.0, prev.0.len() > 0)
        } else if prev.1 {
            (prev.0.push(' ').push(c), false)
        } else {
            (prev.0.push(c), false)
        }
    }
}

/// `s` split at whitespace into words and joined with single spaces.
pub open spec fn collapse_whitespace(s: Seq<char>) -> Seq<char> {
    collapse_state(s).0
}

/// The form both sides of a match are compared in: whitespace runs collapsed
/// to one space, the ends trimmed, lower case.
pub open spec fn normalize_spec(s: Seq<char>) -> Seq<char> {
    unicode_lowercase(collapse_whitespace(s))
}

fn collapse(s: &Vec<char>) -> (out: Vec<char>)
    ensures
        out@ == collapse_whitespace(s@),
{
    let mut out: Vec<char> = Vec::new();
    let mut pending = false;
    let mut i: usize = 0;
    while i < s.len()
        invariant
            i <= s@.len(),
            (out@, pending) == collapse_state(s@.take(i as int)),
        decreases s@.len() - i,
    {
        proof {
            assert(s@.take(i as int + 1).drop_last() == s@.take(i as int));
        }
        let c = s[i];
        if is_whitespace(c) {
            pending = out.len() > 0;
        } else {
            if pending {
                out.push(' ');
                pending = false;
            }
            out.push(c);
        }
        i = i + 1;
    }
    proof {
        assert(s@.take(i as int) == s@);
    }
    out
}

/// Lower-case `s` and collapse its whitespace.
pub fn normalize(s: &str) -> (r: String)
    ensures
        r@ == normalize_spec(s@),
{
    let chars = chars_of(s);
    let collapsed = string_of(&collapse(&chars));
    to_lowercase(collapsed.as_str())
}

// ── Fuzzy search ─────────────────────────────────────────────────────────────

/// How many character errors a needle of `len` characters may absorb: none
/// under six characters, then one per six, at most three.
pub open spec fn edit_budget_spec(len: int) -> int {
    if len < 6 {
        0
    } else if len / 6 > 3 {
        3
    } else {
        len / 6
    }
}

pub fn edit_budget(len: usize) -> (b: usize)
    ensures
        b == edit_budget_spec(len as int),
{
    if len < 6 {
        0
    } else if len / 6 > 3 {
        3
    } else {
        len / 6
    }
}

pub open spec fn min3(a: int, b: int, c: int) -> int {
    if a <= b && a <= c {
        a
    } else if b <= c {
        b
    } else {
        c
    }
}

/// The edit distance from the first `j` characters of `needle` to the best
/// substring of `hay` ending after its first `i` characters, the substring's
/// start being free.
pub open spec fn match_cost(hay: Seq<char>, needle: Seq<char>, i: int, j: int) -> int
    decreases i + j,
{
    if j <= 0 {
        0
    } else if i <= 0 {
        j
    } else {
        let cost: int = if hay[i - 1] == needle[j - 1] {
            0
        } else {
            1
        };
        min3(
            match_cost(hay, needle, i - 1, j - 1) + cost,
            match_cost(hay, needle, i - 1, j) + 1,
            match_cost(hay, needle, i, j - 1) + 1,
        )
    }
}

proof fn lemma_match_cost_bound(hay: Seq<char>, needle: Seq<char>, i: int, j: int)
    requires
        i >= 0,
        j >= 0,
    ensures
        0 <= match_cost(hay, needle, i, j) <= j,
    decreases i + j,
{
    if j > 0 && i > 0 {
        lemma_match_cost_bound(hay, needle, i - 1, j - 1);
        lemma_match_cost_bound(hay, needle, i - 1, j);
        lemma_match_cost_bound(hay, needle, i, j - 1);
    }
}

/// The closest match of the whole needle over the ends `1..=upto`: the fewest
/// errors within `budget`, the earliest end among those.
pub open spec fn best_end(hay: Seq<char>, needle: Seq<char>, budget: int, upto: int) -> Option<
    (int, int),
>
    decreases upto,
{
    if upto <= 0 {
        None
    } else {
        let prev = best_end(hay, needle, budget, upto - 1);
        let d = match_cost(hay, needle, upto, needle.len() as int);
        let better = match prev {
            None => true,
            Some(p) => d < p.1,
        };
        if d <= budget && better {
            Some((upto, d))
        } else {
            prev
        }
    }
}

/// Where the closest match of `needle` ends in `hay`, within `budget` errors,
/// and how many errors it has.
pub fn approx_end(hay: &Vec<char>, needle: &Vec<char>, budget: usize) -> (r: Option<(usize, usize)>)
    requires
        hay@.len() < usize::MAX,
        needle@.len() < usize::MAX,
    ensures
        r matches Some(p) ==> best_end(hay@, needle@, budget as int, hay@.len() as int) == Some(
            (p.0 as int, p.1 as int),
        ),
        r is None ==> best_end(hay@, needle@, budget as int, hay@.len() as int) is None,
        match r {
            None => forall|k: int|
                1 <= k <= hay@.len() ==> #[trigger] match_cost(hay@, needle@, k, needle@.len() as int)
                    > budget,
            Some(p) => {
                &&& 1 <= p.0 <= hay@.len()
                &&& p.1 == match_cost(hay@, needle@, p.0 as int, needle@.len() as int)
                &&& p.1 <= budget
                &&& forall|k: int|
                    1 <= k <= hay@.len() ==> #[trigger] match_cost(
                        hay@,
                        needle@,
                        k,
                        needle@.len() as int,
                    ) >= p.1
                &&& forall|k: int|
                    1 <= k < p.0 ==> #[trigger] match_cost(hay@, needle@, k, needle@.len() as int)
                        > p.1
            },
        },
{
    let m = needle.len();
    let n = hay.len();
    let ghost hs = hay@;
    let ghost ns = needle@;
    let mut dp: Vec<usize> = Vec::new();
    let mut j: usize = 0;
    while j <= m
        invariant
            m == ns.len(),
            m < usize::MAX,
            j <= m + 1,
            dp@.len() == j,
            forall|jj: int| 0 <= jj < j ==> #[trigger] dp@[jj] == match_cost(hs, ns, 0, jj),
        decreases m + 1 - j,
    {
        dp.push(j);
        j = j + 1;
    }
    let mut best: Option<(usize, usize)> = None;
    let mut i: usize = 1;
    while i <= n
        invariant
            hs == hay@,
            ns == needle@,
            m == ns.len(),
            n == hs.len(),
            m < usize::MAX,
            n < usize::MAX,
            1 <= i <= n + 1,
            dp@.len() == m + 1,
            forall|jj: int| 0 <= jj <= m ==> #[trigger] dp@[jj] == match_cost(hs, ns, i - 1, jj),
            best matches Some(p) ==> best_end(hs, ns, budget as int, i - 1) == Some(
                (p.0 as int, p.1 as int),
            ),
            best is None ==> best_end(hs, ns, budget as int, i - 1) is None,
            match best {
                None => forall|k: int|
                    1 <= k < i ==> #[trigger] match_cost(hs, ns, k, m as int) > budget,
                Some(p) => {
                    &&& 1 <= p.0 < i
                    &&& p.1 == match_cost(hs, ns, p.0 as int, m as int)
                    &&& p.1 <= budget
                    &&& forall|k: int| 1 <= k < i ==> #[trigger] match_cost(hs, ns, k, m as int) >= p.1
                    &&& forall|k: int| 1 <= k < p.0 ==> #[trigger] match_cost(hs, ns, k, m as int) > p.1
                },
            },
        decreases n + 1 - i,
    {
        let mut diag = dp[0];
        dp.set(0, 0);
        let mut j: usize = 1;
        while j <= m
            invariant
                hs == hay@,
                ns == needle@,
                m == ns.len(),
                n == hs.len(),
                m < usize::MAX,
                n < usize::MAX,
                1 <= i <= n,
                1 <= j <= m + 1,
                dp@.len() == m + 1,
                diag == match_cost(hs, ns, i - 1, j - 1),
                forall|jj: int| 0 <= jj < j ==> #[trigger] dp@[jj] == match_cost(hs, ns, i as int, jj),
                forall|jj: int|
                    j <= jj <= m ==> #[trigger] dp@[jj] == match_cost(hs, ns, i - 1, jj),
            decreases m + 1 - j,
        {
            proof {
                lemma_match_cost_bound(hs, ns, i - 1, j as int);
                lemma_match_cost_bound(hs, ns, i - 1, j - 1);
                lemma_match_cost_bound(hs, ns, i as int, j - 1);
            }
            let up = dp[j];
            let cost: usize = if hay[i - 1] != needle[j - 1] {
                1
            } else {
                0
            };
            let a = diag + cost;
            let b = up + 1;
            let c = dp[j - 1] + 1;
            let v = if a <= b && a <= c {
                a
            } else if b <= c {
                b
            } else {
                c
            };
            dp.set(j, v);
            diag = up;
            j = j + 1;
        }
        let d = dp[m];
        let better = match best {
            None => true,
            Some((_, bd)) => d < bd,
        };
        if d <= budget && better {
            best = Some((i, d));
        }
        i = i + 1;
    }
    best
}

/// Whether `needle` occurs in `hay` starting at `k`.
pub open spec fn occurs_at(hay: Seq<char>, needle: Seq<char>, k: int) -> bool {
    0 <= k && k + needle.len() <= hay.len() && hay.subrange(k, k + needle.len()) == needle
}

/// The first place `needle` occurs in `hay`, if any.
pub open spec fn first_occurrence(hay: Seq<char>, needle: Seq<char>) -> Option<int> {
    if exists|k: int| occurs_at(hay, needle, k) {
        Some(choose|k: int| occurs_at(hay, needle, k) && forall|j: int| 0 <= j < k ==> !occurs_at(hay, needle, j))
    } else {
        None
    }
}

fn find_exact(hay: &Vec<char>, needle: &Vec<char>) -> (r: Option<usize>)
    ensures
        match r {
            Some(k) => occurs_at(hay@, needle@, k as int) && forall|j: int|
                0 <= j < k ==> !occurs_at(hay@, needle@, j),
            None => forall|k: int| !occurs_at(hay@, needle@, k),
        },
{
    let n = hay.len();
    let m = needle.len();
    if m > n {
        return None;
    }
    let mut k: usize = 0;
    while k <= n - m
        invariant
            n == hay@.len(),
            m == needle@.len(),
            m <= n,
            k <= n - m + 1,
            forall|j: int| 0 <= j < k ==> !occurs_at(hay@, needle@, j),
        decreases n - m + 1 - k,
    {
        let mut t: usize = 0;
        while t < m && hay[k + t] == needle[t]
            invariant
                n == hay@.len(),
                m == needle@.len(),
                k + m <= n,
                t <= m,
                forall|u: int| 0 <= u < t ==> hay@[k + u] == needle@[u],
            decreases m - t,
        {
            t = t + 1;
        }
        if t == m {
            proof {
                assert(hay@.subrange(k as int, k + m) == needle@);
            }
            return Some(k);
        }
        proof {
            assert(hay@[k + t] != needle@[t as int]);
            assert(hay@.subrange(k as int, k + m)[t as int] == hay@[k + t]);
        }
        k = k + 1;
    }
    None
}

/// The fuzzy span: where the closest match ends, and where it starts (found by
/// the same scan run backwards over both strings).
pub open spec fn fuzzy_span(hay: Seq<char>, needle: Seq<char>) -> Option<(int, int, int)> {
    let budget = edit_budget_spec(needle.len() as int);
    if budget == 0 || needle.len() > hay.len() + budget {
        None
    } else {
        match best_end(hay, needle, budget, hay.len() as int) {
            None => None,
            Some(e) => {
                let head = hay.take(e.0).reverse();
                match best_end(head, needle.reverse(), budget, head.len() as int) {
                    None => None,
                    Some(b) => Some((e.0 - b.0, e.0, e.1)),
                }
            },
        }
    }
}

/// Where `needle` is found in `hay`: the first exact occurrence with no
/// errors, otherwise the fuzzy span.
pub open spec fn find_fuzzy_spec(hay: Seq<char>, needle: Seq<char>) -> Option<(int, int, int)> {
    match first_occurrence(hay, needle) {
        Some(k) => Some((k, k + needle.len(), 0)),
        None => fuzzy_span(hay, needle),
    }
}

fn reversed(s: &Vec<char>, upto: usize) -> (r: Vec<char>)
    requires
        upto <= s@.len(),
    ensures
        r@ == s@.take(upto as int).reverse(),
{
    let mut r: Vec<char> = Vec::new();
    let mut i: usize = upto;
    while i > 0
        invariant
            i <= upto <= s@.len(),
            r@.len() == upto - i,
            forall|j: int| 0 <= j < upto - i ==> #[trigger] r@[j] == s@[upto - 1 - j],
        decreases i,
    {
        i = i - 1;
        r.push(s[i]);
    }
    proof {
        assert(r@ == s@.take(upto as int).reverse());
    }
    r
}

/// Locate `needle` in `hay`: the `[start, end)` character range of the match
/// and how many characters were wrong.
pub fn find_fuzzy(hay: &str, needle: &str) -> (r: Option<(usize, usize, usize)>)
    requires
        hay@.len() < usize::MAX,
        needle@.len() < usize::MAX,
    ensures
        match r {
            Some(t) => find_fuzzy_spec(hay@, needle@) == Some((t.0 as int, t.1 as int, t.2 as int)),
            None => find_fuzzy_spec(hay@, needle@) is None,
        },
{
    let h = chars_of(hay);
    let nd = chars_of(needle);
    match find_exact(&h, &nd) {
        Some(k) => {
            proof {
                let w = choose|j: int| occurs_at(hay@, needle@, j) && forall|i: int| 0 <= i < j ==> !occurs_at(hay@, needle@, i);
                assert(occurs_at(hay@, needle@, k as int));
                if w < k {
                } else if w > k {
                }
                assert(w == k);
            }
            return Some((k, k + nd.len(), 0));
        },
        None => {},
    }
    let budget = edit_budget(nd.len());
    if budget == 0 || nd.len() - budget > h.len() {
        return None;
    }
    let (end, dist) = match approx_end(&h, &nd, budget) {
        Some(p) => p,
        None => {
            return None;
        },
    };
    let head = reversed(&h, end);
    let tail = reversed(&nd, nd.len());
    proof {
        assert(nd@.take(nd@.len() as int) == nd@);
    }
    let back = match approx_end(&head, &tail, budget) {
        Some(p) => p.0,
        None => {
            return None;
        },
    };
    Some((end - back, end, dist))
}

// ── Lines and words ──────────────────────────────────────────────────────────

/// The words whose `[start, end)` character spans (among the first `upto`)
/// overlap the match `[start, end)`, by index, in order.
pub open spec fn covered_upto(offsets: Seq<(usize, usize)>, start: int, end: int, upto: int) -> Seq<
    usize,
>
    decreases upto,
{
    if upto <= 0 {
        Seq::empty()
    } else {
        let prev = covered_upto(offsets, start, end, upto - 1);
        let o = offsets[upto - 1];
        if o.0 < end && o.1 > start {
            prev.push((upto - 1) as usize)
        } else {
            prev
        }
    }
}

/// A word is among those a match covers exactly when its span overlaps the
/// match: it starts before the match ends and ends after the match starts.
/// The indices come in increasing order.
pub proof fn lemma_covered_is_overlap(offsets: Seq<(usize, usize)>, start: int, end: int, upto: int)
    requires
        0 <= upto <= offsets.len(),
        upto <= usize::MAX,
    ensures
        forall|i: int|
            0 <= i < upto ==> (covered_upto(offsets, start, end, upto).contains(i as usize) <==> (
            offsets[i].0 < end && offsets[i].1 > start)),
        forall|k: int|
            0 <= k < covered_upto(offsets, start, end, upto).len() ==> #[trigger] covered_upto(
                offsets,
                start,
                end,
                upto,
            )[k] < upto,
        forall|k: int, l: int|
            0 <= k < l < covered_upto(offsets, start, end, upto).len() ==> #[trigger] covered_upto(
                offsets,
                start,
                end,
                upto,
            )[k] < #[trigger] covered_upto(offsets, start, end, upto)[l],
    decreases upto,
{
    if upto > 0 {
        lemma_covered_is_overlap(offsets, start, end, upto - 1);
        let prev = covered_upto(offsets, start, end, upto - 1);
        let now = covered_upto(offsets, start, end, upto);
        assert forall|i: int|
            0 <= i < upto implies (now.contains(i as usize) <==> (offsets[i].0 < end && offsets[i].1
            > start)) by {
            if now.contains(i as usize) {
                let k = choose|k: int| 0 <= k < now.len() && now[k] == i as usize;
                if k < prev.len() {
                    assert(prev.contains(i as usize));
                }
            }
            if i < upto - 1 && prev.contains(i as usize) {
                let k = choose|k: int| 0 <= k < prev.len() && prev[k] == i as usize;
                assert(now[k] == i as usize);
            }
            if i == upto - 1 && offsets[i].0 < end && offsets[i].1 > start {
                assert(now[now.len() - 1] == i as usize);
            }
        }
    }
}

/// Which words a match covers: those whose span in the line's normalised
/// text overlaps `[start, end)`, by index.
pub fn covered(offsets: &[(usize, usize)], start: usize, end: usize) -> (r: Vec<usize>)
    ensures
        r@ == covered_upto(offsets@, start as int, end as int, offsets@.len() as int),
        forall|i: int|
            0 <= i < offsets@.len() ==> (r@.contains(i as usize) <==> (offsets@[i].0 < end
                && offsets@[i].1 > start)),
{
    let mut r: Vec<usize> = Vec::new();
    let mut i: usize = 0;
    while i < offsets.len()
        invariant
            i <= offsets@.len(),
            r@ == covered_upto(offsets@, start as int, end as int, i as int),
        decreases offsets@.len() - i,
    {
        let (ws, we) = offsets[i];
        if ws < end && we > start {
            r.push(i);
        }
        i = i + 1;
    }
    proof {
        lemma_covered_is_overlap(offsets@, start as int, end as int, offsets@.len() as int);
    }
    r
}

/// A line's text rebuilt from its words' normalised pieces, joined with single
/// spaces (empty pieces add nothing), with each word's `[start, end)` span in
/// it; an empty piece gets an empty span where the text stood.
pub open spec fn layout(pieces: Seq<Seq<char>>) -> (Seq<char>, Seq<(int, int)>)
    decreases pieces.len(),
{
    if pieces.len() == 0 {
        (Seq::empty(), Seq::empty())
    } else {
        let prev = layout(pieces.drop_last());
        let p = pieces.last();
        let t = prev.0;
        if p.len() == 0 {
            (t, prev.1.push((t.len() as int, t.len() as int)))
        } else {
            let sep = if t.len() > 0 {
                t.push(' ')
            } else {
                t
            };
            (sep + p, prev.1.push((sep.len() as int, (sep + p).len() as int)))
        }
    }
}

/// The text of a line and each word's span in it, from the words' normalised
/// pieces.
pub fn line_layout(pieces: &Vec<Vec<char>>) -> (r: (Vec<char>, Vec<(usize, usize)>))
    requires
        forall|i: int| 0 <= i < pieces@.len() ==> #[trigger] pieces@[i]@.len() < 0x1000_0000,
        pieces@.len() < 0x1000_0000,
    ensures
        r.0@ == layout(pieces@.map_values(|p: Vec<char>| p@)).0,
        r.1@.len() == pieces@.len(),
        forall|i: int|
            0 <= i < pieces@.len() ==> (#[trigger] r.1@[i]).0 == layout(
                pieces@.map_values(|p: Vec<char>| p@),
            ).1[i].0 && r.1@[i].1 == layout(pieces@.map_values(|p: Vec<char>| p@)).1[i].1,
{
    let ghost ps = pieces@.map_values(|p: Vec<char>| p@);
    let mut text: Vec<char> = Vec::new();
    let mut offsets: Vec<(usize, usize)> = Vec::new();
    let mut i: usize = 0;
    while i < pieces.len()
        invariant
            ps == pieces@.map_values(|p: Vec<char>| p@),
            pieces@.len() < 0x1000_0000,
            forall|k: int| 0 <= k < pieces@.len() ==> #[trigger] pieces@[k]@.len() < 0x1000_0000,
            i <= pieces@.len(),
            text@ == layout(ps.take(i as int)).0,
            text@.len() <= i * 0x1000_0001,
            offsets@.len() == i,
            layout(ps.take(i as int)).1.len() == i,
            forall|k: int|
                0 <= k < i ==> (#[trigger] offsets@[k]).0 == layout(ps.take(i as int)).1[k].0
                    && offsets@[k].1 == layout(ps.take(i as int)).1[k].1,
        decreases pieces@.len() - i,
    {
        proof {
            assert(ps.take(i as int + 1).drop_last() == ps.take(i as int));
            assert(ps.take(i as int + 1).last() == pieces@[i as int]@);
            assert((i + 1) * 0x1000_0001 == i * 0x1000_0001 + 0x1000_0001) by (nonlinear_arith);
            assert(i * 0x1000_0001 <= 0x1000_0000 * 0x1000_0001) by (nonlinear_arith)
                requires
                    i < 0x1000_0000,
            ;
        }
        let piece = &pieces[i];
        if piece.len() == 0 {
            let at = text.len();
            offsets.push((at, at));
        } else {
            if text.len() > 0 {
                text.push(' ');
            }
            let start = text.len();
            let mut j: usize = 0;
            let ghost before = text@;
            while j < piece.len()
                invariant
                    j <= piece@.len(),
                    text@ == before + piece@.take(j as int),
                decreases piece@.len() - j,
            {
                text.push(piece[j]);
                proof {
                    assert(piece@.take(j as int + 1) == piece@.take(j as int).push(piece@[j as int]));
                }
                j = j + 1;
            }
            proof {
                assert(piece@.take(j as int) == piece@);
            }
            offsets.push((start, text.len()));
        }
        proof {
            let prev = layout(ps.take(i as int));
            let cur = layout(ps.take(i as int + 1));
            assert(cur.1 == prev.1.push(cur.1.last()));
            assert forall|k: int| 0 <= k < i + 1 implies (#[trigger] offsets@[k]).0 == cur.1[k].0
                && offsets@[k].1 == cur.1[k].1 by {
                if k < i {
                    assert(cur.1[k] == prev.1[k]);
                }
            }
        }
        i = i + 1;
    }
    proof {
        assert(ps.take(i as int) == ps);
    }
    (text, offsets)
}

/// Texts joined with single spaces.
pub open spec fn join_spaced(texts: Seq<Seq<char>>) -> Seq<char>
    decreases texts.len(),
{
    if texts.len() == 0 {
        Seq::empty()
    } else if texts.len() == 1 {
        texts[0]
    } else {
        join_spaced(texts.drop_last()) + seq![' '] + texts.last()
    }
}

/// Every word read, joined with single spaces, the ends trimmed of whitespace.
pub fn read_text(words: &Vec<String>) -> (r: String)
    ensures
        r@ == trim_end(trim_start(join_spaced(words@.map_values(|w: String| w@)))),
{
    let ghost ws = words@.map_values(|w: String| w@);
    let mut joined: Vec<char> = Vec::new();
    let mut i: usize = 0;
    while i < words.len()
        invariant
            ws == words@.map_values(|w: String| w@),
            i <= words@.len(),
            joined@ == join_spaced(ws.take(i as int)),
        decreases words@.len() - i,
    {
        proof {
            assert(ws.take(i as int + 1).drop_last() == ws.take(i as int));
            if i == 0 {
                assert(ws.take(1)[0] == ws[0]);
            }
        }
        if i > 0 {
            joined.push(' ');
        }
        let w = chars_of(words[i].as_str());
        let mut j: usize = 0;
        let ghost before = joined@;
        while j < w.len()
            invariant
                j <= w@.len(),
                joined@ == before + w@.take(j as int),
            decreases w@.len() - j,
        {
            joined.push(w[j]);
            proof {
                assert(w@.take(j as int + 1) == w@.take(j as int).push(w@[j as int]));
            }
            j = j + 1;
        }
        proof {
            assert(w@.take(j as int) == w@);
            if i == 0 {
                assert(before == Seq::<char>::empty());
                assert(joined@ == w@);
            }
        }
        i = i + 1;
    }
    proof {
        assert(ws.take(i as int) == ws);
    }
    let mut lo: usize = 0;
    let n = joined.len();
    proof {
        assert(joined@.skip(0) == joined@);
    }
    while lo < n && is_whitespace(joined[lo])
        invariant
            lo <= n == joined@.len(),
            trim_start(joined@.skip(lo as int)) == trim_start(joined@),
        decreases n - lo,
    {
        proof {
            assert(joined@.skip(lo as int).drop_first() == joined@.skip(lo as int + 1));
        }
        lo = lo + 1;
    }
    proof {
        assert(joined@.skip(0) == joined@);
    }
    let mut hi: usize = n;
    while hi > lo && is_whitespace(joined[hi - 1])
        invariant
            lo <= hi <= n == joined@.len(),
            trim_end(joined@.subrange(lo as int, hi as int)) == trim_end(trim_start(joined@)),
        decreases hi,
    {
        proof {
            assert(joined@.subrange(lo as int, hi as int).drop_last() == joined@.subrange(
                lo as int,
                hi - 1,
            ));
        }
        hi = hi - 1;
    }
    let mut out: Vec<char> = Vec::new();
    let mut k: usize = lo;
    while k < hi
        invariant
            lo <= k <= hi <= joined@.len(),
            out@ == joined@.subrange(lo as int, k as int),
        decreases hi - k,
    {
        out.push(joined[k]);
        proof {
            assert(joined@.subrange(lo as int, k + 1) == joined@.subrange(lo as int, k as int).push(
                joined@[k as int],
            ));
        }
        k = k + 1;
    }
    string_of(&out)
}

} // verus!
