//! Character-level text helpers: ASCII case folding, comparison against
//! literals, and building owned strings from characters.

use vstd::prelude::*;

verus! {

/// `char::to_ascii_lowercase`: `A`-`Z` become `a`-`z`, everything else is kept.
pub open spec fn lower_char(c: char) -> char {
    if 'A' <= c <= 'Z' {
        ((c as u32) + 32) as char
    } else {
        c
    }
}

/// `char::to_ascii_uppercase`: `a`-`z` become `A`-`Z`, everything else is kept.
pub open spec fn upper_char(c: char) -> char {
    if 'a' <= c <= 'z' {
        ((c as u32) - 32) as char
    } else {
        c
    }
}

/// `str::to_ascii_lowercase`, character by character.
pub open spec fn ascii_lower(s: Seq<char>) -> Seq<char> {
    Seq::new(s.len(), |i: int| lower_char(s[i]))
}

pub open spec fn is_ascii_alpha(c: char) -> bool {
    ('a' <= c <= 'z') || ('A' <= c <= 'Z')
}

pub open spec fn is_ascii_digit(c: char) -> bool {
    '0' <= c <= '9'
}

/// `char::to_ascii_lowercase`.
pub fn to_lower(c: char) -> (r: char)
    ensures
        r == lower_char(c),
{
    if 'A' <= c && c <= 'Z' {
        ((c as u8) + 32) as char
    } else {
        c
    }
}

/// `char::to_ascii_uppercase`.
pub fn to_upper(c: char) -> (r: char)
    ensures
        r == upper_char(c),
{
    if 'a' <= c && c <= 'z' {
        ((c as u8) - 32) as char
    } else {
        c
    }
}

/// The characters of `s`, in order.
pub fn chars_of(s: &str) -> (v: Vec<char>)
    ensures
        v@ == s@,
{
    let n = s.unicode_len();
    let mut v: Vec<char> = Vec::new();
    let mut i: usize = 0;
    while i < n
        invariant
            n == s@.len(),
            i <= n,
            v@ == s@.take(i as int),
        decreases n - i,
    {
        let c = s.get_char(i);
        proof {
            assert(s@.take(i as int + 1) == s@.take(i as int).push(c));
        }
        v.push(c);
        i = i + 1;
    }
    proof {
        assert(s@.take(n as int) == s@);
    }
    v
}

/// `str::to_ascii_lowercase`, as characters.
pub fn lowercase(s: &str) -> (v: Vec<char>)
    ensures
        v@ == ascii_lower(s@),
{
    let n = s.unicode_len();
    let mut v: Vec<char> = Vec::new();
    let mut i: usize = 0;
    while i < n
        invariant
            n == s@.len(),
            i <= n,
            v@.len() == i,
            forall|j: int| 0 <= j < i ==> #[trigger] v@[j] == lower_char(s@[j]),
        decreases n - i,
    {
        let c = to_lower(s.get_char(i));
        v.push(c);
        i = i + 1;
    }
    proof {
        assert(v@ == ascii_lower(s@));
    }
    v
}

/// Whether the characters in `a` spell exactly `lit`.
pub fn same_text(a: &Vec<char>, lit: &str) -> (r: bool)
    ensures
        r == (a@ == lit@),
{
    let n = lit.unicode_len();
    if a.len() != n {
        return false;
    }
    let mut i: usize = 0;
    while i < n
        invariant
            n == lit@.len(),
            a@.len() == n,
            i <= n,
            forall|j: int| 0 <= j < i ==> #[trigger] a@[j] == lit@[j],
        decreases n - i,
    {
        if a[i] != lit.get_char(i) {
            return false;
        }
        i = i + 1;
    }
    proof {
        assert(a@ == lit@);
    }
    true
}

/// An owned string holding exactly the characters of `v`
/// (`String: FromIterator<&char>`).
#[verifier::external_body]
pub(crate) fn string_of(v: &Vec<char>) -> (s: String)
    ensures
        s@ == v@,
{
    v.iter().collect()
}

/// Appends the characters of `s` to `out`.
pub(crate) fn push_str(out: &mut Vec<char>, s: &str)
    ensures
        final(out)@ == old(out)@ + s@,
{
    let v = chars_of(s);
    let mut i: usize = 0;
    while i < v.len()
        invariant
            i <= v@.len(),
            v@ == s@,
            out@ == old(out)@ + v@.take(i as int),
        decreases v@.len() - i,
    {
        proof {
            assert(v@.take(i as int + 1) == v@.take(i as int).push(v@[i as int]));
        }
        out.push(v[i]);
        i = i + 1;
    }
    proof {
        assert(v@.take(i as int) == v@);
    }
}

// ── Ordering ────────────────────────────────────────────────────────────────

/// `a` sorts before `b` in the order of `str`'s `Ord`: character by character
/// by code point, a proper prefix first.
pub open spec fn text_less(a: Seq<char>, b: Seq<char>) -> bool
    decreases a.len(),
{
    if b.len() == 0 {
        false
    } else if a.len() == 0 {
        true
    } else if a[0] != b[0] {
        a[0] < b[0]
    } else {
        text_less(a.drop_first(), b.drop_first())
    }
}

/// No text sorts before itself.
pub proof fn lemma_text_less_irreflexive(a: Seq<char>)
    ensures
        !text_less(a, a),
    decreases a.len(),
{
    if a.len() > 0 {
        lemma_text_less_irreflexive(a.drop_first());
    }
}

/// Of two different texts one sorts before the other.
pub proof fn lemma_text_less_total(a: Seq<char>, b: Seq<char>)
    requires
        a != b,
    ensures
        text_less(a, b) || text_less(b, a),
    decreases a.len(),
{
    if a.len() > 0 && b.len() > 0 && a[0] == b[0] {
        if a.drop_first() == b.drop_first() {
            assert(a =~= seq![a[0]] + a.drop_first());
            assert(b =~= seq![b[0]] + b.drop_first());
        }
        lemma_text_less_total(a.drop_first(), b.drop_first());
    } else if a.len() == 0 && b.len() == 0 {
        assert(a =~= b);
    }
}

/// The order is transitive.
pub proof fn lemma_text_less_transitive(a: Seq<char>, b: Seq<char>, c: Seq<char>)
    requires
        text_less(a, b),
        text_less(b, c),
    ensures
        text_less(a, c),
    decreases a.len(),
{
    if a.len() > 0 && b.len() > 0 && c.len() > 0 && a[0] == b[0] && b[0] == c[0] {
        lemma_text_less_transitive(a.drop_first(), b.drop_first(), c.drop_first());
    }
}

/// `text_less(a, b)`: whether `a` sorts before `b`.
pub fn text_lt(a: &Vec<char>, b: &Vec<char>) -> (r: bool)
    ensures
        r == text_less(a@, b@),
{
    let mut i: usize = 0;
    proof {
        assert(a@.skip(0) == a@);
        assert(b@.skip(0) == b@);
    }
    while i < a.len() && i < b.len() && a[i] == b[i]
        invariant
            i <= a@.len(),
            i <= b@.len(),
            text_less(a@, b@) == text_less(a@.skip(i as int), b@.skip(i as int)),
        decreases a@.len() - i,
    {
        proof {
            assert(a@.skip(i as int).drop_first() == a@.skip(i as int + 1));
            assert(b@.skip(i as int).drop_first() == b@.skip(i as int + 1));
        }
        i = i + 1;
    }
    if i == b.len() {
        false
    } else if i == a.len() {
        true
    } else {
        a[i] < b[i]
    }
}

// ── Whitespace ──────────────────────────────────────────────────────────────

/// What `char::is_whitespace` answers for `c` (Unicode `White_Space`).
pub uninterp spec fn char_is_whitespace(c: char) -> bool;

/// `char::is_whitespace`: true for the Unicode `White_Space` characters, the
/// ASCII space among them.
#[verifier::external_body]
pub(crate) fn is_whitespace(c: char) -> (b: bool)
    ensures
        b == char_is_whitespace(c),
        c == ' ' ==> b,
{
    c.is_whitespace()
}

/// `s` without its leading whitespace (`str::trim_start`).
pub open spec fn trim_start(s: Seq<char>) -> Seq<char>
    decreases s.len(),
{
    if s.len() > 0 && char_is_whitespace(s[0]) {
        trim_start(s.drop_first())
    } else {
        s
    }
}

/// `s` without its trailing whitespace (`str::trim_end`).
pub open spec fn trim_end(s: Seq<char>) -> Seq<char>
    decreases s.len(),
{
    if s.len() > 0 && char_is_whitespace(s.last()) {
        trim_end(s.drop_last())
    } else {
        s
    }
}


/// `str::trim`: `v` without its leading and trailing whitespace.
pub fn trim_chars(v: &Vec<char>) -> (r: Vec<char>)
    ensures
        r@ == trim_end(trim_start(v@)),
{
    let n = v.len();
    let mut lo: usize = 0;
    proof {
        assert(v@.skip(0) == v@);
    }
    while lo < n && is_whitespace(v[lo])
        invariant
            lo <= n == v@.len(),
            trim_start(v@.skip(lo as int)) == trim_start(v@),
        decreases n - lo,
    {
        proof {
            assert(v@.skip(lo as int).drop_first() == v@.skip(lo as int + 1));
        }
        lo = lo + 1;
    }
    let mut hi: usize = n;
    proof {
        assert(v@.subrange(lo as int, n as int) == v@.skip(lo as int));
    }
    while hi > lo && is_whitespace(v[hi - 1])
        invariant
            lo <= hi <= n == v@.len(),
            trim_end(v@.subrange(lo as int, hi as int)) == trim_end(trim_start(v@)),
        decreases hi,
    {
        proof {
            assert(v@.subrange(lo as int, hi as int).drop_last() == v@.subrange(
                lo as int,
                hi as int - 1,
            ));
        }
        hi = hi - 1;
    }
    let mut r: Vec<char> = Vec::new();
    let mut k: usize = lo;
    while k < hi
        invariant
            lo <= k <= hi <= n == v@.len(),
            r@ == v@.subrange(lo as int, k as int),
        decreases hi - k,
    {
        r.push(v[k]);
        proof {
            assert(v@.subrange(lo as int, k as int + 1) == v@.subrange(lo as int, k as int).push(
                v@[k as int],
            ));
        }
        k = k + 1;
    }
    proof {
        // The loops stopped on non-whitespace ends, so nothing more is trimmed.
        let s = v@.subrange(lo as int, hi as int);
        if lo < hi {
            assert(s.last() == v@[hi as int - 1]);
            assert(s[0] == v@[lo as int]);
            assert(v@.skip(lo as int)[0] == v@[lo as int]);
        }
        assert(trim_start(v@) == trim_start(v@.skip(lo as int)));
    }
    r
}

// ── Numerals ────────────────────────────────────────────────────────────────

/// The digit for `d` in a numeral: `0`-`9`, then upper-case `A`-`Z`.
pub open spec fn numeral_char(d: int) -> char {
    if d < 10 {
        ((d + 0x30) as u32) as char
    } else {
        ((d - 10 + 0x41) as u32) as char
    }
}

/// `n` written in base `radix` without leading zeros, as `{}` and `{:X}` print
/// it (`"0"` for zero).
pub open spec fn numeral(n: nat, radix: nat) -> Seq<char>
    decreases n,
{
    if radix < 2 {
        Seq::empty()
    } else if n < radix {
        seq![numeral_char(n as int)]
    } else {
        proof {
            vstd::arithmetic::div_mod::lemma_div_decreases(n as int, radix as int);
        }
        numeral((n / radix) as nat, radix).push(numeral_char((n % radix) as int))
    }
}

/// What `char::to_digit(radix)` gives: `0`-`9`, then `a`-`z` or `A`-`Z` from
/// ten, when below `radix`.
pub open spec fn digit_value(c: char, radix: nat) -> Option<nat> {
    let v: int = if '0' <= c <= '9' {
        c as int - 0x30
    } else if 'a' <= c <= 'z' {
        c as int - 0x61 + 10
    } else if 'A' <= c <= 'Z' {
        c as int - 0x41 + 10
    } else {
        radix as int
    };
    if v < radix {
        Some(v as nat)
    } else {
        None
    }
}

/// Every character of `s` is a digit in base `radix`.
pub open spec fn all_digits(s: Seq<char>, radix: nat) -> bool {
    forall|i: int| 0 <= i < s.len() ==> (#[trigger] digit_value(s[i], radix)) is Some
}

/// The number the digits `s` spell in base `radix`.
pub open spec fn numeral_value(s: Seq<char>, radix: nat) -> int
    decreases s.len(),
{
    if s.len() == 0 {
        0
    } else {
        numeral_value(s.drop_last(), radix) * radix + digit_value(s.last(), radix).unwrap()
    }
}

/// What `from_str_radix` (and `str::parse`) gives for an unsigned type whose
/// largest value is `max`: an optional `+`, then at least one digit, and a
/// value that fits.
pub open spec fn parse_unsigned(s: Seq<char>, radix: nat, max: int) -> Option<int> {
    let body = if s.len() > 0 && s[0] == '+' {
        s.drop_first()
    } else {
        s
    };
    if body.len() > 0 && all_digits(body, radix) && numeral_value(body, radix) <= max {
        Some(numeral_value(body, radix))
    } else {
        None
    }
}

proof fn lemma_numeral_value_grows(s: Seq<char>, radix: nat, k: int)
    requires
        radix >= 1,
        0 <= k <= s.len(),
        all_digits(s, radix),
    ensures
        0 <= numeral_value(s.take(k), radix) <= numeral_value(s, radix),
    decreases s.len() - k,
{
    assert(all_digits(s.take(k), radix)) by {
        assert forall|i: int| 0 <= i < k implies (#[trigger] digit_value(s.take(k)[i], radix)) is Some by {
            assert(s.take(k)[i] == s[i]);
        }
    }
    lemma_numeral_value_nonneg(s.take(k), radix);
    if k < s.len() {
        lemma_numeral_value_grows(s, radix, k + 1);
        let t = s.take(k + 1);
        assert(t.drop_last() == s.take(k));
        assert(t.last() == s[k]);
        assert(digit_value(s[k], radix) is Some);
        let a = numeral_value(s.take(k), radix);
        assert(numeral_value(t, radix) == a * radix + digit_value(s[k], radix).unwrap());
        assert(a * radix >= a) by (nonlinear_arith)
            requires
                a >= 0,
                radix >= 1,
        ;
    } else {
        assert(s.take(k) == s);
    }
}

proof fn lemma_numeral_value_nonneg(s: Seq<char>, radix: nat)
    requires
        all_digits(s, radix),
    ensures
        numeral_value(s, radix) >= 0,
    decreases s.len(),
{
    if s.len() > 0 {
        lemma_numeral_value_nonneg(s.drop_last(), radix);
        assert(digit_value(s[s.len() - 1], radix) is Some);
        let a = numeral_value(s.drop_last(), radix);
        assert(a * radix >= 0) by (nonlinear_arith)
            requires
                a >= 0,
        ;
    }
}

/// A numeral is a non-empty run of digits of its base that spells its number.
pub proof fn lemma_numeral_round_trip(n: nat, radix: nat)
    requires
        2 <= radix <= 36,
    ensures
        numeral(n, radix).len() > 0,
        all_digits(numeral(n, radix), radix),
        numeral_value(numeral(n, radix), radix) == n,
        forall|i: int|
            0 <= i < numeral(n, radix).len() ==> {
                let c = #[trigger] numeral(n, radix)[i];
                ('0' <= c <= '9') || ('A' <= c <= 'Z')
            },
    decreases n,
{
    let s = numeral(n, radix);
    if n < radix {
        assert(s == seq![numeral_char(n as int)]);
        assert(digit_value(s[0], radix) == Some(n));
        assert(s.drop_last() == Seq::<char>::empty());
        assert(s.last() == s[0]);
        assert(numeral_value(Seq::<char>::empty(), radix) == 0);
        assert(numeral_value(s, radix) == numeral_value(s.drop_last(), radix) * radix + n);
    } else {
        vstd::arithmetic::div_mod::lemma_div_decreases(n as int, radix as int);
        let q = (n / radix) as nat;
        let d = (n % radix) as nat;
        lemma_numeral_round_trip(q, radix);
        let p = numeral(q, radix);
        assert(s == p.push(numeral_char(d as int)));
        assert(s.drop_last() == p);
        assert(s.last() == numeral_char(d as int));
        assert(digit_value(numeral_char(d as int), radix) == Some(d));
        assert(numeral_value(s, radix) == numeral_value(p, radix) * radix + d);
        assert(n == q * radix + d) by (nonlinear_arith)
            requires
                q == n / radix,
                d == n % radix,
                radix > 0,
        ;
        assert forall|i: int| 0 <= i < s.len() implies (#[trigger] digit_value(s[i], radix)) is Some by {
            if i < p.len() {
                assert(s[i] == p[i]);
            }
        }
        assert forall|i: int| 0 <= i < s.len() implies {
            let c = #[trigger] s[i];
            ('0' <= c <= '9') || ('A' <= c <= 'Z')
        } by {
            if i < p.len() {
                assert(s[i] == p[i]);
            }
        }
    }
}

fn push_numeral(n: u64, radix: u64, out: &mut Vec<char>)
    requires
        2 <= radix <= 36,
    ensures
        final(out)@ == old(out)@ + numeral(n as nat, radix as nat),
    decreases n,
{
    if n >= radix {
        proof {
            vstd::arithmetic::div_mod::lemma_div_decreases(n as int, radix as int);
        }
        push_numeral(n / radix, radix, out);
    }
    let d = n % radix;
    let c = if d < 10 {
        ((d + 0x30) as u8) as char
    } else {
        ((d - 10 + 0x41) as u8) as char
    };
    proof {
        assert(c == numeral_char(d as int));
    }
    let ghost before = out@;
    out.push(c);
    proof {
        if n >= radix {
            assert(out@ == old(out)@ + numeral((n / radix) as nat, radix as nat).push(c));
        } else {
            vstd::arithmetic::div_mod::lemma_small_mod(n as nat, radix as nat);
        }
    }
}

/// `n` in base `radix` (`format!("{n}")` for ten, `format!("{n:X}")` for
/// sixteen).
pub fn numeral_chars(n: u64, radix: u64) -> (v: Vec<char>)
    requires
        2 <= radix <= 36,
    ensures
        v@ == numeral(n as nat, radix as nat),
{
    let mut v: Vec<char> = Vec::new();
    push_numeral(n, radix, &mut v);
    proof {
        assert(v@ == Seq::<char>::empty() + numeral(n as nat, radix as nat));
    }
    v
}

/// Appends `n` in decimal to `out`.
pub(crate) fn push_decimal(out: &mut Vec<char>, n: u64)
    ensures
        final(out)@ == old(out)@ + numeral(n as nat, 10),
{
    push_numeral(n, 10, out);
}

/// `char::to_digit(radix)`.
pub fn to_digit(c: char, radix: u64) -> (r: Option<u64>)
    requires
        2 <= radix <= 36,
    ensures
        match digit_value(c, radix as nat) {
            Some(d) => r == Some(d as u64),
            None => r is None,
        },
{
    let v: u64 = if '0' <= c && c <= '9' {
        (c as u64) - 0x30
    } else if 'a' <= c && c <= 'z' {
        (c as u64) - 0x61 + 10
    } else if 'A' <= c && c <= 'Z' {
        (c as u64) - 0x41 + 10
    } else {
        radix
    };
    if v < radix {
        Some(v)
    } else {
        None
    }
}

/// `from_str_radix` on `s[start..end]` for an unsigned type whose largest value
/// is `max`.
pub fn parse_unsigned_chars(s: &Vec<char>, start: usize, end: usize, radix: u64, max: u64) -> (r:
    Option<u64>)
    requires
        start <= end <= s@.len(),
        2 <= radix <= 36,
    ensures
        match parse_unsigned(s@.subrange(start as int, end as int), radix as nat, max as int) {
            Some(v) => 0 <= v <= max && r == Some(v as u64),
            None => r is None,
        },
{
    let ghost whole = s@.subrange(start as int, end as int);
    let mut i = start;
    if i < end && s[i] == '+' {
        i = i + 1;
    }
    let ghost body = s@.subrange(i as int, end as int);
    proof {
        if start < end {
            assert(whole[0] == s@[start as int]);
        }
        if start < end && s@[start as int] == '+' {
            assert(whole.drop_first() == body);
        } else {
            assert(whole == body);
        }
    }
    if i == end {
        return None;
    }
    let first = i;
    let mut value: u64 = 0;
    while i < end
        invariant
            start <= first <= i <= end <= s@.len(),
            2 <= radix <= 36,
            body == s@.subrange(first as int, end as int),
            body.len() > 0,
            whole == s@.subrange(start as int, end as int),
            whole.len() > 0 && whole[0] == '+' ==> body == whole.drop_first(),
            !(whole.len() > 0 && whole[0] == '+') ==> body == whole,
            all_digits(body.take(i - first), radix as nat),
            value as int == numeral_value(body.take(i - first), radix as nat),
            value <= max,
        decreases end - i,
    {
        let ghost k: int = i - first;
        proof {
            assert(body.take(k + 1).drop_last() == body.take(k));
            assert(body.take(k + 1).last() == body[k]);
            assert(body[k] == s@[i as int]);
        }
        match to_digit(s[i], radix) {
            None => {
                proof {
                    assert(!all_digits(body, radix as nat)) by {
                        assert(digit_value(body[k], radix as nat) is None);
                    }
                }
                return None;
            },
            Some(d) => {
                proof {
                    assert forall|j: int| 0 <= j < k + 1 implies (#[trigger] digit_value(
                        body.take(k + 1)[j],
                        radix as nat,
                    )) is Some by {
                        if j < k {
                            assert(body.take(k + 1)[j] == body.take(k)[j]);
                        }
                    }
                }
                let next = match value.checked_mul(radix) {
                    Some(m) => m.checked_add(d),
                    None => None,
                };
                match next {
                    Some(nv) if nv <= max => {
                        value = nv;
                    },
                    _ => {
                        proof {
                            if all_digits(body, radix as nat) {
                                lemma_numeral_value_grows(body, radix as nat, k + 1);
                            }
                        }
                        return None;
                    },
                }
            },
        }
        i = i + 1;
    }
    proof {
        assert(body.take(i - first) == body);
    }
    Some(value)
}

} // verus!
