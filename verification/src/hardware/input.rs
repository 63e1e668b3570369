//! Input simulation: what a mouse or keyboard action sends through
//! `SendInput`, the virtual-key names recorded macros use, and the
//! absolute-coordinate normalisation of the virtual desktop.
//!
//! The controller describes each action as a list of [`Injection`]s; the
//! platform layer turns each into the matching `INPUT` record (an absolute
//! move also places the cursor) and sends them in order.

use vstd::prelude::*;
use crate::arith::{clamp_spec, div_round_half_even, round_half_even};
use crate::text::{
    ascii_lower, chars_of, is_ascii_alpha, is_ascii_digit, lowercase, same_text, to_upper,
    upper_char,
};

verus! {

/// `MOUSEEVENTF_LEFTDOWN`.
pub const MOUSEEVENTF_LEFTDOWN: u32 = 0x0002;
/// `MOUSEEVENTF_LEFTUP`.
pub const MOUSEEVENTF_LEFTUP: u32 = 0x0004;
/// `MOUSEEVENTF_RIGHTDOWN`.
pub const MOUSEEVENTF_RIGHTDOWN: u32 = 0x0008;
/// `MOUSEEVENTF_RIGHTUP`.
pub const MOUSEEVENTF_RIGHTUP: u32 = 0x0010;
/// `MOUSEEVENTF_MIDDLEDOWN`.
pub const MOUSEEVENTF_MIDDLEDOWN: u32 = 0x0020;
/// `MOUSEEVENTF_MIDDLEUP`.
pub const MOUSEEVENTF_MIDDLEUP: u32 = 0x0040;

// ── Absolute coordinates ─────────────────────────────────────────────────────

/// One axis of the absolute mapping: `(v - origin) * 65535 / max(extent - 1, 1)`
/// rounded half to even, clamped into `[0, 65535]`.
pub open spec fn absolute_axis(v: int, origin: int, extent: int) -> int {
    let d = if extent - 1 > 1 {
        extent - 1
    } else {
        1
    };
    clamp_spec(round_half_even((v - origin) * 65535, d), 0, 65535)
}

proof fn lemma_round_negative(n: int, d: int)
    requires
        n < 0,
        d >= 1,
    ensures
        round_half_even(n, d) <= 0,
{
    vstd::arithmetic::div_mod::lemma_fundamental_div_mod(n, d);
    vstd::arithmetic::div_mod::lemma_mod_bound(n, d);
    assert(n / d < 0) by (nonlinear_arith)
        requires
            n == d * (n / d) + n % d,
            0 <= n % d < d,
            n < 0,
            d >= 1,
    ;
}

fn absolute_axis_exec(v: i32, origin: i32, extent: i32) -> (a: i32)
    requires
        extent > i32::MIN,
        i32::MIN <= v - origin <= i32::MAX,
    ensures
        a == absolute_axis(v as int, origin as int, extent as int),
{
    let d: i64 = if extent - 1 > 1 {
        (extent - 1) as i64
    } else {
        1
    };
    let n: i64 = (v - origin) as i64 * 65535;
    if n < 0 {
        proof {
            lemma_round_negative(n as int, d as int);
        }
        return 0;
    }
    let r = div_round_half_even(n, d);
    if r > 65535 {
        65535
    } else {
        r as i32
    }
}

/// Screen pixels to `SendInput` absolute coordinates (0..=65535 across the
/// virtual desktop with origin `(ox, oy)` and size `w` by `h`): rounded half to
/// even, clamped at the edges.
pub fn to_absolute(x: i32, y: i32, ox: i32, oy: i32, w: i32, h: i32) -> (a: (i32, i32))
    requires
        w > i32::MIN,
        h > i32::MIN,
        i32::MIN <= x - ox <= i32::MAX,
        i32::MIN <= y - oy <= i32::MAX,
    ensures
        a.0 == absolute_axis(x as int, ox as int, w as int),
        a.1 == absolute_axis(y as int, oy as int, h as int),
{
    (absolute_axis_exec(x, ox, w), absolute_axis_exec(y, oy, h))
}

// ── Buttons ──────────────────────────────────────────────────────────────────

/// The `SendInput` flag for pressing (`down`) or releasing a button, by name,
/// ignoring ASCII case; anything unrecognised is the left button.
pub open spec fn button_flags_spec(button: Seq<char>, down: bool) -> u32 {
    let k = ascii_lower(button);
    if k == "right"@ || k == "secondary"@ {
        if down {
            MOUSEEVENTF_RIGHTDOWN
        } else {
            MOUSEEVENTF_RIGHTUP
        }
    } else if k == "middle"@ || k == "center"@ {
        if down {
            MOUSEEVENTF_MIDDLEDOWN
        } else {
            MOUSEEVENTF_MIDDLEUP
        }
    } else if down {
        MOUSEEVENTF_LEFTDOWN
    } else {
        MOUSEEVENTF_LEFTUP
    }
}

/// The `SendInput` flag for pressing (`down`) or releasing `button`.
pub fn button_flags(button: &str, down: bool) -> (f: u32)
    ensures
        f == button_flags_spec(button@, down),
{
    let k = lowercase(button);
    if same_text(&k, "right") || same_text(&k, "secondary") {
        if down {
            MOUSEEVENTF_RIGHTDOWN
        } else {
            MOUSEEVENTF_RIGHTUP
        }
    } else if same_text(&k, "middle") || same_text(&k, "center") {
        if down {
            MOUSEEVENTF_MIDDLEDOWN
        } else {
            MOUSEEVENTF_MIDDLEUP
        }
    } else if down {
        MOUSEEVENTF_LEFTDOWN
    } else {
        MOUSEEVENTF_LEFTUP
    }
}

// ── Virtual keys ─────────────────────────────────────────────────────────────

/// Named keys to virtual-key codes. Letters and digits are not listed: a single
/// character resolves on its own. The OEM punctuation entries are the US
/// layout's.
pub open spec fn vk_spec(k: Seq<char>) -> Option<u16> {
    if k == "backspace"@ {
        Some(0x08u16)
    } else if k == "tab"@ {
        Some(0x09u16)
    } else if k == "enter"@ || k == "return"@ {
        Some(0x0Du16)
    } else if k == "shift"@ {
        Some(0x10u16)
    } else if k == "ctrl"@ || k == "control"@ {
        Some(0x11u16)
    } else if k == "alt"@ {
        Some(0x12u16)
    } else if k == "pause"@ {
        Some(0x13u16)
    } else if k == "caps_lock"@ {
        Some(0x14u16)
    } else if k == "escape"@ || k == "esc"@ {
        Some(0x1Bu16)
    } else if k == "space"@ {
        Some(0x20u16)
    } else if k == "page_up"@ {
        Some(0x21u16)
    } else if k == "page_down"@ {
        Some(0x22u16)
    } else if k == "end"@ {
        Some(0x23u16)
    } else if k == "home"@ {
        Some(0x24u16)
    } else if k == "left"@ {
        Some(0x25u16)
    } else if k == "up"@ {
        Some(0x26u16)
    } else if k == "right"@ {
        Some(0x27u16)
    } else if k == "down"@ {
        Some(0x28u16)
    } else if k == "print_screen"@ {
        Some(0x2Cu16)
    } else if k == "insert"@ {
        Some(0x2Du16)
    } else if k == "delete"@ {
        Some(0x2Eu16)
    } else if k == "cmd"@ || k == "cmd_l"@ || k == "win"@ {
        Some(0x5Bu16)
    } else if k == "cmd_r"@ {
        Some(0x5Cu16)
    } else if k == "shift_l"@ {
        Some(0xA0u16)
    } else if k == "shift_r"@ {
        Some(0xA1u16)
    } else if k == "ctrl_l"@ {
        Some(0xA2u16)
    } else if k == "ctrl_r"@ {
        Some(0xA3u16)
    } else if k == "alt_l"@ {
        Some(0xA4u16)
    } else if k == "alt_r"@ {
        Some(0xA5u16)
    } else if k == "f1"@ {
        Some(0x70u16)
    } else if k == "f2"@ {
        Some(0x71u16)
    } else if k == "f3"@ {
        Some(0x72u16)
    } else if k == "f4"@ {
        Some(0x73u16)
    } else if k == "f5"@ {
        Some(0x74u16)
    } else if k == "f6"@ {
        Some(0x75u16)
    } else if k == "f7"@ {
        Some(0x76u16)
    } else if k == "f8"@ {
        Some(0x77u16)
    } else if k == "f9"@ {
        Some(0x78u16)
    } else if k == "f10"@ {
        Some(0x79u16)
    } else if k == "f11"@ {
        Some(0x7Au16)
    } else if k == "f12"@ {
        Some(0x7Bu16)
    } else if k == ";"@ {
        Some(0xBAu16)
    } else if k == "="@ {
        Some(0xBBu16)
    } else if k == ","@ {
        Some(0xBCu16)
    } else if k == "-"@ {
        Some(0xBDu16)
    } else if k == "."@ {
        Some(0xBEu16)
    } else if k == "/"@ {
        Some(0xBFu16)
    } else if k == "`"@ {
        Some(0xC0u16)
    } else if k == "["@ {
        Some(0xDBu16)
    } else if k == "\\"@ {
        Some(0xDCu16)
    } else if k == "]"@ {
        Some(0xDDu16)
    } else if k == "'"@ {
        Some(0xDEu16)
    } else {
        None
    }
}

/// The virtual-key code of a named key.
pub fn vk_lookup(k: &Vec<char>) -> (r: Option<u16>)
    ensures
        r == vk_spec(k@),
{
    if same_text(k, "backspace") {
        Some(0x08)
    } else if same_text(k, "tab") {
        Some(0x09)
    } else if same_text(k, "enter") || same_text(k, "return") {
        Some(0x0D)
    } else if same_text(k, "shift") {
        Some(0x10)
    } else if same_text(k, "ctrl") || same_text(k, "control") {
        Some(0x11)
    } else if same_text(k, "alt") {
        Some(0x12)
    } else if same_text(k, "pause") {
        Some(0x13)
    } else if same_text(k, "caps_lock") {
        Some(0x14)
    } else if same_text(k, "escape") || same_text(k, "esc") {
        Some(0x1B)
    } else if same_text(k, "space") {
        Some(0x20)
    } else if same_text(k, "page_up") {
        Some(0x21)
    } else if same_text(k, "page_down") {
        Some(0x22)
    } else if same_text(k, "end") {
        Some(0x23)
    } else if same_text(k, "home") {
        Some(0x24)
    } else if same_text(k, "left") {
        Some(0x25)
    } else if same_text(k, "up") {
        Some(0x26)
    } else if same_text(k, "right") {
        Some(0x27)
    } else if same_text(k, "down") {
        Some(0x28)
    } else if same_text(k, "print_screen") {
        Some(0x2C)
    } else if same_text(k, "insert") {
        Some(0x2D)
    } else if same_text(k, "delete") {
        Some(0x2E)
    } else if same_text(k, "cmd") || same_text(k, "cmd_l") || same_text(k, "win") {
        Some(0x5B)
    } else if same_text(k, "cmd_r") {
        Some(0x5C)
    } else if same_text(k, "shift_l") {
        Some(0xA0)
    } else if same_text(k, "shift_r") {
        Some(0xA1)
    } else if same_text(k, "ctrl_l") {
        Some(0xA2)
    } else if same_text(k, "ctrl_r") {
        Some(0xA3)
    } else if same_text(k, "alt_l") {
        Some(0xA4)
    } else if same_text(k, "alt_r") {
        Some(0xA5)
    } else if same_text(k, "f1") {
        Some(0x70)
    } else if same_text(k, "f2") {
        Some(0x71)
    } else if same_text(k, "f3") {
        Some(0x72)
    } else if same_text(k, "f4") {
        Some(0x73)
    } else if same_text(k, "f5") {
        Some(0x74)
    } else if same_text(k, "f6") {
        Some(0x75)
    } else if same_text(k, "f7") {
        Some(0x76)
    } else if same_text(k, "f8") {
        Some(0x77)
    } else if same_text(k, "f9") {
        Some(0x78)
    } else if same_text(k, "f10") {
        Some(0x79)
    } else if same_text(k, "f11") {
        Some(0x7A)
    } else if same_text(k, "f12") {
        Some(0x7B)
    } else if same_text(k, ";") {
        Some(0xBA)
    } else if same_text(k, "=") {
        Some(0xBB)
    } else if same_text(k, ",") {
        Some(0xBC)
    } else if same_text(k, "-") {
        Some(0xBD)
    } else if same_text(k, ".") {
        Some(0xBE)
    } else if same_text(k, "/") {
        Some(0xBF)
    } else if same_text(k, "`") {
        Some(0xC0)
    } else if same_text(k, "[") {
        Some(0xDB)
    } else if same_text(k, "\\") {
        Some(0xDC)
    } else if same_text(k, "]") {
        Some(0xDD)
    } else if same_text(k, "'") {
        Some(0xDE)
    } else {
        None
    }
}

/// `k` with every occurrence of `key.` taken out, scanning left to right.
pub open spec fn strip_key_prefix(k: Seq<char>) -> Seq<char>
    decreases k.len(),
{
    if k.len() == 0 {
        k
    } else if k.len() >= 4 && k[0] == 'k' && k[1] == 'e' && k[2] == 'y' && k[3] == '.' {
        strip_key_prefix(k.skip(4))
    } else {
        seq![k[0]] + strip_key_prefix(k.skip(1))
    }
}

fn strip_key_prefix_exec(k: &Vec<char>) -> (out: Vec<char>)
    ensures
        out@ == strip_key_prefix(k@),
{
    let n = k.len();
    let mut out: Vec<char> = Vec::new();
    let mut i: usize = 0;
    proof {
        assert(k@.skip(0) == k@);
        assert(out@ + strip_key_prefix(k@) == strip_key_prefix(k@));
    }
    while i < n
        invariant
            n == k@.len(),
            i <= n,
            out@ + strip_key_prefix(k@.skip(i as int)) == strip_key_prefix(k@),
        decreases n - i,
    {
        let ghost rest = k@.skip(i as int);
        if n - i >= 4 && k[i] == 'k' && k[i + 1] == 'e' && k[i + 2] == 'y' && k[i + 3] == '.' {
            proof {
                assert(rest.skip(4) == k@.skip(i + 4));
            }
            i = i + 4;
        } else {
            proof {
                assert(rest.skip(1) == k@.skip(i + 1));
                assert(out@.push(k@[i as int]) + strip_key_prefix(k@.skip(i + 1)) == out@ + (seq![
                    k@[i as int],
                ] + strip_key_prefix(k@.skip(i + 1))));
            }
            out.push(k[i]);
            i = i + 1;
        }
    }
    proof {
        assert(k@.skip(n as int).len() == 0);
        assert(out@ + strip_key_prefix(k@.skip(n as int)) == out@);
    }
    out
}

/// The virtual key a recorded key string stands for: a named key first
/// (ignoring ASCII case), then a single letter (its upper-case code) or digit
/// (its own code), then a `Key.`-prefixed name.
pub open spec fn resolve_vk_spec(key: Seq<char>) -> Option<u16> {
    if key.len() == 0 {
        None
    } else {
        let k = ascii_lower(key);
        if vk_spec(k) is Some {
            vk_spec(k)
        } else if k.len() == 1 {
            if is_ascii_alpha(k[0]) {
                Some(upper_char(k[0]) as u16)
            } else if is_ascii_digit(k[0]) {
                Some(k[0] as u16)
            } else {
                None
            }
        } else {
            vk_spec(strip_key_prefix(k))
        }
    }
}

/// Resolve a recorded key string to a virtual-key code; `None` for a key this
/// layer cannot press.
pub fn resolve_vk(key: &str) -> (r: Option<u16>)
    ensures
        r == resolve_vk_spec(key@),
{
    let n = key.unicode_len();
    if n == 0 {
        return None;
    }
    let k = lowercase(key);
    let hit = vk_lookup(&k);
    if hit.is_some() {
        return hit;
    }
    if k.len() == 1 {
        let ch = k[0];
        if ('a' <= ch && ch <= 'z') || ('A' <= ch && ch <= 'Z') {
            return Some(to_upper(ch) as u16);
        } else if '0' <= ch && ch <= '9' {
            return Some(ch as u16);
        } else {
            return None;
        }
    }
    let stripped = strip_key_prefix_exec(&k);
    vk_lookup(&stripped)
}

// ── The controller ───────────────────────────────────────────────────────────

/// One record handed to `SendInput`, in order.
#[derive(Debug, Clone, Copy, PartialEq, Eq, Structural)]
pub enum Injection {
    /// Move the cursor to the screen pixel `(x, y)`: an absolute move over the
    /// virtual desktop, then the cursor placed there.
    MoveTo { x: i32, y: i32 },
    /// A mouse button event with these `MOUSEEVENTF_*` flags.
    Button { flags: u32 },
    /// A key press (`up == false`) or release of a virtual key, sent by scan
    /// code.
    Key { vk: u16, up: bool },
}

/// The move that comes first when an action carries a position.
pub open spec fn move_first(pos: Option<(i32, i32)>) -> Seq<Injection> {
    match pos {
        Some(p) => seq![Injection::MoveTo { x: p.0, y: p.1 }],
        None => Seq::empty(),
    }
}

/// The press or release of `key`, or nothing when it does not resolve.
pub open spec fn key_event(key: Seq<char>, up: bool) -> Seq<Injection> {
    match resolve_vk_spec(key) {
        Some(vk) => seq![Injection::Key { vk, up }],
        None => Seq::empty(),
    }
}

/// Mouse and keyboard actions with no artificial delay between the records.
pub struct InputController;

impl InputController {
    pub fn new() -> (c: InputController) {
        InputController
    }

    fn key_injections(&self, key: &str, up: bool) -> (v: Vec<Injection>)
        ensures
            v@ == key_event(key@, up),
    {
        let mut v: Vec<Injection> = Vec::new();
        if let Some(vk) = resolve_vk(key) {
            v.push(Injection::Key { vk, up });
        }
        proof {
            assert(v@ == key_event(key@, up));
        }
        v
    }

    fn with_move(pos: Option<(i32, i32)>, flags: u32) -> (v: Vec<Injection>)
        ensures
            v@ == move_first(pos) + seq![Injection::Button { flags }],
    {
        let mut v: Vec<Injection> = Vec::new();
        if let Some((x, y)) = pos {
            v.push(Injection::MoveTo { x, y });
        }
        v.push(Injection::Button { flags });
        proof {
            assert(v@ == move_first(pos) + seq![Injection::Button { flags }]);
        }
        v
    }

    /// Press `button`, first moving to `pos` when given.
    pub fn mouse_down(&self, pos: Option<(i32, i32)>, button: &str) -> (v: Vec<Injection>)
        ensures
            v@ == move_first(pos) + seq![Injection::Button { flags: button_flags_spec(button@, true) }],
    {
        Self::with_move(pos, button_flags(button, true))
    }

    /// Release `button`, first moving to `pos` when given.
    pub fn mouse_up(&self, pos: Option<(i32, i32)>, button: &str) -> (v: Vec<Injection>)
        ensures
            v@ == move_first(pos) + seq![Injection::Button { flags: button_flags_spec(button@, false) }],
    {
        Self::with_move(pos, button_flags(button, false))
    }

    /// Move to `(x, y)`, then press and release `button` in one send.
    pub fn click(&self, x: i32, y: i32, button: &str) -> (v: Vec<Injection>)
        ensures
            v@ == seq![
                Injection::MoveTo { x, y },
                Injection::Button { flags: button_flags_spec(button@, true) },
                Injection::Button { flags: button_flags_spec(button@, false) },
            ],
    {
        let mut v: Vec<Injection> = Vec::new();
        v.push(Injection::MoveTo { x, y });
        v.push(Injection::Button { flags: button_flags(button, true) });
        v.push(Injection::Button { flags: button_flags(button, false) });
        v
    }

    /// Press and release `key`; nothing for a key that does not resolve.
    pub fn key_press(&self, key: &str) -> (v: Vec<Injection>)
        ensures
            v@ == key_event(key@, false) + key_event(key@, true),
    {
        let mut v = self.key_injections(key, false);
        let mut up = self.key_injections(key, true);
        v.append(&mut up);
        v
    }

    /// Press `key`; nothing for a key that does not resolve.
    pub fn key_down(&self, key: &str) -> (v: Vec<Injection>)
        ensures
            v@ == key_event(key@, false),
    {
        self.key_injections(key, false)
    }

    /// Release `key`; nothing for a key that does not resolve.
    pub fn key_up(&self, key: &str) -> (v: Vec<Injection>)
        ensures
            v@ == key_event(key@, true),
    {
        self.key_injections(key, true)
    }
}

// ── Jitter source ────────────────────────────────────────────────────────────

/// One SplitMix64 step from `state`: the new state and the output.
pub open spec fn splitmix_step(state: u64) -> (u64, u64) {
    let s = state.wrapping_add(0x9E37_79B9_7F4A_7C15u64);
    let z1 = (s ^ (s >> 30u64)).wrapping_mul(0xBF58_476D_1CE4_E5B9u64);
    let z2 = (z1 ^ (z1 >> 27u64)).wrapping_mul(0x94D0_49BB_1331_11EBu64);
    (s, z2 ^ (z2 >> 31u64))
}

/// SplitMix64: enough to make two curved cursor paths differ.
pub struct SplitMix64 {
    pub state: u64,
}

impl SplitMix64 {
    pub fn new(seed: u64) -> (r: SplitMix64)
        ensures
            r.state == seed,
    {
        SplitMix64 { state: seed }
    }

    /// The next 64 bits of the stream.
    pub fn next_u64(&mut self) -> (z: u64)
        ensures
            final(self).state == splitmix_step(old(self).state).0,
            z == splitmix_step(old(self).state).1,
    {
        self.state = self.state.wrapping_add(0x9E37_79B9_7F4A_7C15);
        let mut z = self.state;
        z = (z ^ (z >> 30)).wrapping_mul(0xBF58_476D_1CE4_E5B9);
        z = (z ^ (z >> 27)).wrapping_mul(0x94D0_49BB_1331_11EB);
        z ^ (z >> 31)
    }
}

} // verus!
