//! Recording: how a low-level hook's mouse and keyboard notifications become
//! macro events, and the key names those events carry.
//!
//! Every key name recorded here resolves back to the same virtual key on
//! replay ([`lemma_key_name_round_trip`]).

use vstd::prelude::*;
use crate::hardware::input::{resolve_vk_spec, strip_key_prefix, vk_spec};
use crate::arith::round_half_even;
use crate::models::macro_def::{is_plain_event, new_event, InputEventType, MacroEvent};
use crate::text::{ascii_lower, lowercase, same_text, string_of, upper_char};
use std::time::{Duration, Instant};

verus! {

// ── Hook data ────────────────────────────────────────────────────────────────

/// The high word of a hook's `mouseData`, as a signed 16-bit value.
pub open spec fn high_word_signed(mouse_data: u32) -> int {
    let hi = mouse_data as int / 65536;
    if hi >= 32768 {
        hi - 65536
    } else {
        hi
    }
}

/// Vertical wheel notches from a `WM_MOUSEWHEEL` `mouseData`: the signed high
/// word divided by one notch (120), rounded toward negative infinity, so a
/// partial notch counts as none.
pub fn wheel_notches(mouse_data: u32) -> (n: i64)
    ensures
        n == high_word_signed(mouse_data) / 120,
{
    let hi: u32 = mouse_data >> 16;
    assert(hi == mouse_data / 65536) by (bit_vector)
        requires
            hi == mouse_data >> 16,
    ;
    let raw: i64 = if hi >= 32768 {
        hi as i64 - 65536
    } else {
        hi as i64
    };
    if raw >= 0 {
        raw / 120
    } else {
        let q = (-raw + 119) / 120;
        proof {
            vstd::arithmetic::div_mod::lemma_fundamental_div_mod(raw as int, 120);
            vstd::arithmetic::div_mod::lemma_fundamental_div_mod(-raw + 119, 120);
        }
        -q
    }
}

/// The X-button a `WM_XBUTTON*` `mouseData` names: `x1` or `x2` by its high
/// word, nothing otherwise.
pub fn xbutton_name(mouse_data: u32) -> (r: Option<&'static str>)
    ensures
        mouse_data / 65536 == 1 ==> (r matches Some(s) && s@ == "x1"@),
        mouse_data / 65536 == 2 ==> (r matches Some(s) && s@ == "x2"@),
        mouse_data / 65536 != 1 && mouse_data / 65536 != 2 ==> r is None,
{
    let hi: u32 = (mouse_data >> 16) & 0xFFFF;
    assert(hi == mouse_data / 65536) by (bit_vector)
        requires
            hi == (mouse_data >> 16) & 0xFFFF,
    ;
    if hi == 1 {
        Some("x1")
    } else if hi == 2 {
        Some("x2")
    } else {
        None
    }
}

// ── Key names ────────────────────────────────────────────────────────────────

/// The names of the special (non-character) keys.
pub open spec fn special_spec(vk: u16) -> Option<Seq<char>> {
    if vk == 0x08 {
        Some("backspace"@)
    } else if vk == 0x09 {
        Some("tab"@)
    } else if vk == 0x0D {
        Some("enter"@)
    } else if vk == 0x10 {
        Some("shift"@)
    } else if vk == 0x11 {
        Some("ctrl"@)
    } else if vk == 0x12 {
        Some("alt"@)
    } else if vk == 0x13 {
        Some("pause"@)
    } else if vk == 0x14 {
        Some("caps_lock"@)
    } else if vk == 0x1B {
        Some("esc"@)
    } else if vk == 0x20 {
        Some("space"@)
    } else if vk == 0x21 {
        Some("page_up"@)
    } else if vk == 0x22 {
        Some("page_down"@)
    } else if vk == 0x23 {
        Some("end"@)
    } else if vk == 0x24 {
        Some("home"@)
    } else if vk == 0x25 {
        Some("left"@)
    } else if vk == 0x26 {
        Some("up"@)
    } else if vk == 0x27 {
        Some("right"@)
    } else if vk == 0x28 {
        Some("down"@)
    } else if vk == 0x2C {
        Some("print_screen"@)
    } else if vk == 0x2D {
        Some("insert"@)
    } else if vk == 0x2E {
        Some("delete"@)
    } else if vk == 0x5B {
        Some("cmd"@)
    } else if vk == 0x5C {
        Some("cmd_r"@)
    } else if vk == 0x5D {
        Some("menu"@)
    } else if vk == 0x90 {
        Some("num_lock"@)
    } else if vk == 0x91 {
        Some("scroll_lock"@)
    } else if vk == 0xA0 {
        Some("shift_l"@)
    } else if vk == 0xA1 {
        Some("shift_r"@)
    } else if vk == 0xA2 {
        Some("ctrl_l"@)
    } else if vk == 0xA3 {
        Some("ctrl_r"@)
    } else if vk == 0xA4 {
        Some("alt_l"@)
    } else if vk == 0xA5 {
        Some("alt_r"@)
    } else {
        None
    }
}

/// The name of a special key, if `vk` is one.
pub fn special_key_name(vk: u16) -> (r: Option<&'static str>)
    ensures
        match r {
            Some(s) => special_spec(vk) == Some(s@),
            None => special_spec(vk) is None,
        },
{
    if vk == 0x08 {
        Some("backspace")
    } else if vk == 0x09 {
        Some("tab")
    } else if vk == 0x0D {
        Some("enter")
    } else if vk == 0x10 {
        Some("shift")
    } else if vk == 0x11 {
        Some("ctrl")
    } else if vk == 0x12 {
        Some("alt")
    } else if vk == 0x13 {
        Some("pause")
    } else if vk == 0x14 {
        Some("caps_lock")
    } else if vk == 0x1B {
        Some("esc")
    } else if vk == 0x20 {
        Some("space")
    } else if vk == 0x21 {
        Some("page_up")
    } else if vk == 0x22 {
        Some("page_down")
    } else if vk == 0x23 {
        Some("end")
    } else if vk == 0x24 {
        Some("home")
    } else if vk == 0x25 {
        Some("left")
    } else if vk == 0x26 {
        Some("up")
    } else if vk == 0x27 {
        Some("right")
    } else if vk == 0x28 {
        Some("down")
    } else if vk == 0x2C {
        Some("print_screen")
    } else if vk == 0x2D {
        Some("insert")
    } else if vk == 0x2E {
        Some("delete")
    } else if vk == 0x5B {
        Some("cmd")
    } else if vk == 0x5C {
        Some("cmd_r")
    } else if vk == 0x5D {
        Some("menu")
    } else if vk == 0x90 {
        Some("num_lock")
    } else if vk == 0x91 {
        Some("scroll_lock")
    } else if vk == 0xA0 {
        Some("shift_l")
    } else if vk == 0xA1 {
        Some("shift_r")
    } else if vk == 0xA2 {
        Some("ctrl_l")
    } else if vk == 0xA3 {
        Some("ctrl_r")
    } else if vk == 0xA4 {
        Some("alt_l")
    } else if vk == 0xA5 {
        Some("alt_r")
    } else {
        None
    }
}

/// The decimal digit `d` as a character.
pub open spec fn digit_char(d: int) -> char {
    ((d + 0x30) as u32) as char
}

/// The character a character key records: its unshifted US-layout character,
/// letters lower-case, numpad keys as the digit or operator they type.
pub open spec fn key_char_spec(vk: u16) -> Option<char> {
    if 0x30 <= vk <= 0x39 {
        Some((vk as u32) as char)
    } else if 0x41 <= vk <= 0x5A {
        Some(((vk + 32) as u32) as char)
    } else if 0x60 <= vk <= 0x69 {
        Some(digit_char(vk - 0x60))
    } else if vk == 0x6A {
        Some('*')
    } else if vk == 0x6B {
        Some('+')
    } else if vk == 0x6D || vk == 0xBD {
        Some('-')
    } else if vk == 0x6E || vk == 0xBE {
        Some('.')
    } else if vk == 0x6F || vk == 0xBF {
        Some('/')
    } else if vk == 0xBA {
        Some(';')
    } else if vk == 0xBB {
        Some('=')
    } else if vk == 0xBC {
        Some(',')
    } else if vk == 0xC0 {
        Some('`')
    } else if vk == 0xDB {
        Some('[')
    } else if vk == 0xDC {
        Some('\\')
    } else if vk == 0xDD {
        Some(']')
    } else if vk == 0xDE {
        Some('\'')
    } else {
        None
    }
}

/// The recorded name of a virtual key: `f1` to `f20` for the function keys, the
/// special-key name, the key's character, or empty for a key with none.
pub open spec fn key_name_spec(vk: u16) -> Seq<char> {
    if 0x70 <= vk <= 0x83 {
        let n = vk - 0x70 + 1;
        if n < 10 {
            seq!['f', digit_char(n)]
        } else {
            seq!['f', digit_char(n / 10), digit_char(n % 10)]
        }
    } else if special_spec(vk) is Some {
        special_spec(vk)->0
    } else if key_char_spec(vk) is Some {
        seq![key_char_spec(vk)->0]
    } else {
        Seq::empty()
    }
}

fn key_char(vk: u16) -> (c: Option<char>)
    ensures
        c == key_char_spec(vk),
{
    if 0x30 <= vk && vk <= 0x39 {
        Some((vk as u8) as char)
    } else if 0x41 <= vk && vk <= 0x5A {
        Some(((vk + 32) as u8) as char)
    } else if 0x60 <= vk && vk <= 0x69 {
        Some(((vk - 0x60) as u8 + 0x30) as char)
    } else if vk == 0x6A {
        Some('*')
    } else if vk == 0x6B {
        Some('+')
    } else if vk == 0x6D || vk == 0xBD {
        Some('-')
    } else if vk == 0x6E || vk == 0xBE {
        Some('.')
    } else if vk == 0x6F || vk == 0xBF {
        Some('/')
    } else if vk == 0xBA {
        Some(';')
    } else if vk == 0xBB {
        Some('=')
    } else if vk == 0xBC {
        Some(',')
    } else if vk == 0xC0 {
        Some('`')
    } else if vk == 0xDB {
        Some('[')
    } else if vk == 0xDC {
        Some('\\')
    } else if vk == 0xDD {
        Some(']')
    } else if vk == 0xDE {
        Some('\'')
    } else {
        None
    }
}

/// The recorded key string for a virtual-key code.
pub fn key_name(vk: u16) -> (s: String)
    ensures
        s@ == key_name_spec(vk),
{
    if 0x70 <= vk && vk <= 0x83 {
        let n = vk - 0x70 + 1;
        let mut v: Vec<char> = Vec::new();
        v.push('f');
        if n >= 10 {
            v.push(((n / 10) as u8 + 0x30) as char);
        }
        v.push(((n % 10) as u8 + 0x30) as char);
        proof {
            if n < 10 {
                assert(v@ == seq!['f', digit_char(n as int)]);
            } else {
                assert(v@ == seq!['f', digit_char((n / 10) as int), digit_char((n % 10) as int)]);
            }
        }
        return string_of(&v);
    }
    if let Some(name) = special_key_name(vk) {
        return name.to_owned();
    }
    let mut v: Vec<char> = Vec::new();
    if let Some(c) = key_char(vk) {
        v.push(c);
    }
    proof {
        if key_char_spec(vk) is Some {
            assert(v@ == seq![key_char_spec(vk)->0]);
        } else {
            assert(v@ == Seq::<char>::empty());
        }
    }
    string_of(&v)
}

// ── The round trip ───────────────────────────────────────────────────────────

/// The keys both sides know: letters, digits, `f1`-`f12`, the special keys
/// replay can press and the US-layout punctuation.
pub open spec fn round_trips(vk: u16) -> bool {
    ||| 0x41 <= vk <= 0x5A
    ||| 0x30 <= vk <= 0x39
    ||| 0x70 <= vk <= 0x7B
    ||| (special_spec(vk) is Some && vk != 0x5D && vk != 0x90 && vk != 0x91)
    ||| (0xBA <= vk <= 0xC0)
    ||| (0xDB <= vk <= 0xDE)
}

/// The characters of every key name in the lookup table.
proof fn lemma_key_literals()
    ensures
        "backspace"@ == seq!['b', 'a', 'c', 'k', 's', 'p', 'a', 'c', 'e'],
        "tab"@ == seq!['t', 'a', 'b'],
        "enter"@ == seq!['e', 'n', 't', 'e', 'r'],
        "return"@ == seq!['r', 'e', 't', 'u', 'r', 'n'],
        "shift"@ == seq!['s', 'h', 'i', 'f', 't'],
        "ctrl"@ == seq!['c', 't', 'r', 'l'],
        "control"@ == seq!['c', 'o', 'n', 't', 'r', 'o', 'l'],
        "alt"@ == seq!['a', 'l', 't'],
        "pause"@ == seq!['p', 'a', 'u', 's', 'e'],
        "caps_lock"@ == seq!['c', 'a', 'p', 's', '_', 'l', 'o', 'c', 'k'],
        "escape"@ == seq!['e', 's', 'c', 'a', 'p', 'e'],
        "esc"@ == seq!['e', 's', 'c'],
        "space"@ == seq!['s', 'p', 'a', 'c', 'e'],
        "page_up"@ == seq!['p', 'a', 'g', 'e', '_', 'u', 'p'],
        "page_down"@ == seq!['p', 'a', 'g', 'e', '_', 'd', 'o', 'w', 'n'],
        "end"@ == seq!['e', 'n', 'd'],
        "home"@ == seq!['h', 'o', 'm', 'e'],
        "left"@ == seq!['l', 'e', 'f', 't'],
        "up"@ == seq!['u', 'p'],
        "right"@ == seq!['r', 'i', 'g', 'h', 't'],
        "down"@ == seq!['d', 'o', 'w', 'n'],
        "print_screen"@ == seq!['p', 'r', 'i', 'n', 't', '_', 's', 'c', 'r', 'e', 'e', 'n'],
        "insert"@ == seq!['i', 'n', 's', 'e', 'r', 't'],
        "delete"@ == seq!['d', 'e', 'l', 'e', 't', 'e'],
        "cmd"@ == seq!['c', 'm', 'd'],
        "cmd_l"@ == seq!['c', 'm', 'd', '_', 'l'],
        "win"@ == seq!['w', 'i', 'n'],
        "cmd_r"@ == seq!['c', 'm', 'd', '_', 'r'],
        "shift_l"@ == seq!['s', 'h', 'i', 'f', 't', '_', 'l'],
        "shift_r"@ == seq!['s', 'h', 'i', 'f', 't', '_', 'r'],
        "ctrl_l"@ == seq!['c', 't', 'r', 'l', '_', 'l'],
        "ctrl_r"@ == seq!['c', 't', 'r', 'l', '_', 'r'],
        "alt_l"@ == seq!['a', 'l', 't', '_', 'l'],
        "alt_r"@ == seq!['a', 'l', 't', '_', 'r'],
        "f1"@ == seq!['f', '1'],
        "f2"@ == seq!['f', '2'],
        "f3"@ == seq!['f', '3'],
        "f4"@ == seq!['f', '4'],
        "f5"@ == seq!['f', '5'],
        "f6"@ == seq!['f', '6'],
        "f7"@ == seq!['f', '7'],
        "f8"@ == seq!['f', '8'],
        "f9"@ == seq!['f', '9'],
        "f10"@ == seq!['f', '1', '0'],
        "f11"@ == seq!['f', '1', '1'],
        "f12"@ == seq!['f', '1', '2'],
        ";"@ == seq![';'],
        "="@ == seq!['='],
        ","@ == seq![','],
        "-"@ == seq!['-'],
        "."@ == seq!['.'],
        "/"@ == seq!['/'],
        "`"@ == seq!['`'],
        "["@ == seq!['['],
        "\\"@ == seq!['\\'],
        "]"@ == seq![']'],
        "'"@ == seq!['\''],
{
    reveal_strlit("backspace");
    reveal_strlit("tab");
    reveal_strlit("enter");
    reveal_strlit("return");
    reveal_strlit("shift");
    reveal_strlit("ctrl");
    reveal_strlit("control");
    reveal_strlit("alt");
    reveal_strlit("pause");
    reveal_strlit("caps_lock");
    reveal_strlit("escape");
    reveal_strlit("esc");
    reveal_strlit("space");
    reveal_strlit("page_up");
    reveal_strlit("page_down");
    reveal_strlit("end");
    reveal_strlit("home");
    reveal_strlit("left");
    reveal_strlit("up");
    reveal_strlit("right");
    reveal_strlit("down");
    reveal_strlit("print_screen");
    reveal_strlit("insert");
    reveal_strlit("delete");
    reveal_strlit("cmd");
    reveal_strlit("cmd_l");
    reveal_strlit("win");
    reveal_strlit("cmd_r");
    reveal_strlit("shift_l");
    reveal_strlit("shift_r");
    reveal_strlit("ctrl_l");
    reveal_strlit("ctrl_r");
    reveal_strlit("alt_l");
    reveal_strlit("alt_r");
    reveal_strlit("f1");
    reveal_strlit("f2");
    reveal_strlit("f3");
    reveal_strlit("f4");
    reveal_strlit("f5");
    reveal_strlit("f6");
    reveal_strlit("f7");
    reveal_strlit("f8");
    reveal_strlit("f9");
    reveal_strlit("f10");
    reveal_strlit("f11");
    reveal_strlit("f12");
    reveal_strlit(";");
    reveal_strlit("=");
    reveal_strlit(",");
    reveal_strlit("-");
    reveal_strlit(".");
    reveal_strlit("/");
    reveal_strlit("`");
    reveal_strlit("[");
    reveal_strlit("\\");
    reveal_strlit("]");
    reveal_strlit("'");
    assert("backspace"@ == seq!['b', 'a', 'c', 'k', 's', 'p', 'a', 'c', 'e']);
    assert("tab"@ == seq!['t', 'a', 'b']);
    assert("enter"@ == seq!['e', 'n', 't', 'e', 'r']);
    assert("return"@ == seq!['r', 'e', 't', 'u', 'r', 'n']);
    assert("shift"@ == seq!['s', 'h', 'i', 'f', 't']);
    assert("ctrl"@ == seq!['c', 't', 'r', 'l']);
    assert("control"@ == seq!['c', 'o', 'n', 't', 'r', 'o', 'l']);
    assert("alt"@ == seq!['a', 'l', 't']);
    assert("pause"@ == seq!['p', 'a', 'u', 's', 'e']);
    assert("caps_lock"@ == seq!['c', 'a', 'p', 's', '_', 'l', 'o', 'c', 'k']);
    assert("escape"@ == seq!['e', 's', 'c', 'a', 'p', 'e']);
    assert("esc"@ == seq!['e', 's', 'c']);
    assert("space"@ == seq!['s', 'p', 'a', 'c', 'e']);
    assert("page_up"@ == seq!['p', 'a', 'g', 'e', '_', 'u', 'p']);
    assert("page_down"@ == seq!['p', 'a', 'g', 'e', '_', 'd', 'o', 'w', 'n']);
    assert("end"@ == seq!['e', 'n', 'd']);
    assert("home"@ == seq!['h', 'o', 'm', 'e']);
    assert("left"@ == seq!['l', 'e', 'f', 't']);
    assert("up"@ == seq!['u', 'p']);
    assert("right"@ == seq!['r', 'i', 'g', 'h', 't']);
    assert("down"@ == seq!['d', 'o', 'w', 'n']);
    assert("print_screen"@ == seq!['p', 'r', 'i', 'n', 't', '_', 's', 'c', 'r', 'e', 'e', 'n']);
    assert("insert"@ == seq!['i', 'n', 's', 'e', 'r', 't']);
    assert("delete"@ == seq!['d', 'e', 'l', 'e', 't', 'e']);
    assert("cmd"@ == seq!['c', 'm', 'd']);
    assert("cmd_l"@ == seq!['c', 'm', 'd', '_', 'l']);
    assert("win"@ == seq!['w', 'i', 'n']);
    assert("cmd_r"@ == seq!['c', 'm', 'd', '_', 'r']);
    assert("shift_l"@ == seq!['s', 'h', 'i', 'f', 't', '_', 'l']);
    assert("shift_r"@ == seq!['s', 'h', 'i', 'f', 't', '_', 'r']);
    assert("ctrl_l"@ == seq!['c', 't', 'r', 'l', '_', 'l']);
    assert("ctrl_r"@ == seq!['c', 't', 'r', 'l', '_', 'r']);
    assert("alt_l"@ == seq!['a', 'l', 't', '_', 'l']);
    assert("alt_r"@ == seq!['a', 'l', 't', '_', 'r']);
    assert("f1"@ == seq!['f', '1']);
    assert("f2"@ == seq!['f', '2']);
    assert("f3"@ == seq!['f', '3']);
    assert("f4"@ == seq!['f', '4']);
    assert("f5"@ == seq!['f', '5']);
    assert("f6"@ == seq!['f', '6']);
    assert("f7"@ == seq!['f', '7']);
    assert("f8"@ == seq!['f', '8']);
    assert("f9"@ == seq!['f', '9']);
    assert("f10"@ == seq!['f', '1', '0']);
    assert("f11"@ == seq!['f', '1', '1']);
    assert("f12"@ == seq!['f', '1', '2']);
    assert(";"@ == seq![';']);
    assert("="@ == seq!['=']);
    assert(","@ == seq![',']);
    assert("-"@ == seq!['-']);
    assert("."@ == seq!['.']);
    assert("/"@ == seq!['/']);
    assert("`"@ == seq!['`']);
    assert("["@ == seq!['[']);
    assert("\\"@ == seq!['\\']);
    assert("]"@ == seq![']']);
    assert("'"@ == seq!['\'']);
}

/// No named key is a single letter or digit.
proof fn lemma_single_char_unnamed(c: char)
    requires
        ('a' <= c <= 'z') || ('0' <= c <= '9'),
    ensures
        vk_spec(seq![c]) is None,
{
    lemma_key_literals();
    assert(seq![c].len() == 1);
    assert(seq![c][0] == c);
}

proof fn lemma_named_keys_0(vk: u16)
    requires
        vk == 0x08 || vk == 0x09 || vk == 0x0D || vk == 0x10 || vk == 0x11 || vk == 0x12 || vk == 0x13 || vk == 0x14,
    ensures
        vk_spec(key_name_spec(vk)) == Some(vk),
        ascii_lower(key_name_spec(vk)) == key_name_spec(vk),
        key_name_spec(vk).len() > 0,
{
    lemma_key_literals();
    let name = key_name_spec(vk);
    if vk == 0x08 {
        assert(name == "backspace"@);
        assert(vk_spec("backspace"@) == Some(0x08u16));
        assert(ascii_lower("backspace"@) == "backspace"@);
    } else if vk == 0x09 {
        assert(name == "tab"@);
        assert(vk_spec("tab"@) == Some(0x09u16));
        assert(ascii_lower("tab"@) == "tab"@);
    } else if vk == 0x0D {
        assert(name == "enter"@);
        assert(vk_spec("enter"@) == Some(0x0Du16));
        assert(ascii_lower("enter"@) == "enter"@);
    } else if vk == 0x10 {
        assert(name == "shift"@);
        assert(vk_spec("shift"@) == Some(0x10u16));
        assert(ascii_lower("shift"@) == "shift"@);
    } else if vk == 0x11 {
        assert(name == "ctrl"@);
        assert(vk_spec("ctrl"@) == Some(0x11u16));
        assert(ascii_lower("ctrl"@) == "ctrl"@);
    } else if vk == 0x12 {
        assert(name == "alt"@);
        assert(vk_spec("alt"@) == Some(0x12u16));
        assert(ascii_lower("alt"@) == "alt"@);
    } else if vk == 0x13 {
        assert(name == "pause"@);
        assert(vk_spec("pause"@) == Some(0x13u16));
        assert(ascii_lower("pause"@) == "pause"@);
    } else if vk == 0x14 {
        assert(name == "caps_lock"@);
        assert(vk_spec("caps_lock"@) == Some(0x14u16));
        assert(ascii_lower("caps_lock"@) == "caps_lock"@);
    }
}

proof fn lemma_named_keys_1(vk: u16)
    requires
        vk == 0x1B || vk == 0x20 || vk == 0x21 || vk == 0x22 || vk == 0x23 || vk == 0x24 || vk == 0x25 || vk == 0x26,
    ensures
        vk_spec(key_name_spec(vk)) == Some(vk),
        ascii_lower(key_name_spec(vk)) == key_name_spec(vk),
        key_name_spec(vk).len() > 0,
{
    lemma_key_literals();
    let name = key_name_spec(vk);
    if vk == 0x1B {
        assert(name == "esc"@);
        assert(vk_spec("esc"@) == Some(0x1Bu16));
        assert(ascii_lower("esc"@) == "esc"@);
    } else if vk == 0x20 {
        assert(name == "space"@);
        assert(vk_spec("space"@) == Some(0x20u16));
        assert(ascii_lower("space"@) == "space"@);
    } else if vk == 0x21 {
        assert(name == "page_up"@);
        assert(vk_spec("page_up"@) == Some(0x21u16));
        assert(ascii_lower("page_up"@) == "page_up"@);
    } else if vk == 0x22 {
        assert(name == "page_down"@);
        assert(vk_spec("page_down"@) == Some(0x22u16));
        assert(ascii_lower("page_down"@) == "page_down"@);
    } else if vk == 0x23 {
        assert(name == "end"@);
        assert(vk_spec("end"@) == Some(0x23u16));
        assert(ascii_lower("end"@) == "end"@);
    } else if vk == 0x24 {
        assert(name == "home"@);
        assert(vk_spec("home"@) == Some(0x24u16));
        assert(ascii_lower("home"@) == "home"@);
    } else if vk == 0x25 {
        assert(name == "left"@);
        assert(vk_spec("left"@) == Some(0x25u16));
        assert(ascii_lower("left"@) == "left"@);
    } else if vk == 0x26 {
        assert(name == "up"@);
        assert(vk_spec("up"@) == Some(0x26u16));
        assert(ascii_lower("up"@) == "up"@);
    }
}

proof fn lemma_named_keys_2(vk: u16)
    requires
        vk == 0x27 || vk == 0x28 || vk == 0x2C || vk == 0x2D || vk == 0x2E || vk == 0x5B || vk == 0x5C || vk == 0x70,
    ensures
        vk_spec(key_name_spec(vk)) == Some(vk),
        ascii_lower(key_name_spec(vk)) == key_name_spec(vk),
        key_name_spec(vk).len() > 0,
{
    lemma_key_literals();
    let name = key_name_spec(vk);
    if vk == 0x27 {
        assert(name == "right"@);
        assert(vk_spec("right"@) == Some(0x27u16));
        assert(ascii_lower("right"@) == "right"@);
    } else if vk == 0x28 {
        assert(name == "down"@);
        assert(vk_spec("down"@) == Some(0x28u16));
        assert(ascii_lower("down"@) == "down"@);
    } else if vk == 0x2C {
        assert(name == "print_screen"@);
        assert(vk_spec("print_screen"@) == Some(0x2Cu16));
        assert(ascii_lower("print_screen"@) == "print_screen"@);
    } else if vk == 0x2D {
        assert(name == "insert"@);
        assert(vk_spec("insert"@) == Some(0x2Du16));
        assert(ascii_lower("insert"@) == "insert"@);
    } else if vk == 0x2E {
        assert(name == "delete"@);
        assert(vk_spec("delete"@) == Some(0x2Eu16));
        assert(ascii_lower("delete"@) == "delete"@);
    } else if vk == 0x5B {
        assert(name == "cmd"@);
        assert(vk_spec("cmd"@) == Some(0x5Bu16));
        assert(ascii_lower("cmd"@) == "cmd"@);
    } else if vk == 0x5C {
        assert(name == "cmd_r"@);
        assert(vk_spec("cmd_r"@) == Some(0x5Cu16));
        assert(ascii_lower("cmd_r"@) == "cmd_r"@);
    } else if vk == 0x70 {
        assert(name == "f1"@);
        assert(vk_spec("f1"@) == Some(0x70u16));
        assert(ascii_lower("f1"@) == "f1"@);
    }
}

proof fn lemma_named_keys_3(vk: u16)
    requires
        vk == 0x71 || vk == 0x72 || vk == 0x73 || vk == 0x74 || vk == 0x75 || vk == 0x76 || vk == 0x77 || vk == 0x78,
    ensures
        vk_spec(key_name_spec(vk)) == Some(vk),
        ascii_lower(key_name_spec(vk)) == key_name_spec(vk),
        key_name_spec(vk).len() > 0,
{
    lemma_key_literals();
    let name = key_name_spec(vk);
    if vk == 0x71 {
        assert(name == "f2"@);
        assert(vk_spec("f2"@) == Some(0x71u16));
        assert(ascii_lower("f2"@) == "f2"@);
    } else if vk == 0x72 {
        assert(name == "f3"@);
        assert(vk_spec("f3"@) == Some(0x72u16));
        assert(ascii_lower("f3"@) == "f3"@);
    } else if vk == 0x73 {
        assert(name == "f4"@);
        assert(vk_spec("f4"@) == Some(0x73u16));
        assert(ascii_lower("f4"@) == "f4"@);
    } else if vk == 0x74 {
        assert(name == "f5"@);
        assert(vk_spec("f5"@) == Some(0x74u16));
        assert(ascii_lower("f5"@) == "f5"@);
    } else if vk == 0x75 {
        assert(name == "f6"@);
        assert(vk_spec("f6"@) == Some(0x75u16));
        assert(ascii_lower("f6"@) == "f6"@);
    } else if vk == 0x76 {
        assert(name == "f7"@);
        assert(vk_spec("f7"@) == Some(0x76u16));
        assert(ascii_lower("f7"@) == "f7"@);
    } else if vk == 0x77 {
        assert(name == "f8"@);
        assert(vk_spec("f8"@) == Some(0x77u16));
        assert(ascii_lower("f8"@) == "f8"@);
    } else if vk == 0x78 {
        assert(name == "f9"@);
        assert(vk_spec("f9"@) == Some(0x78u16));
        assert(ascii_lower("f9"@) == "f9"@);
    }
}

proof fn lemma_named_keys_4(vk: u16)
    requires
        vk == 0x79 || vk == 0x7A || vk == 0x7B || vk == 0xA0 || vk == 0xA1 || vk == 0xA2 || vk == 0xA3 || vk == 0xA4,
    ensures
        vk_spec(key_name_spec(vk)) == Some(vk),
        ascii_lower(key_name_spec(vk)) == key_name_spec(vk),
        key_name_spec(vk).len() > 0,
{
    lemma_key_literals();
    let name = key_name_spec(vk);
    if vk == 0x79 {
        assert(name == "f10"@);
        assert(vk_spec("f10"@) == Some(0x79u16));
        assert(ascii_lower("f10"@) == "f10"@);
    } else if vk == 0x7A {
        assert(name == "f11"@);
        assert(vk_spec("f11"@) == Some(0x7Au16));
        assert(ascii_lower("f11"@) == "f11"@);
    } else if vk == 0x7B {
        assert(name == "f12"@);
        assert(vk_spec("f12"@) == Some(0x7Bu16));
        assert(ascii_lower("f12"@) == "f12"@);
    } else if vk == 0xA0 {
        assert(name == "shift_l"@);
        assert(vk_spec("shift_l"@) == Some(0xA0u16));
        assert(ascii_lower("shift_l"@) == "shift_l"@);
    } else if vk == 0xA1 {
        assert(name == "shift_r"@);
        assert(vk_spec("shift_r"@) == Some(0xA1u16));
        assert(ascii_lower("shift_r"@) == "shift_r"@);
    } else if vk == 0xA2 {
        assert(name == "ctrl_l"@);
        assert(vk_spec("ctrl_l"@) == Some(0xA2u16));
        assert(ascii_lower("ctrl_l"@) == "ctrl_l"@);
    } else if vk == 0xA3 {
        assert(name == "ctrl_r"@);
        assert(vk_spec("ctrl_r"@) == Some(0xA3u16));
        assert(ascii_lower("ctrl_r"@) == "ctrl_r"@);
    } else if vk == 0xA4 {
        assert(name == "alt_l"@);
        assert(vk_spec("alt_l"@) == Some(0xA4u16));
        assert(ascii_lower("alt_l"@) == "alt_l"@);
    }
}

proof fn lemma_named_keys_5(vk: u16)
    requires
        vk == 0xA5 || vk == 0xBA || vk == 0xBB || vk == 0xBC || vk == 0xBD || vk == 0xBE || vk == 0xBF || vk == 0xC0,
    ensures
        vk_spec(key_name_spec(vk)) == Some(vk),
        ascii_lower(key_name_spec(vk)) == key_name_spec(vk),
        key_name_spec(vk).len() > 0,
{
    lemma_key_literals();
    assert(";"@[0] == ';');
    assert("="@[0] == '=');
    assert(","@[0] == ',');
    assert("-"@[0] == '-');
    assert("."@[0] == '.');
    assert("/"@[0] == '/');
    assert("`"@[0] == '`');
    assert("["@[0] == '[');
    assert("\\"@[0] == '\\');
    assert("]"@[0] == ']');
    assert("'"@[0] == '\'');
    let name = key_name_spec(vk);
    if vk == 0xA5 {
        assert(name == "alt_r"@);
        assert(vk_spec("alt_r"@) == Some(0xA5u16));
        assert(ascii_lower("alt_r"@) == "alt_r"@);
    } else if vk == 0xBA {
        assert(name == ";"@);
        assert(vk_spec(";"@) == Some(0xBAu16));
        assert(ascii_lower(";"@) == ";"@);
    } else if vk == 0xBB {
        assert(name == "="@);
        assert(vk_spec("="@) == Some(0xBBu16));
        assert(ascii_lower("="@) == "="@);
    } else if vk == 0xBC {
        assert(name == ","@);
        assert(vk_spec(","@) == Some(0xBCu16));
        assert(ascii_lower(","@) == ","@);
    } else if vk == 0xBD {
        assert(name == "-"@);
        assert(vk_spec("-"@) == Some(0xBDu16));
        assert(ascii_lower("-"@) == "-"@);
    } else if vk == 0xBE {
        assert(name == "."@);
        assert(vk_spec("."@) == Some(0xBEu16));
        assert(ascii_lower("."@) == "."@);
    } else if vk == 0xBF {
        assert(name == "/"@);
        assert(vk_spec("/"@) == Some(0xBFu16));
        assert(ascii_lower("/"@) == "/"@);
    } else if vk == 0xC0 {
        assert(name == "`"@);
        assert(vk_spec("`"@) == Some(0xC0u16));
        assert(ascii_lower("`"@) == "`"@);
    }
}

proof fn lemma_named_keys_6(vk: u16)
    requires
        vk == 0xDB || vk == 0xDC || vk == 0xDD || vk == 0xDE,
    ensures
        vk_spec(key_name_spec(vk)) == Some(vk),
        ascii_lower(key_name_spec(vk)) == key_name_spec(vk),
        key_name_spec(vk).len() > 0,
{
    lemma_key_literals();
    assert(";"@[0] == ';');
    assert("="@[0] == '=');
    assert(","@[0] == ',');
    assert("-"@[0] == '-');
    assert("."@[0] == '.');
    assert("/"@[0] == '/');
    assert("`"@[0] == '`');
    assert("["@[0] == '[');
    assert("\\"@[0] == '\\');
    assert("]"@[0] == ']');
    assert("'"@[0] == '\'');
    let name = key_name_spec(vk);
    if vk == 0xDB {
        assert(name == "["@);
        assert(vk_spec("["@) == Some(0xDBu16));
        assert(ascii_lower("["@) == "["@);
    } else if vk == 0xDC {
        assert(name == "\\"@);
        assert(vk_spec("\\"@) == Some(0xDCu16));
        assert(ascii_lower("\\"@) == "\\"@);
    } else if vk == 0xDD {
        assert(name == "]"@);
        assert(vk_spec("]"@) == Some(0xDDu16));
        assert(ascii_lower("]"@) == "]"@);
    } else if vk == 0xDE {
        assert(name == "'"@);
        assert(vk_spec("'"@) == Some(0xDEu16));
        assert(ascii_lower("'"@) == "'"@);
    }
}

/// Every function-key, special-key and punctuation name replay knows looks
/// up to its own key.
proof fn lemma_named_key_round_trip(vk: u16)
    requires
        round_trips(vk),
        !(0x41 <= vk <= 0x5A),
        !(0x30 <= vk <= 0x39),
    ensures
        ascii_lower(key_name_spec(vk)) == key_name_spec(vk),
        vk_spec(key_name_spec(vk)) == Some(vk),
        key_name_spec(vk).len() > 0,
{
    if vk == 0x08 || vk == 0x09 || vk == 0x0D || vk == 0x10 || vk == 0x11 || vk == 0x12 || vk == 0x13 || vk == 0x14 {
        lemma_named_keys_0(vk);
    } else if vk == 0x1B || vk == 0x20 || vk == 0x21 || vk == 0x22 || vk == 0x23 || vk == 0x24 || vk == 0x25 || vk == 0x26 {
        lemma_named_keys_1(vk);
    } else if vk == 0x27 || vk == 0x28 || vk == 0x2C || vk == 0x2D || vk == 0x2E || vk == 0x5B || vk == 0x5C || vk == 0x70 {
        lemma_named_keys_2(vk);
    } else if vk == 0x71 || vk == 0x72 || vk == 0x73 || vk == 0x74 || vk == 0x75 || vk == 0x76 || vk == 0x77 || vk == 0x78 {
        lemma_named_keys_3(vk);
    } else if vk == 0x79 || vk == 0x7A || vk == 0x7B || vk == 0xA0 || vk == 0xA1 || vk == 0xA2 || vk == 0xA3 || vk == 0xA4 {
        lemma_named_keys_4(vk);
    } else if vk == 0xA5 || vk == 0xBA || vk == 0xBB || vk == 0xBC || vk == 0xBD || vk == 0xBE || vk == 0xBF || vk == 0xC0 {
        lemma_named_keys_5(vk);
    } else if vk == 0xDB || vk == 0xDC || vk == 0xDD || vk == 0xDE {
        lemma_named_keys_6(vk);
    }
}

/// A recording round-trips: the name recorded for any key that replay can
/// press resolves back to that same key.
pub proof fn lemma_key_name_round_trip(vk: u16)
    requires
        round_trips(vk),
    ensures
        resolve_vk_spec(key_name_spec(vk)) == Some(vk),
{
    let name = key_name_spec(vk);
    if 0x41 <= vk <= 0x5A || 0x30 <= vk <= 0x39 {
        let c = key_char_spec(vk)->0;
        assert(name == seq![c]);
        assert(name.len() == 1 && name[0] == c);
        assert(ascii_lower(name) == name);
        lemma_single_char_unnamed(c);
        if 0x41 <= vk <= 0x5A {
            assert(c as u32 == vk + 32);
            assert(upper_char(c) as u16 == vk);
        } else {
            assert(c as u16 == vk);
        }
    } else {
        lemma_named_key_round_trip(vk);
    }
}

// ── Recording state ──────────────────────────────────────────────────────────

#[verifier::external_type_specification]
#[verifier::external_body]
pub struct ExInstant(std::time::Instant);

/// `Instant::now`.
#[verifier::external_body]
fn instant_now() -> (t: Instant) {
    Instant::now()
}

/// `Instant::elapsed`: the time since `start`. Nothing is stated of it; it
/// depends on the clock.
#[verifier::external_body]
fn elapsed_since(start: &Instant) -> (d: Duration) {
    start.elapsed()
}

/// `Duration::as_nanos`: the whole nanoseconds in `d`. Nothing is stated of
/// it: a `Duration` is opaque here.
#[verifier::external_body]
fn whole_nanos(d: &Duration) -> (ns: u128) {
    d.as_nanos()
}

/// A count cut to fit a `u64`.
pub fn saturating_u64(us: u128) -> (r: u64)
    ensures
        r == if us > u64::MAX {
            u64::MAX as int
        } else {
            us as int
        },
{
    if us > u64::MAX as u128 {
        u64::MAX
    } else {
        us as u64
    }
}

/// The time `now` less the time spent paused, never below zero.
pub fn unpaused(now: u64, paused_total: u64) -> (r: u64)
    ensures
        r == if now >= paused_total {
            now - paused_total
        } else {
            0
        },
{
    if now >= paused_total {
        now - paused_total
    } else {
        0
    }
}

/// Whether `e` holds exactly these fields.
pub open spec fn event_is(
    e: MacroEvent,
    kind: InputEventType,
    x: i64,
    y: i64,
    button: Seq<char>,
    key: Seq<char>,
    delta: i64,
) -> bool {
    &&& e.event_type == kind
    &&& e.x == x
    &&& e.y == y
    &&& e.button@ == button
    &&& e.key@ == key
    &&& e.delta == delta
    &&& e.duration_us == 0
}

/// Whether `name`, lower-cased, is one of the ignored hotkeys.
pub open spec fn is_ignored(ignore_keys: Seq<String>, name: Seq<char>) -> bool {
    exists|i: int| 0 <= i < ignore_keys.len() && (#[trigger] ignore_keys[i])@ == ascii_lower(name)
}

/// The state of one recording: the events so far and the pause bookkeeping.
/// Event times exclude time spent paused.
pub struct RecorderState {
    pub events: Vec<MacroEvent>,
    pub start: Instant,
    pub recording: bool,
    pub paused: bool,
    pub pause_start_ns: u64,
    pub paused_total_ns: u64,
    pub ignore_keys: Vec<String>,
}

impl RecorderState {
    /// A recording that has just started, with no events, skipping the keys
    /// in `ignore_keys` (lower-case names).
    pub fn new(ignore_keys: Vec<String>) -> (s: RecorderState)
        ensures
            s.events@.len() == 0,
            s.recording,
            !s.paused,
            s.ignore_keys@ == ignore_keys@,
    {
        RecorderState {
            events: Vec::new(),
            start: instant_now(),
            recording: true,
            paused: false,
            pause_start_ns: 0,
            paused_total_ns: 0,
            ignore_keys,
        }
    }

    /// Nanoseconds since the start, read off the clock.
    fn now_ns(&self) -> (ns: u64) {
        let d = elapsed_since(&self.start);
        saturating_u64(whole_nanos(&d))
    }

    /// Nanoseconds since the start, without the time spent paused.
    fn elapsed_ns(&self) -> (ns: u64) {
        unpaused(self.now_ns(), self.paused_total_ns)
    }

    /// Recording and not paused.
    pub fn active(&self) -> (b: bool)
        ensures
            b == (self.recording && !self.paused),
    {
        self.recording && !self.paused
    }

    fn push_event(
        &mut self,
        kind: InputEventType,
        x: i64,
        y: i64,
        button: String,
        key: String,
        delta: i64,
    )
        ensures
            final(self).recording == old(self).recording,
            final(self).paused == old(self).paused,
            final(self).ignore_keys@ == old(self).ignore_keys@,
            final(self).events@.len() == old(self).events@.len() + 1,
            final(self).events@.take(old(self).events@.len() as int) == old(self).events@,
            event_is(final(self).events@.last(), kind, x, y, button@, key@, delta),
    {
        let ts = round_ns_to_tenth_ms(self.elapsed_ns());
        let mut e = new_event(kind, ts);
        e.x = x;
        e.y = y;
        e.button = button;
        e.key = key;
        e.delta = delta;
        self.events.push(e);
        proof {
            assert(self.events@.take(old(self).events@.len() as int) == old(self).events@);
        }
    }

    /// A cursor move to `(x, y)`, dropped while inactive and when the last
    /// event is a move to the same pixel.
    pub fn handle_move(&mut self, x: i64, y: i64)
        ensures
            final(self).recording == old(self).recording,
            final(self).paused == old(self).paused,
            final(self).ignore_keys@ == old(self).ignore_keys@,
            ({
                let ev = old(self).events@;
                let skip = !(old(self).recording && !old(self).paused) || (ev.len() > 0
                    && ev.last().event_type == InputEventType::MouseMove && ev.last().x == x
                    && ev.last().y == y);
                if skip {
                    final(self).events@ == ev
                } else {
                    &&& final(self).events@.len() == ev.len() + 1
                    &&& final(self).events@.take(ev.len() as int) == ev
                    &&& event_is(
                        final(self).events@.last(),
                        InputEventType::MouseMove,
                        x,
                        y,
                        "left"@,
                        Seq::empty(),
                        0,
                    )
                }
            }),
    {
        if !self.active() {
            return;
        }
        let n = self.events.len();
        if n > 0 {
            let last = &self.events[n - 1];
            if last.event_type == InputEventType::MouseMove && last.x == x && last.y == y {
                return;
            }
        }
        self.push_event(InputEventType::MouseMove, x, y, "left".to_owned(), String::new(), 0);
    }

    /// A press (`down`) or release of `button` at `(x, y)`, dropped while
    /// inactive.
    pub fn handle_button(&mut self, down: bool, x: i64, y: i64, button: &str)
        ensures
            final(self).recording == old(self).recording,
            final(self).paused == old(self).paused,
            final(self).ignore_keys@ == old(self).ignore_keys@,
            !(old(self).recording && !old(self).paused) ==> final(self).events@ == old(self).events@,
            (old(self).recording && !old(self).paused) ==> {
                &&& final(self).events@.len() == old(self).events@.len() + 1
                &&& final(self).events@.take(old(self).events@.len() as int) == old(self).events@
                &&& event_is(
                    final(self).events@.last(),
                    if down {
                        InputEventType::MouseDown
                    } else {
                        InputEventType::MouseUp
                    },
                    x,
                    y,
                    button@,
                    Seq::empty(),
                    0,
                )
            },
    {
        if !self.active() {
            return;
        }
        let kind = if down {
            InputEventType::MouseDown
        } else {
            InputEventType::MouseUp
        };
        self.push_event(kind, x, y, button.to_owned(), String::new(), 0);
    }

    /// A wheel movement of `delta` notches at `(x, y)`, dropped while inactive.
    pub fn handle_scroll(&mut self, x: i64, y: i64, delta: i64)
        ensures
            final(self).recording == old(self).recording,
            final(self).paused == old(self).paused,
            final(self).ignore_keys@ == old(self).ignore_keys@,
            !(old(self).recording && !old(self).paused) ==> final(self).events@ == old(self).events@,
            (old(self).recording && !old(self).paused) ==> {
                &&& final(self).events@.len() == old(self).events@.len() + 1
                &&& final(self).events@.take(old(self).events@.len() as int) == old(self).events@
                &&& event_is(
                    final(self).events@.last(),
                    InputEventType::Scroll,
                    x,
                    y,
                    "left"@,
                    Seq::empty(),
                    delta,
                )
            },
    {
        if !self.active() {
            return;
        }
        self.push_event(InputEventType::Scroll, x, y, "left".to_owned(), String::new(), delta);
    }

    fn ignores(&self, name: &String) -> (b: bool)
        ensures
            b == is_ignored(self.ignore_keys@, name@),
    {
        let lower = lowercase(name.as_str());
        let mut i: usize = 0;
        while i < self.ignore_keys.len()
            invariant
                i <= self.ignore_keys@.len(),
                lower@ == ascii_lower(name@),
                forall|j: int| 0 <= j < i ==> (#[trigger] self.ignore_keys@[j])@ != lower@,
            decreases self.ignore_keys@.len() - i,
        {
            if same_text(&lower, self.ignore_keys[i].as_str()) {
                return true;
            }
            i = i + 1;
        }
        false
    }

    /// A press (`down`) or release of virtual key `vk`, recorded under its key
    /// name; dropped while inactive and when the name is an ignored hotkey.
    pub fn handle_key(&mut self, down: bool, vk: u16)
        ensures
            final(self).recording == old(self).recording,
            final(self).paused == old(self).paused,
            final(self).ignore_keys@ == old(self).ignore_keys@,
            ({
                let skip = !(old(self).recording && !old(self).paused) || is_ignored(
                    old(self).ignore_keys@,
                    key_name_spec(vk),
                );
                if skip {
                    final(self).events@ == old(self).events@
                } else {
                    &&& final(self).events@.len() == old(self).events@.len() + 1
                    &&& final(self).events@.take(old(self).events@.len() as int)
                        == old(self).events@
                    &&& event_is(
                        final(self).events@.last(),
                        if down {
                            InputEventType::KeyDown
                        } else {
                            InputEventType::KeyUp
                        },
                        0,
                        0,
                        "left"@,
                        key_name_spec(vk),
                        0,
                    )
                }
            }),
    {
        if !self.active() {
            return;
        }
        let name = key_name(vk);
        if self.ignores(&name) {
            return;
        }
        let kind = if down {
            InputEventType::KeyDown
        } else {
            InputEventType::KeyUp
        };
        self.push_event(kind, 0, 0, "left".to_owned(), name, 0);
    }

    /// Stop taking events until [`resume`](Self::resume); paused time is left
    /// out of later timestamps.
    pub fn pause(&mut self)
        ensures
            final(self).events@ == old(self).events@,
            final(self).recording == old(self).recording,
            final(self).paused == (old(self).paused || old(self).recording),
            final(self).ignore_keys@ == old(self).ignore_keys@,
    {
        if self.recording && !self.paused {
            self.paused = true;
            self.pause_start_ns = self.now_ns();
        }
    }

    /// Take events again after [`pause`](Self::pause).
    pub fn resume(&mut self)
        ensures
            final(self).events@ == old(self).events@,
            final(self).recording == old(self).recording,
            final(self).paused == (old(self).paused && !old(self).recording),
            final(self).ignore_keys@ == old(self).ignore_keys@,
    {
        if self.recording && self.paused {
            let now = self.now_ns();
            let spent = if now >= self.pause_start_ns {
                now - self.pause_start_ns
            } else {
                0
            };
            self.paused_total_ns = self.paused_total_ns.saturating_add(spent);
            self.paused = false;
        }
    }
}


// ── Finishing a recording ────────────────────────────────────────────────────

/// Idle after the last action shorter than this (50 ms) is the reaction to
/// the stop press, not a pause worth replaying.
pub const TRAILING_WAIT_MIN_US: u64 = 50_000;

/// A time rounded to a tenth of a millisecond, ties to even: the precision
/// saved recordings keep.
pub open spec fn round_tenth_ms(us: int) -> int {
    round_half_even(us, 100) * 100
}

/// `us` rounded to a tenth of a millisecond, ties to even.
pub fn round_to_tenth_ms(us: u64) -> (r: u64)
    ensures
        r == round_tenth_ms(us as int),
{
    let q = us / 100;
    let rem = us % 100;
    let up = if rem > 50 {
        true
    } else if rem < 50 {
        false
    } else {
        q % 2 == 1
    };
    proof {
        assert(us == q * 100 + rem);
    }
    if up {
        proof {
            assert(q + 1 <= 184467440737095516);
        }
        (q + 1) * 100
    } else {
        q * 100
    }
}

/// A time read in nanoseconds, rounded to a tenth of a millisecond (ties to
/// even) and given in microseconds: the precision a recorded timestamp is
/// saved at, taken from the exact reading.
pub fn round_ns_to_tenth_ms(ns: u64) -> (us: u64)
    ensures
        us == round_half_even(ns as int, 100_000) * 100,
        round_tenth_ms(us as int) == us,
{
    let q = ns / 100_000;
    let rem = ns % 100_000;
    let up = if rem > 50_000 {
        true
    } else if rem < 50_000 {
        false
    } else {
        q % 2 == 1
    };
    let t = if up {
        q + 1
    } else {
        q
    };
    proof {
        assert(q <= 184467440737095);
        assert(t as int == round_half_even(ns as int, 100_000));
        crate::arith::lemma_round_half_even_exact(t as int, 100);
    }
    t * 100
}

/// A trailing wait is added when the recording has an action and the
/// rounded total time runs more than `TRAILING_WAIT_MIN_US` past it.
pub open spec fn trailing_wait_due(events: Seq<MacroEvent>, total_us: int) -> bool {
    events.len() > 0 && round_tenth_ms(total_us) - events.last().timestamp_us > TRAILING_WAIT_MIN_US
}

/// Ends the recording with the idle time after its last action: a `Wait`
/// stamped at the rounded total time, when that is more than
/// `TRAILING_WAIT_MIN_US` after the last event. An empty recording stays
/// empty. Replay paces by timestamps, so a looped macro keeps the
/// recording's cadence.
pub fn append_trailing_wait(events: &mut Vec<MacroEvent>, total_elapsed_us: u64)
    ensures
        trailing_wait_due(old(events)@, total_elapsed_us as int) ==> {
            &&& final(events)@.len() == old(events)@.len() + 1
            &&& final(events)@.drop_last() == old(events)@
            &&& is_plain_event(
                final(events)@.last(),
                InputEventType::Wait,
                round_tenth_ms(total_elapsed_us as int) as u64,
            )
        },
        !trailing_wait_due(old(events)@, total_elapsed_us as int) ==> final(events)@ == old(events)@,
{
    let total = round_to_tenth_ms(total_elapsed_us);
    let n = events.len();
    if n > 0 {
        let last = events[n - 1].timestamp_us;
        if total > last && total - last > TRAILING_WAIT_MIN_US {
            let ghost before = events@;
            events.push(new_event(InputEventType::Wait, total));
            proof {
                assert(events@.drop_last() == before);
            }
        }
    }
}

/// `e` with its timestamp rounded to a tenth of a millisecond.
pub open spec fn rounded_event(e: MacroEvent) -> MacroEvent {
    MacroEvent { timestamp_us: round_tenth_ms(e.timestamp_us as int) as u64, ..e }
}

/// Readies a stopped recording for saving: every timestamp rounded to a
/// tenth of a millisecond, then the trailing wait added.
pub fn finish_events(events: &mut Vec<MacroEvent>, total_elapsed_us: u64)
    ensures
        ({
            let rounded = old(events)@.map_values(|e: MacroEvent| rounded_event(e));
            &&& trailing_wait_due(rounded, total_elapsed_us as int) ==> {
                &&& final(events)@.len() == rounded.len() + 1
                &&& final(events)@.drop_last() == rounded
                &&& is_plain_event(
                    final(events)@.last(),
                    InputEventType::Wait,
                    round_tenth_ms(total_elapsed_us as int) as u64,
                )
            }
            &&& !trailing_wait_due(rounded, total_elapsed_us as int) ==> final(events)@ == rounded
        }),
{
    let ghost original = events@;
    let mut i: usize = 0;
    while i < events.len()
        invariant
            i <= events@.len() == original.len(),
            forall|j: int| 0 <= j < i ==> #[trigger] events@[j] == rounded_event(original[j]),
            forall|j: int| i <= j < events@.len() ==> #[trigger] events@[j] == original[j],
        decreases events@.len() - i,
    {
        let r = round_to_tenth_ms(events[i].timestamp_us);
        events[i].timestamp_us = r;
        i = i + 1;
    }
    proof {
        assert(events@ =~= original.map_values(|e: MacroEvent| rounded_event(e)));
    }
    append_trailing_wait(events, total_elapsed_us);
}
} // verus!
