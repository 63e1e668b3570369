//! The picker overlay's data: the bitmaps it blits and the events and
//! decisions a scene exchanges with the window. The window, the message pump
//! and the GDI painting are operating-system calls and stay with the
//! application.

use vstd::prelude::*;

verus! {

/// Tightly packed BGR widened to BGRA with an opaque alpha channel, the byte
/// layout a 32-bit top-down DIB wants.
pub open spec fn widen_bgr(bgr: Seq<u8>) -> Seq<u8> {
    Seq::new(
        ((bgr.len() / 3) * 4) as nat,
        |i: int|
            if i % 4 == 3 {
                255u8
            } else {
                bgr[(i / 4) * 3 + i % 4]
            },
    )
}

/// A 32-bit top-down BGRA image ready for `StretchDIBits`.
pub struct Dib {
    bits: Vec<u8>,
    width: i32,
    height: i32,
}

impl Dib {
    /// The BGRA bytes.
    pub closed spec fn bits_spec(&self) -> Seq<u8> {
        self.bits@
    }

    pub closed spec fn width_spec(&self) -> i32 {
        self.width
    }

    pub closed spec fn height_spec(&self) -> i32 {
        self.height
    }

    /// Widen tightly packed BGR to BGRA with an opaque alpha channel; a
    /// trailing partial pixel is dropped.
    pub fn from_bgr(bgr: &[u8], width: u32, height: u32) -> (d: Dib)
        ensures
            d.bits_spec() == widen_bgr(bgr@),
            d.width_spec() == width as i32,
            d.height_spec() == height as i32,
    {
        let n = bgr.len() / 3;
        proof {
            vstd::arithmetic::div_mod::lemma_fundamental_div_mod(bgr@.len() as int, 3);
        }
        let mut bits: Vec<u8> = Vec::new();
        let mut p: usize = 0;
        while p < n
            invariant
                n == bgr@.len() / 3,
                3 * n <= bgr@.len(),
                bgr@.len() <= usize::MAX,
                p <= n,
                bits@.len() == 4 * p,
                forall|i: int|
                    0 <= i < 4 * p ==> #[trigger] bits@[i] == if i % 4 == 3 {
                        255u8
                    } else {
                        bgr@[(i / 4) * 3 + i % 4]
                    },
            decreases n - p,
        {
            let ghost before = bits@;
            bits.push(bgr[3 * p]);
            bits.push(bgr[3 * p + 1]);
            bits.push(bgr[3 * p + 2]);
            bits.push(255);
            proof {
                assert forall|i: int|
                    0 <= i < 4 * (p + 1) implies #[trigger] bits@[i] == if i % 4 == 3 {
                        255u8
                    } else {
                        bgr@[(i / 4) * 3 + i % 4]
                    } by {
                    if i < 4 * p {
                        assert(bits@[i] == before[i]);
                    } else {
                        crate::arith::lemma_grid_index_coords(i - 4 * p, p as int, 4);
                    }
                }
            }
            p = p + 1;
        }
        let d = Dib {
            bits,
            width: #[verifier::truncate] (width as i32),
            height: #[verifier::truncate] (height as i32),
        };
        proof {
            assert(d.bits_spec() =~= widen_bgr(bgr@));
        }
        d
    }

    /// The BGRA bytes.
    pub fn bytes(&self) -> (b: &[u8])
        ensures
            b@ == self.bits_spec(),
    {
        self.bits.as_slice()
    }
}

/// What the overlay hands a scene.
#[derive(Clone, Copy, Debug, PartialEq, Eq)]
pub enum Event {
    MouseMove { x: i32, y: i32 },
    LeftDown { x: i32, y: i32 },
    LeftUp { x: i32, y: i32 },
    RightDown { x: i32, y: i32 },
    /// Notches, positive when the wheel is pushed away from the user.
    Wheel { delta: i32 },
    Key { vk: u32, shift: bool },
}

/// What the overlay does after a scene handled an event.
#[derive(Clone, Copy, Debug, PartialEq, Eq)]
pub enum Flow {
    /// Repaint the whole overlay.
    Repaint,
    /// Nothing changed on screen.
    Idle,
    /// The scene is finished; tear the window down.
    Close,
}

// ── Window messages ─────────────────────────────────────────────────────────

/// The window messages the overlay turns into events.
pub const WM_KEYDOWN: u32 = 0x0100;
pub const WM_MOUSEMOVE: u32 = 0x0200;
pub const WM_LBUTTONDOWN: u32 = 0x0201;
pub const WM_LBUTTONUP: u32 = 0x0202;
pub const WM_RBUTTONDOWN: u32 = 0x0204;
pub const WM_MOUSEWHEEL: u32 = 0x020A;

/// The signed 16-bit value congruent to `v` modulo 2^16: the low word of
/// `v`, sign-extended.
pub open spec fn word_signed(v: int) -> int {
    let r = v % 65536;
    if r >= 32768 {
        r - 65536
    } else {
        r
    }
}

fn low_word_signed(v: i64) -> (r: i32)
    ensures
        r == word_signed(v as int),
{
    let lo: i64 = v & 0xFFFF;
    let q: i64 = v >> 16;
    assert(v == q * 65536 + lo && 0 <= lo < 65536) by (bit_vector)
        requires
            lo == v & 0xFFFF,
            q == v >> 16,
    ;
    proof {
        vstd::arithmetic::div_mod::lemma_fundamental_div_mod_converse(v as int, 65536, q as int, lo as int);
    }
    if lo >= 0x8000 {
        (lo - 0x10000) as i32
    } else {
        lo as i32
    }
}

/// The point packed in a mouse message's `lParam`: the low word is `x`, the
/// high word `y`, each a signed 16-bit value.
pub fn lparam_point(lp: i64) -> (p: (i32, i32))
    ensures
        p.0 == word_signed(lp as int),
        p.1 == word_signed(lp as int / 65536),
{
    let q: i64 = lp >> 16;
    assert(q == lp / 65536) by (bit_vector)
        requires
            q == lp >> 16,
    ;
    (low_word_signed(lp), low_word_signed(q))
}

/// The event for a window message, `None` for one the overlay ignores.
/// `shift` is whether Shift was down when a key was pressed.
pub fn translate(msg: u32, wp: u64, lp: i64, shift: bool) -> (r: Option<Event>)
    ensures
        ({
            let x = word_signed(lp as int) as i32;
            let y = word_signed(lp as int / 65536) as i32;
            if msg == WM_MOUSEMOVE {
                r == Some(Event::MouseMove { x, y })
            } else if msg == WM_LBUTTONDOWN {
                r == Some(Event::LeftDown { x, y })
            } else if msg == WM_LBUTTONUP {
                r == Some(Event::LeftUp { x, y })
            } else if msg == WM_RBUTTONDOWN {
                r == Some(Event::RightDown { x, y })
            } else if msg == WM_MOUSEWHEEL {
                r == Some(Event::Wheel { delta: word_signed(wp as int / 65536) as i32 })
            } else if msg == WM_KEYDOWN {
                r == Some(Event::Key { vk: (wp as int % 0x1_0000_0000) as u32, shift })
            } else {
                r is None
            }
        }),
{
    let (x, y) = lparam_point(lp);
    if msg == WM_MOUSEMOVE {
        Some(Event::MouseMove { x, y })
    } else if msg == WM_LBUTTONDOWN {
        Some(Event::LeftDown { x, y })
    } else if msg == WM_LBUTTONUP {
        Some(Event::LeftUp { x, y })
    } else if msg == WM_RBUTTONDOWN {
        Some(Event::RightDown { x, y })
    } else if msg == WM_MOUSEWHEEL {
        let hi: u64 = (wp >> 16) & 0xFFFF;
        assert(hi == (wp / 65536) % 65536) by (bit_vector)
            requires
                hi == (wp >> 16) & 0xFFFF,
        ;
        let delta: i32 = if hi >= 0x8000 {
            hi as i32 - 0x10000
        } else {
            hi as i32
        };
        Some(Event::Wheel { delta })
    } else if msg == WM_KEYDOWN {
        let m: u64 = wp & 0xFFFF_FFFF;
        assert(m == wp % 0x1_0000_0000 && m < 0x1_0000_0000) by (bit_vector)
            requires
                m == wp & 0xFFFF_FFFF,
        ;
        let vk = m as u32;
        Some(Event::Key { vk, shift })
    } else {
        None
    }
}

/// A blue-green-red colour packed the way GDI reads a `COLORREF`:
/// `0x00bbggrr`.
pub fn colorref(bgr: (u8, u8, u8)) -> (c: u32)
    ensures
        c == bgr.2 + bgr.1 * 256 + bgr.0 * 65536,
{
    let (b, g, r) = bgr;
    let b32 = b as u32;
    let g32 = g as u32;
    let r32 = r as u32;
    let c = (b32 << 16) | (g32 << 8) | r32;
    assert(c == r32 + g32 * 256 + b32 * 65536) by (bit_vector)
        requires
            c == (b32 << 16) | (g32 << 8) | r32,
            b32 < 256,
            g32 < 256,
            r32 < 256,
    ;
    c
}

} // verus!
