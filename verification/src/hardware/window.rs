//! Top-level windows for anti-AFK: which windows the user may pick, the id
//! that names a window by its handle and its process, and the input gestures
//! each anti-AFK action sends to the picked window.

use vstd::prelude::*;
use crate::text::{
    digit_value, lemma_numeral_round_trip, numeral, numeral_chars, parse_unsigned, parse_unsigned_chars,
    chars_of, string_of, trim_chars, trim_end, trim_start,
};

verus! {

/// How often focusing a window is requested before giving up.
pub const FOCUS_ATTEMPTS: usize = 4;
/// Pause between two focus requests, in milliseconds.
pub const FOCUS_RETRY_DELAY_MS: u64 = 45;
/// Pause after a successful focus before an action is sent, in milliseconds.
pub const FOCUS_SETTLE_DELAY_MS: u64 = 180;
/// Pause after focusing the window under a watched point, in milliseconds.
pub const WATCH_FOCUS_SETTLE_DELAY_MS: u64 = 100;
/// How often a key or button release is sent before its error is reported.
pub const INPUT_RELEASE_ATTEMPTS: usize = 3;
/// Pause between two release attempts, in milliseconds.
pub const INPUT_RELEASE_RETRY_DELAY_MS: u64 = 20;
/// How long the jump key is held, in milliseconds.
pub const JUMP_HOLD_MS: u64 = 140;
/// How long a walk key is held, in milliseconds.
pub const WALK_HOLD_MS: u64 = 180;
/// Pause between clearing a key and pressing it, in milliseconds.
pub const KEY_SETTLE_DELAY_MS: u64 = 35;
/// Pause after pressing the right button for a camera nudge, in milliseconds.
pub const CAMERA_BUTTON_SETTLE_MS: u64 = 40;
/// Pause between the two halves of a camera nudge, in milliseconds.
pub const CAMERA_TRAVEL_SETTLE_MS: u64 = 60;
/// How far a camera nudge drags, in mickeys.
pub const CAMERA_DELTA: i32 = 24;

// ── Picking a window ─────────────────────────────────────────────────────────

/// A window the user can pick as the anti-AFK target.
#[derive(Debug, Clone, PartialEq, Eq)]
pub struct SelectableWindow {
    pub id: String,
    pub title: String,
    pub pid: u32,
}

/// A window may be picked when it is visible, not owned by another window,
/// titled with more than whitespace, and belongs to a process other than
/// this one.
pub fn is_selectable(visible: bool, owned: bool, title: &str, pid: u32, own_pid: u32) -> (b: bool)
    ensures
        b == (visible && !owned && trim_end(trim_start(title@)).len() > 0 && pid != 0 && pid
            != own_pid),
{
    if !visible || owned || pid == 0 || pid == own_pid {
        return false;
    }
    let trimmed = trim_chars(&chars_of(title));
    trimmed.len() > 0
}

/// A window's screen rectangle: `left`/`top` inclusive, `right`/`bottom`
/// exclusive.
#[derive(Debug, Clone, Copy, PartialEq, Eq)]
pub struct WindowRect {
    pub left: i32,
    pub top: i32,
    pub right: i32,
    pub bottom: i32,
}

/// Whether the point lies in the rectangle, bounds half-open.
pub fn point_in_rect(x: i32, y: i32, rect: WindowRect) -> (b: bool)
    ensures
        b == (rect.left <= x < rect.right && rect.top <= y < rect.bottom),
{
    x >= rect.left && x < rect.right && y >= rect.top && y < rect.bottom
}

// ── Window ids ───────────────────────────────────────────────────────────────

/// The id of a window: its handle in upper-case hexadecimal, a colon, and its
/// process id in decimal.
pub open spec fn window_id_spec(hwnd: nat, pid: nat) -> Seq<char> {
    numeral(hwnd, 16) + seq![':'] + numeral(pid, 10)
}

/// Where the first `:` of `s` stands, or its length when it has none.
pub open spec fn first_colon(s: Seq<char>) -> int
    decreases s.len(),
{
    if s.len() == 0 {
        0
    } else if s[0] == ':' {
        0
    } else {
        1 + first_colon(s.drop_first())
    }
}

/// `s` without a leading `0x` or `0X`.
pub open spec fn strip_hex_prefix(s: Seq<char>) -> Seq<char> {
    if s.len() >= 2 && s[0] == '0' && (s[1] == 'x' || s[1] == 'X') {
        s.skip(2)
    } else {
        s
    }
}

/// The handle an id names: the hexadecimal before its first colon (the whole
/// id when it has none), `0x` allowed in front.
pub open spec fn hwnd_of_id(id: Seq<char>) -> Option<int> {
    parse_unsigned(strip_hex_prefix(id.take(first_colon(id))), 16, usize::MAX as int)
}

/// The process an id names: the decimal after its first colon.
pub open spec fn pid_of_id(id: Seq<char>) -> Option<int> {
    if first_colon(id) < id.len() {
        parse_unsigned(id.skip(first_colon(id) + 1), 10, u32::MAX as int)
    } else {
        None
    }
}

/// The id of a bare handle: the handle in upper-case hexadecimal.
pub fn hwnd_to_id(hwnd: usize) -> (s: String)
    ensures
        s@ == numeral(hwnd as nat, 16),
{
    string_of(&numeral_chars(hwnd as u64, 16))
}

/// The id of a window owned by process `pid`.
pub fn selectable_window_id(hwnd: usize, pid: u32) -> (s: String)
    ensures
        s@ == window_id_spec(hwnd as nat, pid as nat),
{
    let mut v = numeral_chars(hwnd as u64, 16);
    v.push(':');
    let digits = numeral_chars(pid as u64, 10);
    let mut i: usize = 0;
    let ghost head = v@;
    while i < digits.len()
        invariant
            i <= digits@.len(),
            v@ == head + digits@.take(i as int),
        decreases digits@.len() - i,
    {
        proof {
            assert(digits@.take(i as int + 1) == digits@.take(i as int).push(digits@[i as int]));
        }
        v.push(digits[i]);
        i = i + 1;
    }
    proof {
        assert(digits@.take(i as int) == digits@);
    }
    string_of(&v)
}

/// The position of the first `:` in `v`, or its length.
fn find_colon(v: &Vec<char>) -> (k: usize)
    ensures
        k == first_colon(v@),
        k <= v@.len(),
{
    let mut i: usize = 0;
    proof {
        assert(v@.skip(0) == v@);
    }
    while i < v.len() && v[i] != ':'
        invariant
            i <= v@.len(),
            first_colon(v@) == i + first_colon(v@.skip(i as int)),
        decreases v@.len() - i,
    {
        proof {
            assert(v@.skip(i as int).drop_first() == v@.skip(i as int + 1));
        }
        i = i + 1;
    }
    proof {
        if i < v@.len() {
            assert(v@.skip(i as int)[0] == v@[i as int]);
        }
        lemma_first_colon_bound(v@);
    }
    i
}

proof fn lemma_first_colon_bound(s: Seq<char>)
    ensures
        0 <= first_colon(s) <= s.len(),
        first_colon(s) < s.len() ==> s[first_colon(s)] == ':',
        forall|j: int| 0 <= j < first_colon(s) ==> s[j] != ':',
    decreases s.len(),
{
    if s.len() > 0 && s[0] != ':' {
        lemma_first_colon_bound(s.drop_first());
        assert forall|j: int| 0 <= j < first_colon(s) implies s[j] != ':' by {
            if j > 0 {
                assert(s[j] == s.drop_first()[j - 1]);
            }
        }
    }
}

/// The handle an id names, if it names one.
pub fn id_to_hwnd(id: &str) -> (r: Option<usize>)
    ensures
        match hwnd_of_id(id@) {
            Some(h) => r == Some(h as usize),
            None => r is None,
        },
{
    let v = chars_of(id);
    let end = find_colon(&v);
    let mut start: usize = 0;
    if end >= 2 && v[0] == '0' && (v[1] == 'x' || v[1] == 'X') {
        start = 2;
    }
    let ghost raw = v@.take(end as int);
    proof {
        if end >= 2 {
            assert(raw[0] == v@[0] && raw[1] == v@[1]);
        }
        assert(v@.subrange(start as int, end as int) == strip_hex_prefix(raw));
        assert(raw == id@.take(first_colon(id@)));
    }
    let parsed = parse_unsigned_chars(&v, start, end, 16, usize::MAX as u64);
    proof {
        assert(hwnd_of_id(id@) == parse_unsigned(strip_hex_prefix(raw), 16, usize::MAX as int));
    }
    match parsed {
        Some(h) => Some(h as usize),
        None => None,
    }
}

/// The process an id names, if it names one.
pub fn id_process_id(id: &str) -> (r: Option<u32>)
    ensures
        match pid_of_id(id@) {
            Some(p) => r == Some(p as u32),
            None => r is None,
        },
{
    let v = chars_of(id);
    let colon = find_colon(&v);
    if colon == v.len() {
        return None;
    }
    proof {
        assert(v@.subrange(colon as int + 1, v@.len() as int) == v@.skip(colon as int + 1));
        assert(pid_of_id(id@) == parse_unsigned(v@.skip(colon as int + 1), 10, u32::MAX as int));
    }
    match parse_unsigned_chars(&v, colon + 1, v.len(), 10, u32::MAX as u64) {
        Some(p) => Some(p as u32),
        None => None,
    }
}

proof fn lemma_numeral_has_no_colon(n: nat, radix: nat)
    requires
        2 <= radix <= 16,
    ensures
        first_colon(numeral(n, radix)) == numeral(n, radix).len(),
        numeral(n, radix).len() > 0,
        numeral(n, radix)[0] != '+',
        !(numeral(n, radix).len() >= 2 && numeral(n, radix)[1] == 'x'),
        !(numeral(n, radix).len() >= 2 && numeral(n, radix)[1] == 'X'),
{
    lemma_numeral_round_trip(n, radix);
    let s = numeral(n, radix);
    lemma_first_colon_bound(s);
    if first_colon(s) < s.len() {
        assert(digit_value(s[first_colon(s)], radix) is Some);
    }
    assert(digit_value(s[0], radix) is Some);
    if s.len() >= 2 {
        assert(digit_value(s[1], radix) is Some);
    }
}

/// A window id names back the handle and the process it was made from, and
/// the id of a bare handle names back the handle.
pub proof fn lemma_window_id_round_trip(hwnd: usize, pid: u32)
    ensures
        hwnd_of_id(window_id_spec(hwnd as nat, pid as nat)) == Some(hwnd as int),
        pid_of_id(window_id_spec(hwnd as nat, pid as nat)) == Some(pid as int),
        hwnd_of_id(numeral(hwnd as nat, 16)) == Some(hwnd as int),
{
    let h = numeral(hwnd as nat, 16);
    let p = numeral(pid as nat, 10);
    let id = window_id_spec(hwnd as nat, pid as nat);
    lemma_numeral_round_trip(hwnd as nat, 16);
    lemma_numeral_round_trip(pid as nat, 10);
    lemma_numeral_has_no_colon(hwnd as nat, 16);
    lemma_numeral_has_no_colon(pid as nat, 10);
    lemma_first_colon_bound(id);
    lemma_first_colon_bound(h);
    // The first colon of the id is the one after the handle.
    assert(id[h.len() as int] == ':');
    assert forall|j: int| 0 <= j < h.len() implies id[j] != ':' by {
        assert(id[j] == h[j]);
        if h[j] == ':' {
            assert(first_colon(h) <= j);
        }
    }
    if first_colon(id) < h.len() {
        assert(id[first_colon(id)] == ':');
    }
    assert(first_colon(id) == h.len());
    assert(id.take(h.len() as int) == h);
    assert(h.take(h.len() as int) == h);
    assert(strip_hex_prefix(h) == h);
    assert(id.skip(h.len() as int + 1) == p);
}

// ── Anti-AFK gestures ────────────────────────────────────────────────────────

/// One anti-AFK action.
#[derive(Debug, Clone, Copy, PartialEq, Eq)]
pub enum AntiAfkAction {
    Jump,
    Walk,
    Camera,
    /// Stands for one of the others; it is resolved before it is performed.
    Random,
}

/// The input an anti-AFK action is sent through.
pub trait AntiAfkInput {
    fn key_down(&self, key: &str) -> Result<(), String>;

    fn key_up(&self, key: &str) -> Result<(), String>;

    fn mouse_down(&self, button: &str) -> Result<(), String>;

    fn mouse_up(&self, button: &str) -> Result<(), String>;

    fn move_relative(&self, dx: i32, dy: i32) -> Result<(), String>;

    fn wait(&self, millis: u64);
}

/// A call sent through an [`AntiAfkInput`], as the sender's log records it.
pub enum AfkCall {
    KeyDown(Seq<char>),
    KeyUp(Seq<char>),
    MouseDown(Seq<char>),
    MouseUp(Seq<char>),
    MoveRelative(i32, i32),
    Wait(u64),
}

/// What the input answered: a result, or nothing for a wait.
pub enum AfkReply {
    Done(Result<(), Seq<char>>),
    Waited,
}

/// What a run of release attempts is for, and so what follows it.
pub enum Releasing {
    /// Clearing a stale press of `key` before holding it for `hold` ms.
    Clear { key: Seq<char>, hold: u64 },
    /// Letting go of `key` after its press failed with `err`.
    Recover { key: Seq<char>, err: Seq<char> },
    /// Letting go of `key` after holding it.
    Finish { key: Seq<char> },
    /// Letting go of the right button after a camera drag that gave `movement`.
    Camera { movement: Result<(), Seq<char>> },
}

/// Where an anti-AFK action stands between two input calls.
pub enum AfkStage {
    /// Release attempt `attempt` (from 0), or the wait before it when `waiting`.
    Release { what: Releasing, attempt: int, waiting: bool },
    /// The settle before pressing `key`.
    Settle { key: Seq<char>, hold: u64 },
    /// Pressing `key`.
    Down { key: Seq<char>, hold: u64 },
    /// Holding `key`.
    Hold { key: Seq<char>, hold: u64 },
    /// Pressing the right button for a camera drag.
    CamDown,
    /// The settle after the button went down.
    CamSettle,
    /// Dragging out.
    CamOut,
    /// The settle at the far end of the drag.
    CamTravel,
    /// Dragging back.
    CamBack,
}

/// After one input call: the stage that follows, or the action's outcome.
pub enum AfkNext {
    Cont(AfkStage),
    Fin(Result<(), Seq<char>>),
}

pub open spec fn afk_result(r: Result<(), String>) -> Result<(), Seq<char>> {
    match r {
        Ok(()) => Ok(()),
        Err(e) => Err(e@),
    }
}

/// The release call a run of release attempts sends.
pub open spec fn release_call(what: Releasing) -> AfkCall {
    match what {
        Releasing::Clear { key, .. } => AfkCall::KeyUp(key),
        Releasing::Recover { key, .. } => AfkCall::KeyUp(key),
        Releasing::Finish { key } => AfkCall::KeyUp(key),
        Releasing::Camera { .. } => AfkCall::MouseUp("right"@),
    }
}

/// What follows a run of release attempts that ended with `r`: a cleared key
/// is pressed whatever the release gave; a failed press reports its own error;
/// a held key reports the release; a camera drag reports its own error first.
pub open spec fn released(what: Releasing, r: Result<(), Seq<char>>) -> AfkNext {
    match what {
        Releasing::Clear { key, hold } => AfkNext::Cont(AfkStage::Settle { key, hold }),
        Releasing::Recover { err, .. } => AfkNext::Fin(Err(err)),
        Releasing::Finish { .. } => AfkNext::Fin(r),
        Releasing::Camera { movement } => AfkNext::Fin(if movement is Err { movement } else { r }),
    }
}

/// Where a call and its answer lead from `st`; `None` when `st` expects a
/// different call.
pub open spec fn afk_step(st: AfkStage, c: AfkCall, r: AfkReply) -> Option<AfkNext> {
    match st {
        AfkStage::Release { what, attempt, waiting } => if waiting {
            if c == AfkCall::Wait(INPUT_RELEASE_RETRY_DELAY_MS) && r is Waited {
                Some(AfkNext::Cont(AfkStage::Release { what, attempt, waiting: false }))
            } else {
                None
            }
        } else if c == release_call(what) && r is Done {
            match r->Done_0 {
                Ok(()) => Some(released(what, Ok(()))),
                Err(e) => if attempt + 1 < INPUT_RELEASE_ATTEMPTS {
                    Some(AfkNext::Cont(AfkStage::Release { what, attempt: attempt + 1, waiting: true }))
                } else {
                    Some(released(what, Err(e)))
                },
            }
        } else {
            None
        },
        AfkStage::Settle { key, hold } => if c == AfkCall::Wait(KEY_SETTLE_DELAY_MS) && r is Waited {
            Some(AfkNext::Cont(AfkStage::Down { key, hold }))
        } else {
            None
        },
        AfkStage::Down { key, hold } => if c == AfkCall::KeyDown(key) && r is Done {
            match r->Done_0 {
                Ok(()) => Some(AfkNext::Cont(AfkStage::Hold { key, hold })),
                Err(e) => Some(AfkNext::Cont(AfkStage::Release { what: Releasing::Recover { key, err: e }, attempt: 0, waiting: false })),
            }
        } else {
            None
        },
        AfkStage::Hold { key, hold } => if c == AfkCall::Wait(hold) && r is Waited {
            Some(AfkNext::Cont(AfkStage::Release { what: Releasing::Finish { key }, attempt: 0, waiting: false }))
        } else {
            None
        },
        AfkStage::CamDown => if c == AfkCall::MouseDown("right"@) && r is Done {
            match r->Done_0 {
                Ok(()) => Some(AfkNext::Cont(AfkStage::CamSettle)),
                Err(e) => Some(AfkNext::Fin(Err(e))),
            }
        } else {
            None
        },
        AfkStage::CamSettle => if c == AfkCall::Wait(CAMERA_BUTTON_SETTLE_MS) && r is Waited {
            Some(AfkNext::Cont(AfkStage::CamOut))
        } else {
            None
        },
        AfkStage::CamOut => if c == AfkCall::MoveRelative(CAMERA_DELTA, 0) && r is Done {
            match r->Done_0 {
                Ok(()) => Some(AfkNext::Cont(AfkStage::CamTravel)),
                Err(e) => Some(AfkNext::Cont(AfkStage::Release { what: Releasing::Camera { movement: Err(e) }, attempt: 0, waiting: false })),
            }
        } else {
            None
        },
        AfkStage::CamTravel => if c == AfkCall::Wait(CAMERA_TRAVEL_SETTLE_MS) && r is Waited {
            Some(AfkNext::Cont(AfkStage::CamBack))
        } else {
            None
        },
        AfkStage::CamBack => if c == AfkCall::MoveRelative((-CAMERA_DELTA) as i32, 0) && r is Done {
            Some(AfkNext::Cont(AfkStage::Release { what: Releasing::Camera { movement: r->Done_0 }, attempt: 0, waiting: false }))
        } else {
            None
        },
    }
}

/// Where the calls `t`, answered as logged, lead from `st`.
pub open spec fn afk_run(st: AfkStage, t: Seq<(AfkCall, AfkReply)>) -> Option<AfkNext>
    decreases t.len(),
{
    if t.len() == 0 {
        Some(AfkNext::Cont(st))
    } else {
        match afk_run(st, t.drop_last()) {
            Some(AfkNext::Cont(s)) => afk_step(s, t.last().0, t.last().1),
            _ => None,
        }
    }
}

/// How a held key starts: by clearing any stale press of it.
pub open spec fn hold_start(key: Seq<char>, hold: u64) -> AfkStage {
    AfkStage::Release { what: Releasing::Clear { key, hold }, attempt: 0, waiting: false }
}

/// How `action` starts, `walk_right` saying which way a walk goes: a jump
/// holds space for `JUMP_HOLD_MS`, a walk holds `d` (right) or `a` (left) for
/// `WALK_HOLD_MS`, a camera nudge presses the right button.
pub open spec fn action_start(action: AntiAfkAction, walk_right: bool) -> AfkStage {
    match action {
        AntiAfkAction::Walk => hold_start(if walk_right { "d"@ } else { "a"@ }, WALK_HOLD_MS),
        AntiAfkAction::Camera => AfkStage::CamDown,
        _ => hold_start("space"@, JUMP_HOLD_MS),
    }
}

pub open spec fn afk_extends(before: Seq<(AfkCall, AfkReply)>, after: Seq<(AfkCall, AfkReply)>) -> bool {
    after.len() >= before.len() && after.subrange(0, before.len() as int) == before
}

pub open spec fn afk_added(before: Seq<(AfkCall, AfkReply)>, after: Seq<(AfkCall, AfkReply)>) -> Seq<(AfkCall, AfkReply)> {
    after.skip(before.len() as int)
}

proof fn lemma_afk_refl(l: Seq<(AfkCall, AfkReply)>)
    ensures
        afk_extends(l, l),
        afk_added(l, l) == Seq::<(AfkCall, AfkReply)>::empty(),
{
    assert(l.subrange(0, l.len() as int) =~= l);
    assert(afk_added(l, l) =~= Seq::<(AfkCall, AfkReply)>::empty());
}

proof fn lemma_afk_push(st: AfkStage, l0: Seq<(AfkCall, AfkReply)>, l: Seq<(AfkCall, AfkReply)>, x: (AfkCall, AfkReply))
    requires
        afk_extends(l0, l),
    ensures
        afk_extends(l0, l.push(x)),
        afk_run(st, afk_added(l0, l.push(x))) == match afk_run(st, afk_added(l0, l)) {
            Some(AfkNext::Cont(s)) => afk_step(s, x.0, x.1),
            _ => None,
        },
{
    assert(l.push(x).subrange(0, l0.len() as int) =~= l0);
    assert(afk_added(l0, l.push(x)) =~= afk_added(l0, l).push(x));
    assert(afk_added(l0, l.push(x)).drop_last() =~= afk_added(l0, l));
}

proof fn lemma_afk_append(st: AfkStage, a: Seq<(AfkCall, AfkReply)>, b: Seq<(AfkCall, AfkReply)>, s: AfkStage)
    requires
        afk_run(st, a) == Some(AfkNext::Cont(s)),
    ensures
        afk_run(st, a + b) == afk_run(s, b),
    decreases b.len(),
{
    if b.len() == 0 {
        assert(a + b =~= a);
    } else {
        lemma_afk_append(st, a, b.drop_last(), s);
        assert((a + b).drop_last() =~= a + b.drop_last());
        assert((a + b).last() == b.last());
    }
}

proof fn lemma_afk_chain(
    st: AfkStage,
    l0: Seq<(AfkCall, AfkReply)>,
    l1: Seq<(AfkCall, AfkReply)>,
    l2: Seq<(AfkCall, AfkReply)>,
    s: AfkStage,
)
    requires
        afk_extends(l0, l1),
        afk_extends(l1, l2),
        afk_run(st, afk_added(l0, l1)) == Some(AfkNext::Cont(s)),
    ensures
        afk_extends(l0, l2),
        afk_run(st, afk_added(l0, l2)) == afk_run(s, afk_added(l1, l2)),
{
    assert(l2.subrange(0, l0.len() as int) =~= l1.subrange(0, l0.len() as int));
    assert(afk_added(l0, l2) =~= afk_added(l0, l1) + afk_added(l1, l2));
    lemma_afk_append(st, afk_added(l0, l1), afk_added(l1, l2), s);
}

/// Sends anti-AFK input and logs every call with its answer.
pub struct AntiAfkSender<'a, I: AntiAfkInput> {
    input: &'a I,
    log: Ghost<Seq<(AfkCall, AfkReply)>>,
}

impl<'a, I: AntiAfkInput> AntiAfkSender<'a, I> {
    /// Every input call made so far, with its answer, oldest first.
    pub closed spec fn log(&self) -> Seq<(AfkCall, AfkReply)> {
        self.log@
    }

    /// The input the sender sends through.
    pub closed spec fn input_view(&self) -> &'a I {
        self.input
    }

    /// A sender over `input`, with nothing sent yet.
    pub fn new(input: &'a I) -> (s: Self)
        ensures
            s.input_view() == input,
            s.log().len() == 0,
    {
        AntiAfkSender { input, log: Ghost(Seq::empty()) }
    }

    fn key_down(&mut self, key: &str) -> (r: Result<(), String>)
        ensures
            final(self).input == old(self).input,
            final(self).log@ == old(self).log@.push((AfkCall::KeyDown(key@), AfkReply::Done(afk_result(r)))),
    {
        let r = self.input.key_down(key);
        proof {
            self.log = Ghost(self.log@.push((AfkCall::KeyDown(key@), AfkReply::Done(afk_result(r)))));
        }
        r
    }

    fn key_up(&mut self, key: &str) -> (r: Result<(), String>)
        ensures
            final(self).input == old(self).input,
            final(self).log@ == old(self).log@.push((AfkCall::KeyUp(key@), AfkReply::Done(afk_result(r)))),
    {
        let r = self.input.key_up(key);
        proof {
            self.log = Ghost(self.log@.push((AfkCall::KeyUp(key@), AfkReply::Done(afk_result(r)))));
        }
        r
    }

    fn mouse_down(&mut self, button: &str) -> (r: Result<(), String>)
        ensures
            final(self).input == old(self).input,
            final(self).log@ == old(self).log@.push((AfkCall::MouseDown(button@), AfkReply::Done(afk_result(r)))),
    {
        let r = self.input.mouse_down(button);
        proof {
            self.log = Ghost(self.log@.push((AfkCall::MouseDown(button@), AfkReply::Done(afk_result(r)))));
        }
        r
    }

    fn mouse_up(&mut self, button: &str) -> (r: Result<(), String>)
        ensures
            final(self).input == old(self).input,
            final(self).log@ == old(self).log@.push((AfkCall::MouseUp(button@), AfkReply::Done(afk_result(r)))),
    {
        let r = self.input.mouse_up(button);
        proof {
            self.log = Ghost(self.log@.push((AfkCall::MouseUp(button@), AfkReply::Done(afk_result(r)))));
        }
        r
    }

    fn move_relative(&mut self, dx: i32, dy: i32) -> (r: Result<(), String>)
        ensures
            final(self).input == old(self).input,
            final(self).log@ == old(self).log@.push((AfkCall::MoveRelative(dx, dy), AfkReply::Done(afk_result(r)))),
    {
        let r = self.input.move_relative(dx, dy);
        proof {
            self.log = Ghost(self.log@.push((AfkCall::MoveRelative(dx, dy), AfkReply::Done(afk_result(r)))));
        }
        r
    }

    fn wait(&mut self, millis: u64)
        ensures
            final(self).input == old(self).input,
            final(self).log@ == old(self).log@.push((AfkCall::Wait(millis), AfkReply::Waited)),
    {
        self.input.wait(millis);
        proof {
            self.log = Ghost(self.log@.push((AfkCall::Wait(millis), AfkReply::Waited)));
        }
    }
}

/// What a release attempt lets go of.
#[derive(Clone, Copy)]
enum Release<'a> {
    Key(&'a str),
    Mouse(&'a str),
}

/// Sends the release up to `INPUT_RELEASE_ATTEMPTS` times, waiting
/// `INPUT_RELEASE_RETRY_DELAY_MS` between attempts, until one succeeds; the
/// last error when none does.
fn release_with_retry<I: AntiAfkInput>(sender: &mut AntiAfkSender<I>, release: Release, Ghost(what): Ghost<Releasing>) -> (r: Result<(), String>)
    requires
        match release {
            Release::Key(key) => release_call(what) == AfkCall::KeyUp(key@),
            Release::Mouse(button) => release_call(what) == AfkCall::MouseUp(button@),
        },
    ensures
        final(sender).input == old(sender).input,
        afk_extends(old(sender).log@, final(sender).log@),
        afk_run(AfkStage::Release { what, attempt: 0, waiting: false }, afk_added(old(sender).log@, final(sender).log@))
            == Some(released(what, afk_result(r))),
{
    let ghost l0 = sender.log@;
    let ghost st0 = AfkStage::Release { what, attempt: 0, waiting: false };
    proof {
        lemma_afk_refl(l0);
    }
    let mut attempt: usize = 0;
    loop
        invariant
            attempt < INPUT_RELEASE_ATTEMPTS,
            sender.input == old(sender).input,
            l0 == old(sender).log@,
            st0 == (AfkStage::Release { what, attempt: 0, waiting: false }),
            match release {
                Release::Key(key) => release_call(what) == AfkCall::KeyUp(key@),
                Release::Mouse(button) => release_call(what) == AfkCall::MouseUp(button@),
            },
            afk_extends(l0, sender.log@),
            afk_run(st0, afk_added(l0, sender.log@)) == Some(
                AfkNext::Cont(AfkStage::Release { what, attempt: attempt as int, waiting: false }),
            ),
        decreases INPUT_RELEASE_ATTEMPTS - attempt,
    {
        let ghost la = sender.log@;
        let outcome = match release {
            Release::Key(key) => sender.key_up(key),
            Release::Mouse(button) => sender.mouse_up(button),
        };
        proof {
            lemma_afk_push(st0, l0, la, sender.log@.last());
        }
        match outcome {
            Ok(()) => return Ok(()),
            Err(error) => {
                if attempt + 1 < INPUT_RELEASE_ATTEMPTS {
                    let ghost lb = sender.log@;
                    sender.wait(INPUT_RELEASE_RETRY_DELAY_MS);
                    proof {
                        lemma_afk_push(st0, l0, lb, sender.log@.last());
                    }
                } else {
                    return Err(error);
                }
            },
        }
        attempt = attempt + 1;
    }
}

/// Clears any stale press of `key`, presses it for `hold_ms` and releases it.
/// A failed press is still followed by a release, and its error returned.
fn hold_key<I: AntiAfkInput>(sender: &mut AntiAfkSender<I>, key: &str, hold_ms: u64) -> (r: Result<(), String>)
    ensures
        final(sender).input == old(sender).input,
        afk_extends(old(sender).log@, final(sender).log@),
        afk_run(hold_start(key@, hold_ms), afk_added(old(sender).log@, final(sender).log@)) == Some(
            AfkNext::Fin(afk_result(r)),
        ),
{
    let ghost l0 = sender.log@;
    let ghost st0 = hold_start(key@, hold_ms);
    let _ = release_with_retry(sender, Release::Key(key), Ghost(Releasing::Clear { key: key@, hold: hold_ms }));
    let ghost l1 = sender.log@;
    sender.wait(KEY_SETTLE_DELAY_MS);
    proof {
        lemma_afk_push(st0, l0, l1, sender.log@.last());
    }
    let ghost l2 = sender.log@;
    if let Err(error) = sender.key_down(key) {
        proof {
            lemma_afk_push(st0, l0, l2, sender.log@.last());
        }
        let ghost l3 = sender.log@;
        let _ = release_with_retry(sender, Release::Key(key), Ghost(Releasing::Recover { key: key@, err: error@ }));
        proof {
            lemma_afk_chain(
                st0,
                l0,
                l3,
                sender.log@,
                AfkStage::Release { what: Releasing::Recover { key: key@, err: error@ }, attempt: 0, waiting: false },
            );
        }
        return Err(error);
    }
    proof {
        lemma_afk_push(st0, l0, l2, sender.log@.last());
    }
    let ghost l3 = sender.log@;
    sender.wait(hold_ms);
    proof {
        lemma_afk_push(st0, l0, l3, sender.log@.last());
    }
    let ghost l4 = sender.log@;
    let r = release_with_retry(sender, Release::Key(key), Ghost(Releasing::Finish { key: key@ }));
    proof {
        lemma_afk_chain(
            st0,
            l0,
            l4,
            sender.log@,
            AfkStage::Release { what: Releasing::Finish { key: key@ }, attempt: 0, waiting: false },
        );
    }
    r
}

/// Drags the camera right and back with the right button held. The button is
/// released whatever the drag did; the drag's error comes first.
fn camera_nudge<I: AntiAfkInput>(sender: &mut AntiAfkSender<I>) -> (r: Result<(), String>)
    ensures
        final(sender).input == old(sender).input,
        afk_extends(old(sender).log@, final(sender).log@),
        afk_run(AfkStage::CamDown, afk_added(old(sender).log@, final(sender).log@)) == Some(AfkNext::Fin(afk_result(r))),
{
    let ghost l0 = sender.log@;
    let ghost st0 = AfkStage::CamDown;
    proof {
        lemma_afk_refl(l0);
    }
    let down = sender.mouse_down("right");
    proof {
        lemma_afk_push(st0, l0, l0, sender.log@.last());
    }
    match down {
        Ok(()) => {},
        Err(e) => return Err(e),
    }
    let ghost l1 = sender.log@;
    sender.wait(CAMERA_BUTTON_SETTLE_MS);
    proof {
        lemma_afk_push(st0, l0, l1, sender.log@.last());
    }
    let ghost l2 = sender.log@;
    let out = sender.move_relative(CAMERA_DELTA, 0);
    proof {
        lemma_afk_push(st0, l0, l2, sender.log@.last());
    }
    let movement = match out {
        Ok(()) => {
            let ghost l3 = sender.log@;
            sender.wait(CAMERA_TRAVEL_SETTLE_MS);
            proof {
                lemma_afk_push(st0, l0, l3, sender.log@.last());
            }
            let ghost l4 = sender.log@;
            let back = sender.move_relative(-CAMERA_DELTA, 0);
            proof {
                lemma_afk_push(st0, l0, l4, sender.log@.last());
            }
            back
        },
        Err(error) => Err(error),
    };
    let ghost l5 = sender.log@;
    let release = release_with_retry(sender, Release::Mouse("right"), Ghost(Releasing::Camera { movement: afk_result(movement) }));
    proof {
        lemma_afk_chain(
            st0,
            l0,
            l5,
            sender.log@,
            AfkStage::Release { what: Releasing::Camera { movement: afk_result(movement) }, attempt: 0, waiting: false },
        );
    }
    match movement {
        Ok(()) => release,
        Err(error) => Err(error),
    }
}

/// The message for an action that should have been resolved to another first.
pub open spec fn unresolved_message() -> Seq<char> {
    "random action was not resolved"@
}

/// Performs one anti-AFK action: a held jump, a held walk key that alternates
/// between right and left (`walk_right` says which comes next and is flipped),
/// or a camera nudge. `Random` is refused before anything is sent. The calls
/// made, given the input's answers, are exactly those of [`afk_run`] from
/// [`action_start`].
pub fn perform_input_action<I: AntiAfkInput>(
    sender: &mut AntiAfkSender<I>,
    action: AntiAfkAction,
    walk_right: &mut bool,
) -> (r: Result<(), String>)
    ensures
        action is Walk ==> *final(walk_right) == !*old(walk_right),
        !(action is Walk) ==> *final(walk_right) == *old(walk_right),
        final(sender).input_view() == old(sender).input_view(),
        action is Random ==> r is Err && r->Err_0@ == unresolved_message() && final(sender).log() == old(sender).log(),
        !(action is Random) ==> afk_extends(old(sender).log(), final(sender).log()) && afk_run(
            action_start(action, *old(walk_right)),
            afk_added(old(sender).log(), final(sender).log()),
        ) == Some(AfkNext::Fin(afk_result(r))),
{
    match action {
        AntiAfkAction::Jump => hold_key(sender, "space", JUMP_HOLD_MS),
        AntiAfkAction::Walk => {
            let right = *walk_right;
            *walk_right = !right;
            hold_key(sender, if right { "d" } else { "a" }, WALK_HOLD_MS)
        },
        AntiAfkAction::Camera => camera_nudge(sender),
        AntiAfkAction::Random => {
            let message = "random action was not resolved".to_owned();
            proof {
                reveal_strlit("random action was not resolved");
            }
            Err(message)
        },
    }
}

} // verus!
