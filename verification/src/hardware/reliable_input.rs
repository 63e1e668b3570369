//! Input transactions for autonomous actions: each one finds the window
//! beneath a point, focuses it, arms and places the cursor and checks where it
//! landed, then holds the press long enough for a game to see it on a frame,
//! and reports any step that failed by name.
//!
//! The platform is reached through [`Platform`]; a transaction borrows the
//! actuator mutably, so two of them can never interleave their edges.

use vstd::prelude::*;
use crate::hardware::window::SelectableWindow;
use crate::text::{chars_of, numeral, numeral_chars, push_str, string_of, trim_chars, trim_end, trim_start};

verus! {

/// How often focusing and placing the cursor is tried before giving up.
pub const PREPARE_ATTEMPTS: usize = 3;
/// Pause after focusing the target, in milliseconds.
pub const FOCUS_SETTLE_MS: u64 = 80;
/// Pause between the two halves of the arming wiggle, in milliseconds.
pub const POINTER_ARM_FRAME_MS: u64 = 16;
/// Pause for the hover state to settle, in milliseconds.
pub const HOVER_SETTLE_MS: u64 = 50;
/// How long a press is held, in milliseconds.
pub const PRESS_HOLD_MS: u64 = 80;
/// Pause between two preparation attempts, in milliseconds.
pub const PREPARE_RETRY_DELAY_MS: u64 = 40;
/// How far the cursor may land from its point, per axis.
pub const CURSOR_TOLERANCE: i32 = 1;
/// How far the arming wiggle moves, in mickeys.
pub const POINTER_ARM_DELTA: i32 = 2;

/// The window an action went to and the point it was aimed at.
#[derive(Debug, Clone, PartialEq, Eq)]
pub struct ReliableTarget {
    window: SelectableWindow,
    anchor_x: i32,
    anchor_y: i32,
}

/// How a target is named in messages: its title without surrounding
/// whitespace, or its id when the title is blank.
pub open spec fn display_name_spec(title: Seq<char>, id: Seq<char>) -> Seq<char> {
    if trim_end(trim_start(title)).len() > 0 {
        trim_end(trim_start(title))
    } else {
        id
    }
}

impl ReliableTarget {
    /// The id of the target's window.
    pub closed spec fn id_view(&self) -> Seq<char> {
        self.window.id@
    }

    /// The title of the target's window.
    pub closed spec fn title_view(&self) -> Seq<char> {
        self.window.title@
    }

    /// The point the target was established at.
    pub closed spec fn anchor_view(&self) -> (i32, i32) {
        (self.anchor_x, self.anchor_y)
    }

    /// The id of the target's window.
    pub fn id(&self) -> (s: &str)
        ensures
            s@ == self.id_view(),
    {
        self.window.id.as_str()
    }

    /// How the target is named in messages.
    fn display_name(&self) -> (s: Vec<char>)
        ensures
            s@ == display_name_spec(self.window.title@, self.window.id@),
    {
        let title = trim_chars(&chars_of(self.window.title.as_str()));
        if title.len() > 0 {
            title
        } else {
            chars_of(self.window.id.as_str())
        }
    }
}

/// What `{:?}` prints for a string: the string quoted, with quotes,
/// backslashes and unprintable characters escaped.
pub uninterp spec fn str_debug(s: Seq<char>) -> Seq<char>;

/// `format!("{:?}", s)` for a string slice.
#[verifier::external_body]
fn debug_quoted(s: &str) -> (r: String)
    ensures
        r@ == str_debug(s@),
{
    format!("{:?}", s)
}

/// The message of a failed step: `"<phase> failed for <name>: <detail>"`,
/// the name quoted as `{:?}` quotes it.
pub open spec fn phase_message(phase: Seq<char>, name: Seq<char>, detail: Seq<char>) -> Seq<char> {
    phase + " failed for "@ + str_debug(name) + ": "@ + detail
}

/// The message for a step of a transaction on `target` that failed with
/// `detail`.
pub fn phase(step: &str, target: &ReliableTarget, detail: String) -> (s: String)
    ensures
        s@ == phase_message(step@, display_name_spec(target.title_view(), target.id_view()), detail@),
{
    let name = string_of(&target.display_name());
    let quoted = debug_quoted(name.as_str());
    let mut v: Vec<char> = Vec::new();
    push_str(&mut v, step);
    push_str(&mut v, " failed for ");
    push_str(&mut v, quoted.as_str());
    push_str(&mut v, ": ");
    push_str(&mut v, detail.as_str());
    proof {
        reveal_strlit(" failed for ");
        reveal_strlit(": ");
        assert(v@ == phase_message(step@, name@, detail@));
    }
    string_of(&v)
}

/// The message for a target that could not be resolved:
/// `"target resolution failed: <detail>"`.
pub open spec fn resolution_message(detail: Seq<char>) -> Seq<char> {
    "target resolution failed: "@ + detail
}

/// The message for a target that could not be resolved.
pub fn resolution_error(detail: &str) -> (s: String)
    ensures
        s@ == resolution_message(detail@),
{
    let mut v: Vec<char> = Vec::new();
    push_str(&mut v, "target resolution failed: ");
    push_str(&mut v, detail);
    string_of(&v)
}

/// `v` in decimal, a minus sign in front when negative.
pub open spec fn signed_numeral(v: int) -> Seq<char> {
    if v < 0 {
        seq!['-'] + numeral((-v) as nat, 10)
    } else {
        numeral(v as nat, 10)
    }
}

fn push_signed(out: &mut Vec<char>, v: i32)
    ensures
        final(out)@ == old(out)@ + signed_numeral(v as int),
{
    let magnitude: u64 = if v < 0 {
        out.push('-');
        (-(v as i64)) as u64
    } else {
        v as u64
    };
    let digits = numeral_chars(magnitude, 10);
    let ghost head = out@;
    let mut i: usize = 0;
    while i < digits.len()
        invariant
            i <= digits@.len(),
            out@ == head + digits@.take(i as int),
        decreases digits@.len() - i,
    {
        proof {
            assert(digits@.take(i as int + 1) == digits@.take(i as int).push(digits@[i as int]));
        }
        out.push(digits[i]);
        i = i + 1;
    }
    proof {
        assert(digits@.take(i as int) == digits@);
    }
}

/// Whether the cursor landed within `CURSOR_TOLERANCE` of `(x, y)` on both
/// axes.
pub open spec fn cursor_on_target(actual: (i32, i32), x: i32, y: i32) -> bool {
    -1 <= actual.0 - x <= 1 && -1 <= actual.1 - y <= 1
}

/// The cursor counts as on target exactly when it is within
/// [`CURSOR_TOLERANCE`] of the target on both axes, either way: a landing
/// point further off on either axis is rejected.
pub proof fn lemma_cursor_within_tolerance(actual: (i32, i32), x: i32, y: i32)
    ensures
        cursor_on_target(actual, x, y) <==> (actual.0 - x <= CURSOR_TOLERANCE && x - actual.0
            <= CURSOR_TOLERANCE && actual.1 - y <= CURSOR_TOLERANCE && y - actual.1
            <= CURSOR_TOLERANCE),
        cursor_on_target(actual, x, y) <==> cursor_on_target((x, y), actual.0, actual.1),
{
}

/// The message for a cursor that landed elsewhere:
/// `"cursor landed at (<ax>, <ay>) instead of (<x>, <y>)"`.
pub open spec fn drift_message(actual: (i32, i32), x: i32, y: i32) -> Seq<char> {
    "cursor landed at ("@ + signed_numeral(actual.0 as int) + ", "@ + signed_numeral(
        actual.1 as int,
    ) + ") instead of ("@ + signed_numeral(x as int) + ", "@ + signed_numeral(y as int) + ")"@
}

/// Checks where the cursor landed against where it was sent.
pub fn check_cursor(actual: (i32, i32), x: i32, y: i32) -> (r: Result<(), String>)
    ensures
        r is Ok <==> cursor_on_target(actual, x, y),
        r is Ok <==> (actual.0 - x <= CURSOR_TOLERANCE && x - actual.0 <= CURSOR_TOLERANCE
            && actual.1 - y <= CURSOR_TOLERANCE && y - actual.1 <= CURSOR_TOLERANCE),
        r matches Err(e) ==> e@ == drift_message(actual, x, y),
{
    let dx = actual.0 as i64 - x as i64;
    let dy = actual.1 as i64 - y as i64;
    if -1 <= dx && dx <= 1 && -1 <= dy && dy <= 1 {
        return Ok(());
    }
    let mut v: Vec<char> = Vec::new();
    push_str(&mut v, "cursor landed at (");
    push_signed(&mut v, actual.0);
    push_str(&mut v, ", ");
    push_signed(&mut v, actual.1);
    push_str(&mut v, ") instead of (");
    push_signed(&mut v, x);
    push_str(&mut v, ", ");
    push_signed(&mut v, y);
    push_str(&mut v, ")");
    Err(string_of(&v))
}

/// The message for a key action with no key configured.
pub open spec fn no_key_message() -> Seq<char> {
    "key press failed: no key is configured"@
}

/// The platform the transactions act on: window lookup and focus, cursor
/// movement, button and key edges, and waiting.
pub trait Platform {
    fn target_at(&self, x: i32, y: i32) -> Result<SelectableWindow, String>;

    fn focus(&self, target: &SelectableWindow) -> Result<(), String>;

    fn is_foreground(&self, target: &SelectableWindow) -> bool;

    fn move_to(&self, x: i32, y: i32) -> Result<(), String>;

    fn move_relative_no_coalesce(&self, dx: i32, dy: i32) -> Result<(), String>;

    fn sync_cursor_to(&self, x: i32, y: i32) -> Result<(), String>;

    fn cursor_position(&self) -> Result<(i32, i32), String>;

    fn mouse_down(&self) -> Result<(), String>;

    fn mouse_up(&self) -> Result<(), String>;

    fn key_down(&self, key: &str) -> Result<(), String>;

    fn key_up(&self, key: &str) -> Result<(), String>;

    fn nudge(&self) -> Result<(), String>;

    fn sleep(&self, millis: u64);
}

/// The detail of a press that lost the target's foreground while held.
pub open spec fn lost_button_detail() -> Seq<char> {
    "target lost foreground while the button was held"@
}

/// The detail of a key that lost the target's foreground while held.
pub open spec fn lost_key_detail() -> Seq<char> {
    "target lost foreground while the key was held"@
}

/// The detail of a target that was not in the foreground after focusing.
pub open spec fn not_foreground_detail() -> Seq<char> {
    "Windows reported a different foreground window"@
}

/// The detail of a target that lost the foreground while the cursor was placed.
pub open spec fn lost_while_positioning_detail() -> Seq<char> {
    "target lost foreground while positioning the cursor"@
}

// ── The transaction protocol ─────────────────────────────────────────────────

/// A call made on the platform, as the actuator's log records it; windows are
/// recorded by id.
pub enum Call {
    TargetAt(i32, i32),
    Focus(Seq<char>),
    IsForeground(Seq<char>),
    MoveTo(i32, i32),
    MoveRelative(i32, i32),
    SyncCursorTo(i32, i32),
    CursorPosition,
    MouseDown,
    MouseUp,
    KeyDown(Seq<char>),
    KeyUp(Seq<char>),
    Nudge,
    Sleep(u64),
}

/// What the platform answered a call; a found window is recorded as its id
/// and title.
pub enum Reply {
    Done(Result<(), Seq<char>>),
    Found(Result<(Seq<char>, Seq<char>), Seq<char>>),
    Flag(bool),
    At(Result<(i32, i32), Seq<char>>),
    Slept,
}

/// What a transaction goes on to do once its target is prepared.
pub enum Act {
    Click,
    /// Press the key, already trimmed.
    Key(Seq<char>),
    Nudge,
    Establish,
}

/// Where a transaction stands between two platform calls.
pub enum Stage {
    /// Resolving the window beneath `(x, y)`.
    Resolve { x: i32, y: i32, act: Act },
    /// Preparation attempt `attempt` on window `id`, before its step `k`.
    Prep { id: Seq<char>, title: Seq<char>, x: i32, y: i32, act: Act, attempt: int, k: int },
    /// Waiting before preparation attempt `attempt + 1`.
    Retry { id: Seq<char>, title: Seq<char>, x: i32, y: i32, act: Act, attempt: int },
    /// Sending the nudge.
    Nudging { id: Seq<char>, title: Seq<char> },
    /// The press of a click or key, before its step `k`; `kept` is whether the
    /// target kept the foreground through the hold, `release` how the release
    /// went.
    Press { id: Seq<char>, title: Seq<char>, act: Act, k: int, kept: bool, release: Result<(), Seq<char>> },
}

/// After one call: the stage that follows, or the transaction's outcome.
pub enum Next {
    Cont(Stage),
    Fin(Result<(), Seq<char>>),
}

pub open spec fn unit_view(r: Result<(), String>) -> Result<(), Seq<char>> {
    match r {
        Ok(()) => Ok(()),
        Err(e) => Err(e@),
    }
}

pub open spec fn found_view(r: Result<SelectableWindow, String>) -> Result<(Seq<char>, Seq<char>), Seq<char>> {
    match r {
        Ok(w) => Ok((w.id@, w.title@)),
        Err(e) => Err(e@),
    }
}

pub open spec fn at_view(r: Result<(i32, i32), String>) -> Result<(i32, i32), Seq<char>> {
    match r {
        Ok(p) => Ok(p),
        Err(e) => Err(e@),
    }
}

/// A transaction's outcome with the target left out.
pub open spec fn target_out(r: Result<ReliableTarget, String>) -> Result<(), Seq<char>> {
    match r {
        Ok(_) => Ok(()),
        Err(e) => Err(e@),
    }
}

/// A preparation attempt failed with `e`: wait and try again, or give up
/// after `PREPARE_ATTEMPTS` attempts naming the preparation.
pub open spec fn attempt_failed(id: Seq<char>, title: Seq<char>, x: i32, y: i32, act: Act, attempt: int, e: Seq<char>) -> Next {
    if attempt < PREPARE_ATTEMPTS {
        Next::Cont(Stage::Retry { id, title, x, y, act, attempt })
    } else {
        Next::Fin(Err(phase_message("cursor preparation"@, display_name_spec(title, id), e)))
    }
}

/// The target is prepared: an establish is done, a nudge or press follows, and
/// a blank key is refused before any key edge.
pub open spec fn prepared(id: Seq<char>, title: Seq<char>, act: Act) -> Next {
    match act {
        Act::Establish => Next::Fin(Ok(())),
        Act::Nudge => Next::Cont(Stage::Nudging { id, title }),
        Act::Click => Next::Cont(Stage::Press { id, title, act, k: 0, kept: true, release: Ok(()) }),
        Act::Key(key) => if key.len() == 0 {
            Next::Fin(Err(no_key_message()))
        } else {
            Next::Cont(Stage::Press { id, title, act, k: 0, kept: true, release: Ok(()) })
        },
    }
}

pub open spec fn down_call(act: Act) -> Call {
    match act {
        Act::Key(key) => Call::KeyDown(key),
        _ => Call::MouseDown,
    }
}

pub open spec fn up_call(act: Act) -> Call {
    match act {
        Act::Key(key) => Call::KeyUp(key),
        _ => Call::MouseUp,
    }
}

pub open spec fn is_key(act: Act) -> bool {
    act is Key
}

/// After the release: done when the target kept the foreground, else refocus
/// and release once more.
pub open spec fn after_release(id: Seq<char>, title: Seq<char>, act: Act, kept: bool, release: Result<(), Seq<char>>) -> Next {
    if kept {
        Next::Fin(release)
    } else {
        Next::Cont(Stage::Press { id, title, act, k: 5, kept, release })
    }
}

/// One preparation step: the call expected at step `k`, and where its answer
/// leads.
pub open spec fn prep_step(id: Seq<char>, title: Seq<char>, x: i32, y: i32, act: Act, attempt: int, k: int, c: Call, r: Reply) -> Option<Next> {
    let go = |k2: int| Some(Next::Cont(Stage::Prep { id, title, x, y, act, attempt, k: k2 }));
    let fail = |e: Seq<char>| Some(attempt_failed(id, title, x, y, act, attempt, e));
    if k == 0 && c == Call::Focus(id) && r is Done {
        match r->Done_0 { Ok(()) => go(1), Err(e) => fail(e) }
    } else if k == 1 && c == Call::Sleep(FOCUS_SETTLE_MS) && r is Slept {
        go(2)
    } else if k == 2 && c == Call::IsForeground(id) && r is Flag {
        if r->Flag_0 { go(3) } else { fail(not_foreground_detail()) }
    } else if k == 3 && c == Call::MoveTo(x, y) && r is Done {
        match r->Done_0 { Ok(()) => go(4), Err(e) => fail(e) }
    } else if k == 4 && c == Call::MoveRelative(POINTER_ARM_DELTA, 0) && r is Done {
        match r->Done_0 { Ok(()) => go(5), Err(e) => fail(e) }
    } else if k == 5 && c == Call::Sleep(POINTER_ARM_FRAME_MS) && r is Slept {
        go(6)
    } else if k == 6 && c == Call::MoveRelative((-POINTER_ARM_DELTA) as i32, 0) && r is Done {
        match r->Done_0 { Ok(()) => go(7), Err(e) => fail(e) }
    } else if k == 7 && c == Call::SyncCursorTo(x, y) && r is Done {
        match r->Done_0 { Ok(()) => go(8), Err(e) => fail(e) }
    } else if k == 8 && c == Call::Sleep(HOVER_SETTLE_MS) && r is Slept {
        go(9)
    } else if k == 9 && c == Call::IsForeground(id) && r is Flag {
        if r->Flag_0 { go(10) } else { fail(lost_while_positioning_detail()) }
    } else if k == 10 && c == Call::CursorPosition && r is At {
        match r->At_0 {
            Ok(p) => if cursor_on_target(p, x, y) {
                Some(prepared(id, title, act))
            } else {
                fail(drift_message(p, x, y))
            },
            Err(e) => fail(e),
        }
    } else {
        None
    }
}

/// One press step: press, hold, check the foreground, release (a failed
/// release sent once more), and when the foreground was lost, refocus and
/// release again.
pub open spec fn press_step(id: Seq<char>, title: Seq<char>, act: Act, k: int, kept: bool, release: Result<(), Seq<char>>, c: Call, r: Reply) -> Option<Next> {
    let name = display_name_spec(title, id);
    let key = is_key(act);
    if k == 0 && c == down_call(act) && r is Done {
        match r->Done_0 {
            Ok(()) => Some(Next::Cont(Stage::Press { id, title, act, k: 1, kept, release })),
            Err(e) => Some(Next::Fin(Err(phase_message(if key { "key press"@ } else { "mouse press"@ }, name, e)))),
        }
    } else if k == 1 && c == Call::Sleep(PRESS_HOLD_MS) && r is Slept {
        Some(Next::Cont(Stage::Press { id, title, act, k: 2, kept, release }))
    } else if k == 2 && c == Call::IsForeground(id) && r is Flag {
        Some(Next::Cont(Stage::Press { id, title, act, k: 3, kept: r->Flag_0, release }))
    } else if k == 3 && c == up_call(act) && r is Done {
        match r->Done_0 {
            Ok(()) => Some(after_release(id, title, act, kept, Ok(()))),
            Err(e) => Some(Next::Cont(Stage::Press {
                id,
                title,
                act,
                k: 4,
                kept,
                release: Err(phase_message(if key { "key release"@ } else { "mouse release"@ }, name, e)),
            })),
        }
    } else if k == 4 && c == up_call(act) && r is Done {
        Some(after_release(id, title, act, kept, release))
    } else if k == 5 && c == Call::Focus(id) && r is Done {
        Some(Next::Cont(Stage::Press { id, title, act, k: 6, kept, release }))
    } else if k == 6 && c == up_call(act) && r is Done {
        Some(Next::Fin(Err(phase_message(
            if key { "key gesture"@ } else { "mouse gesture"@ },
            name,
            if key { lost_key_detail() } else { lost_button_detail() },
        ))))
    } else {
        None
    }
}

/// Where a call and its answer lead from `st`; `None` when `st` expects a
/// different call.
pub open spec fn step(st: Stage, c: Call, r: Reply) -> Option<Next> {
    match st {
        Stage::Resolve { x, y, act } => if c == Call::TargetAt(x, y) && r is Found {
            match r->Found_0 {
                Ok(w) => Some(Next::Cont(Stage::Prep { id: w.0, title: w.1, x, y, act, attempt: 1, k: 0 })),
                Err(e) => Some(Next::Fin(Err(resolution_message(e)))),
            }
        } else {
            None
        },
        Stage::Prep { id, title, x, y, act, attempt, k } => prep_step(id, title, x, y, act, attempt, k, c, r),
        Stage::Retry { id, title, x, y, act, attempt } => if c == Call::Sleep(PREPARE_RETRY_DELAY_MS) && r is Slept {
            Some(Next::Cont(Stage::Prep { id, title, x, y, act, attempt: attempt + 1, k: 0 }))
        } else {
            None
        },
        Stage::Nudging { id, title } => if c == Call::Nudge && r is Done {
            match r->Done_0 {
                Ok(()) => Some(Next::Fin(Ok(()))),
                Err(e) => Some(Next::Fin(Err(phase_message("mouse nudge"@, display_name_spec(title, id), e)))),
            }
        } else {
            None
        },
        Stage::Press { id, title, act, k, kept, release } => press_step(id, title, act, k, kept, release, c, r),
    }
}

/// Where the calls `t`, answered as logged, lead from `st`: `None` when a call
/// is not the one expected or a call follows the outcome.
pub open spec fn run(st: Stage, t: Seq<(Call, Reply)>) -> Option<Next>
    decreases t.len(),
{
    if t.len() == 0 {
        Some(Next::Cont(st))
    } else {
        match run(st, t.drop_last()) {
            Some(Next::Cont(s)) => step(s, t.last().0, t.last().1),
            _ => None,
        }
    }
}

/// `after` is `before` with more calls logged.
pub open spec fn extends(before: Seq<(Call, Reply)>, after: Seq<(Call, Reply)>) -> bool {
    after.len() >= before.len() && after.subrange(0, before.len() as int) == before
}

/// The calls logged after `before`.
pub open spec fn added(before: Seq<(Call, Reply)>, after: Seq<(Call, Reply)>) -> Seq<(Call, Reply)> {
    after.skip(before.len() as int)
}

proof fn lemma_run_push(st: Stage, l0: Seq<(Call, Reply)>, l: Seq<(Call, Reply)>, x: (Call, Reply))
    requires
        extends(l0, l),
    ensures
        extends(l0, l.push(x)),
        added(l0, l.push(x)) == added(l0, l).push(x),
        run(st, added(l0, l.push(x))) == match run(st, added(l0, l)) {
            Some(Next::Cont(s)) => step(s, x.0, x.1),
            _ => None,
        },
{
    assert(l.push(x).subrange(0, l0.len() as int) =~= l0);
    assert(added(l0, l.push(x)) =~= added(l0, l).push(x));
    assert(added(l0, l.push(x)).drop_last() =~= added(l0, l));
}

proof fn lemma_run_append(st: Stage, a: Seq<(Call, Reply)>, b: Seq<(Call, Reply)>, s: Stage)
    requires
        run(st, a) == Some(Next::Cont(s)),
    ensures
        run(st, a + b) == run(s, b),
    decreases b.len(),
{
    if b.len() == 0 {
        assert(a + b =~= a);
    } else {
        lemma_run_append(st, a, b.drop_last(), s);
        assert((a + b).drop_last() =~= a + b.drop_last());
        assert((a + b).last() == b.last());
    }
}

/// A stretch of calls that led to `s` followed by more calls runs on from `s`.
proof fn lemma_run_chain(st: Stage, l0: Seq<(Call, Reply)>, l1: Seq<(Call, Reply)>, l2: Seq<(Call, Reply)>, s: Stage)
    requires
        extends(l0, l1),
        extends(l1, l2),
        run(st, added(l0, l1)) == Some(Next::Cont(s)),
    ensures
        extends(l0, l2),
        run(st, added(l0, l2)) == run(s, added(l1, l2)),
{
    assert(l2.subrange(0, l0.len() as int) =~= l1.subrange(0, l0.len() as int));
    assert(added(l0, l2) =~= added(l0, l1) + added(l1, l2));
    lemma_run_append(st, added(l0, l1), added(l1, l2), s);
}

/// The actuator for autonomous input. Every transaction takes it mutably, so
/// one transaction's press and release are never split by another's. It
/// keeps a log of the platform calls it made and what they answered.
pub struct ReliableInput<'a, P: Platform> {
    platform: &'a P,
    log: Ghost<Seq<(Call, Reply)>>,
}

impl<'a, P: Platform> ReliableInput<'a, P> {
    /// The platform the actuator acts on.
    pub closed spec fn platform_view(&self) -> &'a P {
        self.platform
    }

    /// Every platform call made so far, with its answer, oldest first.
    pub closed spec fn log(&self) -> Seq<(Call, Reply)> {
        self.log@
    }

    /// An actuator over `platform`.
    pub fn with_platform(platform: &'a P) -> (r: Self)
        ensures
            r.platform_view() == platform,
            r.log().len() == 0,
    {
        ReliableInput { platform, log: Ghost(Seq::empty()) }
    }

    fn call_target_at(&mut self, x: i32, y: i32) -> (r: Result<SelectableWindow, String>)
        ensures
            final(self).platform == old(self).platform,
            final(self).log@ == old(self).log@.push((Call::TargetAt(x, y), Reply::Found(found_view(r)))),
    {
        let r = self.platform.target_at(x, y);
        proof {
            self.log = Ghost(self.log@.push((Call::TargetAt(x, y), Reply::Found(found_view(r)))));
        }
        r
    }

    fn call_focus(&mut self, w: &SelectableWindow) -> (r: Result<(), String>)
        ensures
            final(self).platform == old(self).platform,
            final(self).log@ == old(self).log@.push((Call::Focus(w.id@), Reply::Done(unit_view(r)))),
    {
        let r = self.platform.focus(w);
        proof {
            self.log = Ghost(self.log@.push((Call::Focus(w.id@), Reply::Done(unit_view(r)))));
        }
        r
    }

    fn call_is_foreground(&mut self, w: &SelectableWindow) -> (b: bool)
        ensures
            final(self).platform == old(self).platform,
            final(self).log@ == old(self).log@.push((Call::IsForeground(w.id@), Reply::Flag(b))),
    {
        let b = self.platform.is_foreground(w);
        proof {
            self.log = Ghost(self.log@.push((Call::IsForeground(w.id@), Reply::Flag(b))));
        }
        b
    }

    fn call_move_to(&mut self, x: i32, y: i32) -> (r: Result<(), String>)
        ensures
            final(self).platform == old(self).platform,
            final(self).log@ == old(self).log@.push((Call::MoveTo(x, y), Reply::Done(unit_view(r)))),
    {
        let r = self.platform.move_to(x, y);
        proof {
            self.log = Ghost(self.log@.push((Call::MoveTo(x, y), Reply::Done(unit_view(r)))));
        }
        r
    }

    fn call_move_relative(&mut self, dx: i32, dy: i32) -> (r: Result<(), String>)
        ensures
            final(self).platform == old(self).platform,
            final(self).log@ == old(self).log@.push((Call::MoveRelative(dx, dy), Reply::Done(unit_view(r)))),
    {
        let r = self.platform.move_relative_no_coalesce(dx, dy);
        proof {
            self.log = Ghost(self.log@.push((Call::MoveRelative(dx, dy), Reply::Done(unit_view(r)))));
        }
        r
    }

    fn call_sync_cursor(&mut self, x: i32, y: i32) -> (r: Result<(), String>)
        ensures
            final(self).platform == old(self).platform,
            final(self).log@ == old(self).log@.push((Call::SyncCursorTo(x, y), Reply::Done(unit_view(r)))),
    {
        let r = self.platform.sync_cursor_to(x, y);
        proof {
            self.log = Ghost(self.log@.push((Call::SyncCursorTo(x, y), Reply::Done(unit_view(r)))));
        }
        r
    }

    fn call_cursor_position(&mut self) -> (r: Result<(i32, i32), String>)
        ensures
            final(self).platform == old(self).platform,
            final(self).log@ == old(self).log@.push((Call::CursorPosition, Reply::At(at_view(r)))),
    {
        let r = self.platform.cursor_position();
        proof {
            self.log = Ghost(self.log@.push((Call::CursorPosition, Reply::At(at_view(r)))));
        }
        r
    }

    fn call_mouse_down(&mut self) -> (r: Result<(), String>)
        ensures
            final(self).platform == old(self).platform,
            final(self).log@ == old(self).log@.push((Call::MouseDown, Reply::Done(unit_view(r)))),
    {
        let r = self.platform.mouse_down();
        proof {
            self.log = Ghost(self.log@.push((Call::MouseDown, Reply::Done(unit_view(r)))));
        }
        r
    }

    fn call_mouse_up(&mut self) -> (r: Result<(), String>)
        ensures
            final(self).platform == old(self).platform,
            final(self).log@ == old(self).log@.push((Call::MouseUp, Reply::Done(unit_view(r)))),
    {
        let r = self.platform.mouse_up();
        proof {
            self.log = Ghost(self.log@.push((Call::MouseUp, Reply::Done(unit_view(r)))));
        }
        r
    }

    fn call_key_down(&mut self, key: &str) -> (r: Result<(), String>)
        ensures
            final(self).platform == old(self).platform,
            final(self).log@ == old(self).log@.push((Call::KeyDown(key@), Reply::Done(unit_view(r)))),
    {
        let r = self.platform.key_down(key);
        proof {
            self.log = Ghost(self.log@.push((Call::KeyDown(key@), Reply::Done(unit_view(r)))));
        }
        r
    }

    fn call_key_up(&mut self, key: &str) -> (r: Result<(), String>)
        ensures
            final(self).platform == old(self).platform,
            final(self).log@ == old(self).log@.push((Call::KeyUp(key@), Reply::Done(unit_view(r)))),
    {
        let r = self.platform.key_up(key);
        proof {
            self.log = Ghost(self.log@.push((Call::KeyUp(key@), Reply::Done(unit_view(r)))));
        }
        r
    }

    fn call_nudge(&mut self) -> (r: Result<(), String>)
        ensures
            final(self).platform == old(self).platform,
            final(self).log@ == old(self).log@.push((Call::Nudge, Reply::Done(unit_view(r)))),
    {
        let r = self.platform.nudge();
        proof {
            self.log = Ghost(self.log@.push((Call::Nudge, Reply::Done(unit_view(r)))));
        }
        r
    }

    fn call_sleep(&mut self, millis: u64)
        ensures
            final(self).platform == old(self).platform,
            final(self).log@ == old(self).log@.push((Call::Sleep(millis), Reply::Slept)),
    {
        self.platform.sleep(millis);
        proof {
            self.log = Ghost(self.log@.push((Call::Sleep(millis), Reply::Slept)));
        }
    }

    /// Clicks the window beneath `(x, y)`: focuses it, places the cursor,
    /// holds the left button for `PRESS_HOLD_MS` and releases it. A target
    /// that lost the foreground during the press is refocused and released
    /// once more, and the click reported as failed. The calls made, given the
    /// platform's answers, are exactly those of [`run`] from a resolve.
    pub fn click_at(&mut self, x: i32, y: i32) -> (r: Result<ReliableTarget, String>)
        ensures
            final(self).platform_view() == old(self).platform_view(),
            extends(old(self).log(), final(self).log()),
            run(Stage::Resolve { x, y, act: Act::Click }, added(old(self).log(), final(self).log())) == Some(
                Next::Fin(target_out(r)),
            ),
            r matches Ok(t) ==> t.anchor_view() == (x, y) && added(old(self).log(), final(self).log())[0] == (
            Call::TargetAt(x, y),
            Reply::Found(Ok((t.id_view(), t.title_view()))),
            ),
    {
        let ghost l0 = self.log@;
        let ghost st0 = Stage::Resolve { x, y, act: Act::Click };
        let target = match self.resolve_target(x, y, Ghost(Act::Click)) {
            Ok(t) => t,
            Err(e) => return Err(e),
        };
        let ghost l1 = self.log@;
        let ghost id = target.id_view();
        let ghost title = target.title_view();
        match self.prepare_pointer(&target, x, y, Ghost(Act::Click)) {
            Ok(()) => {},
            Err(e) => {
                proof {
                    lemma_run_chain(st0, l0, l1, self.log@, Stage::Prep { id, title, x, y, act: Act::Click, attempt: 1, k: 0 });
                }
                return Err(e);
            },
        }
        proof {
            lemma_run_chain(st0, l0, l1, self.log@, Stage::Prep { id, title, x, y, act: Act::Click, attempt: 1, k: 0 });
        }
        let ghost l2 = self.log@;
        let pressed = self.press_mouse(&target);
        proof {
            lemma_run_chain(st0, l0, l2, self.log@, Stage::Press { id, title, act: Act::Click, k: 0, kept: true, release: Ok(()) });
        }
        match pressed {
            Ok(()) => Ok(target),
            Err(e) => Err(e),
        }
    }

    /// Holds the left button for `PRESS_HOLD_MS` and releases it; a target
    /// that lost the foreground meanwhile is refocused and released once
    /// more, and the press reported as failed.
    fn press_mouse(&mut self, target: &ReliableTarget) -> (r: Result<(), String>)
        ensures
            final(self).platform == old(self).platform,
            extends(old(self).log@, final(self).log@),
            run(
                Stage::Press { id: target.id_view(), title: target.title_view(), act: Act::Click, k: 0, kept: true, release: Ok(()) },
                added(old(self).log@, final(self).log@),
            ) == Some(Next::Fin(unit_view(r))),
    {
        let ghost l0 = self.log@;
        let ghost id = target.id_view();
        let ghost title = target.title_view();
        let ghost st0 = Stage::Press { id, title, act: Act::Click, k: 0, kept: true, release: Ok(()) };
        proof {
            lemma_extends_refl(l0);
        }
        let ghost mut cur = self.log@;
        match self.call_mouse_down() {
            Ok(()) => {
                proof {
                    lemma_run_push(st0, l0, cur, self.log@.last());
                    cur = self.log@;
                }
            },
            Err(error) => {
                proof {
                    lemma_run_push(st0, l0, cur, self.log@.last());
                }
                return Err(phase("mouse press", target, error));
            },
        }
        self.call_sleep(PRESS_HOLD_MS);
        proof {
            lemma_run_push(st0, l0, cur, self.log@.last());
            cur = self.log@;
        }
        let kept_focus = self.call_is_foreground(&target.window);
        proof {
            lemma_run_push(st0, l0, cur, self.log@.last());
            cur = self.log@;
        }
        let release = self.release_mouse(target, Ghost(Act::Click), Ghost(kept_focus));
        proof {
            lemma_run_chain(
                st0,
                l0,
                cur,
                self.log@,
                Stage::Press { id, title, act: Act::Click, k: 3, kept: kept_focus, release: Ok(()) },
            );
            cur = self.log@;
        }
        if !kept_focus {
            let _ = self.call_focus(&target.window);
            proof {
                lemma_run_push(st0, l0, cur, self.log@.last());
                cur = self.log@;
            }
            let _ = self.call_mouse_up();
            proof {
                lemma_run_push(st0, l0, cur, self.log@.last());
            }
            return Err(phase("mouse gesture", target, "target lost foreground while the button was held".to_owned()));
        }
        release
    }

    /// Presses `key` on the window beneath `(x, y)` after placing the cursor
    /// there.
    pub fn key_at(&mut self, x: i32, y: i32, key: &str) -> (r: Result<ReliableTarget, String>)
        ensures
            final(self).platform_view() == old(self).platform_view(),
            extends(old(self).log(), final(self).log()),
            run(
                Stage::Resolve { x, y, act: Act::Key(trim_end(trim_start(key@))) },
                added(old(self).log(), final(self).log()),
            ) == Some(Next::Fin(target_out(r))),
            r matches Ok(t) ==> t.anchor_view() == (x, y) && added(old(self).log(), final(self).log())[0] == (
            Call::TargetAt(x, y),
            Reply::Found(Ok((t.id_view(), t.title_view()))),
            ),
            trim_end(trim_start(key@)).len() == 0 ==> r is Err,
    {
        let ghost l0 = self.log@;
        let ghost act = Act::Key(trim_end(trim_start(key@)));
        let ghost st0 = Stage::Resolve { x, y, act };
        let target = match self.resolve_target(x, y, Ghost(act)) {
            Ok(t) => t,
            Err(e) => return Err(e),
        };
        let ghost l1 = self.log@;
        let ghost id = target.id_view();
        let ghost title = target.title_view();
        match self.prepare_pointer(&target, x, y, Ghost(act)) {
            Ok(()) => {},
            Err(e) => {
                proof {
                    lemma_run_chain(st0, l0, l1, self.log@, Stage::Prep { id, title, x, y, act, attempt: 1, k: 0 });
                }
                return Err(e);
            },
        }
        proof {
            lemma_run_chain(st0, l0, l1, self.log@, Stage::Prep { id, title, x, y, act, attempt: 1, k: 0 });
        }
        let ghost l2 = self.log@;
        let pressed = self.press_key(&target, key);
        proof {
            if trim_end(trim_start(key@)).len() > 0 {
                lemma_run_chain(st0, l0, l2, self.log@, Stage::Press { id, title, act, k: 0, kept: true, release: Ok(()) });
            } else {
                assert(added(l0, self.log@) == added(l0, l2));
            }
        }
        match pressed {
            Ok(()) => Ok(target),
            Err(e) => Err(e),
        }
    }

    /// Nudges the cursor on the window beneath `(x, y)` after placing it
    /// there.
    pub fn nudge_at(&mut self, x: i32, y: i32) -> (r: Result<ReliableTarget, String>)
        ensures
            final(self).platform_view() == old(self).platform_view(),
            extends(old(self).log(), final(self).log()),
            run(Stage::Resolve { x, y, act: Act::Nudge }, added(old(self).log(), final(self).log())) == Some(
                Next::Fin(target_out(r)),
            ),
            r matches Ok(t) ==> t.anchor_view() == (x, y) && added(old(self).log(), final(self).log())[0] == (
            Call::TargetAt(x, y),
            Reply::Found(Ok((t.id_view(), t.title_view()))),
            ),
    {
        let ghost l0 = self.log@;
        let ghost st0 = Stage::Resolve { x, y, act: Act::Nudge };
        let target = match self.resolve_target(x, y, Ghost(Act::Nudge)) {
            Ok(t) => t,
            Err(e) => return Err(e),
        };
        let ghost l1 = self.log@;
        let ghost id = target.id_view();
        let ghost title = target.title_view();
        match self.prepare_pointer(&target, x, y, Ghost(Act::Nudge)) {
            Ok(()) => {},
            Err(e) => {
                proof {
                    lemma_run_chain(st0, l0, l1, self.log@, Stage::Prep { id, title, x, y, act: Act::Nudge, attempt: 1, k: 0 });
                }
                return Err(e);
            },
        }
        proof {
            lemma_run_chain(st0, l0, l1, self.log@, Stage::Prep { id, title, x, y, act: Act::Nudge, attempt: 1, k: 0 });
        }
        let ghost cur = self.log@;
        let nudged = self.call_nudge();
        proof {
            lemma_run_push(st0, l0, cur, self.log@.last());
        }
        match nudged {
            Ok(()) => Ok(target),
            Err(error) => Err(phase("mouse nudge", &target, error)),
        }
    }

    /// Establishes the window beneath `(x, y)` as a target for later key
    /// actions, focusing it and placing the cursor, without sending a press.
    pub fn establish_at(&mut self, x: i32, y: i32) -> (r: Result<ReliableTarget, String>)
        ensures
            final(self).platform_view() == old(self).platform_view(),
            extends(old(self).log(), final(self).log()),
            run(Stage::Resolve { x, y, act: Act::Establish }, added(old(self).log(), final(self).log())) == Some(
                Next::Fin(target_out(r)),
            ),
            r matches Ok(t) ==> t.anchor_view() == (x, y) && added(old(self).log(), final(self).log())[0] == (
            Call::TargetAt(x, y),
            Reply::Found(Ok((t.id_view(), t.title_view()))),
            ),
    {
        let ghost l0 = self.log@;
        let ghost st0 = Stage::Resolve { x, y, act: Act::Establish };
        let target = match self.resolve_target(x, y, Ghost(Act::Establish)) {
            Ok(t) => t,
            Err(e) => return Err(e),
        };
        let ghost l1 = self.log@;
        let ghost id = target.id_view();
        let ghost title = target.title_view();
        let prepared = self.prepare_pointer(&target, x, y, Ghost(Act::Establish));
        proof {
            lemma_run_chain(st0, l0, l1, self.log@, Stage::Prep { id, title, x, y, act: Act::Establish, attempt: 1, k: 0 });
        }
        match prepared {
            Ok(()) => Ok(target),
            Err(e) => Err(e),
        }
    }

    /// Presses `key` on an established target, placing the cursor at its
    /// anchor again first.
    pub fn key_on(&mut self, target: &ReliableTarget, key: &str) -> (r: Result<(), String>)
        ensures
            final(self).platform_view() == old(self).platform_view(),
            extends(old(self).log(), final(self).log()),
            run(
                Stage::Prep {
                    id: target.id_view(),
                    title: target.title_view(),
                    x: target.anchor_view().0,
                    y: target.anchor_view().1,
                    act: Act::Key(trim_end(trim_start(key@))),
                    attempt: 1,
                    k: 0,
                },
                added(old(self).log(), final(self).log()),
            ) == Some(Next::Fin(unit_view(r))),
            trim_end(trim_start(key@)).len() == 0 ==> r is Err,
    {
        let ghost l0 = self.log@;
        let ghost id = target.id_view();
        let ghost title = target.title_view();
        let ghost act = Act::Key(trim_end(trim_start(key@)));
        let ghost st0 = Stage::Prep { id, title, x: target.anchor_x, y: target.anchor_y, act, attempt: 1, k: 0 };
        match self.prepare_pointer(target, target.anchor_x, target.anchor_y, Ghost(act)) {
            Ok(()) => {},
            Err(e) => return Err(e),
        }
        let ghost l2 = self.log@;
        let pressed = self.press_key(target, key);
        proof {
            if trim_end(trim_start(key@)).len() > 0 {
                lemma_run_chain(st0, l0, l2, self.log@, Stage::Press { id, title, act, k: 0, kept: true, release: Ok(()) });
            } else {
                assert(added(l0, self.log@) == added(l0, l2));
            }
        }
        pressed
    }

    fn resolve_target(&mut self, x: i32, y: i32, Ghost(act): Ghost<Act>) -> (r: Result<ReliableTarget, String>)
        ensures
            final(self).platform == old(self).platform,
            extends(old(self).log@, final(self).log@),
            r matches Ok(t) ==> t.anchor_view() == (x, y) && run(Stage::Resolve { x, y, act }, added(old(self).log@, final(self).log@))
                == Some(Next::Cont(Stage::Prep { id: t.id_view(), title: t.title_view(), x, y, act, attempt: 1, k: 0 }))
                && added(old(self).log@, final(self).log@) == seq![(Call::TargetAt(x, y), Reply::Found(Ok((t.id_view(), t.title_view()))))],
            r matches Err(e) ==> run(Stage::Resolve { x, y, act }, added(old(self).log@, final(self).log@)) == Some(
                Next::Fin(Err(e@)),
            ),
    {
        let ghost l0 = self.log@;
        proof {
            lemma_extends_refl(l0);
        }
        let found = self.call_target_at(x, y);
        proof {
            lemma_run_push(Stage::Resolve { x, y, act }, l0, l0, self.log@.last());
        }
        match found {
            Ok(window) => Ok(ReliableTarget { window, anchor_x: x, anchor_y: y }),
            Err(error) => Err(resolution_error(error.as_str())),
        }
    }

    /// Tries up to `PREPARE_ATTEMPTS` times, `PREPARE_RETRY_DELAY_MS` apart, to
    /// focus the target and place the cursor; the last failure is reported.
    fn prepare_pointer(&mut self, target: &ReliableTarget, x: i32, y: i32, Ghost(act): Ghost<Act>) -> (r: Result<(), String>)
        ensures
            final(self).platform == old(self).platform,
            extends(old(self).log@, final(self).log@),
            run(
                Stage::Prep { id: target.id_view(), title: target.title_view(), x, y, act, attempt: 1, k: 0 },
                added(old(self).log@, final(self).log@),
            ) == Some(
                match r {
                    Ok(()) => prepared(target.id_view(), target.title_view(), act),
                    Err(e) => Next::Fin(Err(e@)),
                },
            ),
    {
        let ghost l0 = self.log@;
        let ghost id = target.id_view();
        let ghost title = target.title_view();
        let ghost st0 = Stage::Prep { id, title, x, y, act, attempt: 1, k: 0 };
        proof {
            lemma_extends_refl(l0);
        }
        let mut attempt: usize = 1;
        loop
            invariant
                1 <= attempt <= PREPARE_ATTEMPTS,
                self.platform == old(self).platform,
                l0 == old(self).log@,
                id == target.id_view(),
                title == target.title_view(),
                st0 == (Stage::Prep { id, title, x, y, act, attempt: 1, k: 0 }),
                extends(l0, self.log@),
                run(st0, added(l0, self.log@)) == Some(
                    Next::Cont(Stage::Prep { id, title, x, y, act, attempt: attempt as int, k: 0 }),
                ),
            decreases PREPARE_ATTEMPTS - attempt,
        {
            let ghost la = self.log@;
            let once = self.prepare_pointer_once(target, x, y, Ghost(act), Ghost(attempt as int));
            proof {
                lemma_run_chain(st0, l0, la, self.log@, Stage::Prep { id, title, x, y, act, attempt: attempt as int, k: 0 });
            }
            match once {
                Ok(()) => return Ok(()),
                Err(error) => {
                    if attempt < PREPARE_ATTEMPTS {
                        let ghost lb = self.log@;
                        self.call_sleep(PREPARE_RETRY_DELAY_MS);
                        proof {
                            lemma_run_push(st0, l0, lb, self.log@.last());
                        }
                    } else {
                        return Err(phase("cursor preparation", target, error));
                    }
                },
            }
            attempt = attempt + 1;
        }
    }

    /// Focuses the target, moves the cursor to `(x, y)`, wiggles it by
    /// `POINTER_ARM_DELTA` so the game sees relative motion, syncs it back,
    /// lets the hover settle, and checks that the target kept the foreground
    /// and the cursor landed within `CURSOR_TOLERANCE`.
    fn prepare_pointer_once(
        &mut self,
        target: &ReliableTarget,
        x: i32,
        y: i32,
        Ghost(act): Ghost<Act>,
        Ghost(attempt): Ghost<int>,
    ) -> (r: Result<(), String>)
        ensures
            final(self).platform == old(self).platform,
            extends(old(self).log@, final(self).log@),
            run(
                Stage::Prep { id: target.id_view(), title: target.title_view(), x, y, act, attempt, k: 0 },
                added(old(self).log@, final(self).log@),
            ) == Some(
                match r {
                    Ok(()) => prepared(target.id_view(), target.title_view(), act),
                    Err(e) => attempt_failed(target.id_view(), target.title_view(), x, y, act, attempt, e@),
                },
            ),
    {
        let ghost l0 = self.log@;
        let ghost st0 = Stage::Prep { id: target.id_view(), title: target.title_view(), x, y, act, attempt, k: 0 };
        proof {
            lemma_extends_refl(l0);
        }
        let ghost mut cur = self.log@;
        match self.call_focus(&target.window) {
            Ok(()) => {},
            Err(e) => {
                proof {
                    lemma_run_push(st0, l0, cur, self.log@.last());
                }
                return Err(e);
            },
        }
        proof {
            lemma_run_push(st0, l0, cur, self.log@.last());
            cur = self.log@;
        }
        self.call_sleep(FOCUS_SETTLE_MS);
        proof {
            lemma_run_push(st0, l0, cur, self.log@.last());
            cur = self.log@;
        }
        if !self.call_is_foreground(&target.window) {
            proof {
                lemma_run_push(st0, l0, cur, self.log@.last());
            }
            return Err("Windows reported a different foreground window".to_owned());
        }
        proof {
            lemma_run_push(st0, l0, cur, self.log@.last());
            cur = self.log@;
        }
        match self.call_move_to(x, y) {
            Ok(()) => {},
            Err(e) => {
                proof {
                    lemma_run_push(st0, l0, cur, self.log@.last());
                }
                return Err(e);
            },
        }
        proof {
            lemma_run_push(st0, l0, cur, self.log@.last());
            cur = self.log@;
        }
        match self.call_move_relative(POINTER_ARM_DELTA, 0) {
            Ok(()) => {},
            Err(e) => {
                proof {
                    lemma_run_push(st0, l0, cur, self.log@.last());
                }
                return Err(e);
            },
        }
        proof {
            lemma_run_push(st0, l0, cur, self.log@.last());
            cur = self.log@;
        }
        self.call_sleep(POINTER_ARM_FRAME_MS);
        proof {
            lemma_run_push(st0, l0, cur, self.log@.last());
            cur = self.log@;
        }
        match self.call_move_relative(-POINTER_ARM_DELTA, 0) {
            Ok(()) => {},
            Err(e) => {
                proof {
                    lemma_run_push(st0, l0, cur, self.log@.last());
                }
                return Err(e);
            },
        }
        proof {
            lemma_run_push(st0, l0, cur, self.log@.last());
            cur = self.log@;
        }
        match self.call_sync_cursor(x, y) {
            Ok(()) => {},
            Err(e) => {
                proof {
                    lemma_run_push(st0, l0, cur, self.log@.last());
                }
                return Err(e);
            },
        }
        proof {
            lemma_run_push(st0, l0, cur, self.log@.last());
            cur = self.log@;
        }
        self.call_sleep(HOVER_SETTLE_MS);
        proof {
            lemma_run_push(st0, l0, cur, self.log@.last());
            cur = self.log@;
        }
        if !self.call_is_foreground(&target.window) {
            proof {
                lemma_run_push(st0, l0, cur, self.log@.last());
            }
            return Err("target lost foreground while positioning the cursor".to_owned());
        }
        proof {
            lemma_run_push(st0, l0, cur, self.log@.last());
            cur = self.log@;
        }
        let position = self.call_cursor_position();
        proof {
            lemma_run_push(st0, l0, cur, self.log@.last());
        }
        match position {
            Ok(actual) => check_cursor(actual, x, y),
            Err(e) => Err(e),
        }
    }

    /// Releases the left button; a failed release is sent once more and its
    /// first error reported.
    fn release_mouse(&mut self, target: &ReliableTarget, Ghost(act): Ghost<Act>, Ghost(kept): Ghost<bool>) -> (r: Result<(), String>)
        requires
            !(act is Key),
        ensures
            final(self).platform == old(self).platform,
            extends(old(self).log@, final(self).log@),
            run(
                Stage::Press { id: target.id_view(), title: target.title_view(), act, k: 3, kept, release: Ok(()) },
                added(old(self).log@, final(self).log@),
            ) == Some(after_release(target.id_view(), target.title_view(), act, kept, unit_view(r))),
    {
        let ghost l0 = self.log@;
        let ghost id = target.id_view();
        let ghost title = target.title_view();
        let ghost st0 = Stage::Press { id, title, act, k: 3, kept, release: Ok(()) };
        proof {
            lemma_extends_refl(l0);
        }
        match self.call_mouse_up() {
            Ok(()) => {
                proof {
                    lemma_run_push(st0, l0, l0, self.log@.last());
                }
                Ok(())
            },
            Err(error) => {
                proof {
                    lemma_run_push(st0, l0, l0, self.log@.last());
                }
                let ghost cur = self.log@;
                let _ = self.call_mouse_up();
                proof {
                    lemma_run_push(st0, l0, cur, self.log@.last());
                }
                Err(phase("mouse release", target, error))
            },
        }
    }

    /// Holds `key` (trimmed) for `PRESS_HOLD_MS`. A blank key is refused
    /// before anything is sent; a failed release is retried once; a target
    /// that lost the foreground is refocused and the key released again.
    fn press_key(&mut self, target: &ReliableTarget, key: &str) -> (r: Result<(), String>)
        ensures
            final(self).platform == old(self).platform,
            extends(old(self).log@, final(self).log@),
            trim_end(trim_start(key@)).len() == 0 ==> (r matches Err(e) && e@ == no_key_message()) && final(self).log@ == old(self).log@,
            trim_end(trim_start(key@)).len() > 0 ==> run(
                Stage::Press {
                    id: target.id_view(),
                    title: target.title_view(),
                    act: Act::Key(trim_end(trim_start(key@))),
                    k: 0,
                    kept: true,
                    release: Ok(()),
                },
                added(old(self).log@, final(self).log@),
            ) == Some(Next::Fin(unit_view(r))),
    {
        let ghost l0 = self.log@;
        proof {
            lemma_extends_refl(l0);
        }
        let trimmed = string_of(&trim_chars(&chars_of(key)));
        if trimmed.as_str().unicode_len() == 0 {
            let message = "key press failed: no key is configured".to_owned();
            proof {
                reveal_strlit("key press failed: no key is configured");
            }
            return Err(message);
        }
        let key = trimmed.as_str();
        let ghost id = target.id_view();
        let ghost title = target.title_view();
        let ghost act = Act::Key(key@);
        let ghost st0 = Stage::Press { id, title, act, k: 0, kept: true, release: Ok(()) };
        let ghost mut cur = self.log@;
        match self.call_key_down(key) {
            Ok(()) => {},
            Err(error) => {
                proof {
                    lemma_run_push(st0, l0, cur, self.log@.last());
                }
                return Err(phase("key press", target, error));
            },
        }
        proof {
            lemma_run_push(st0, l0, cur, self.log@.last());
            cur = self.log@;
        }
        self.call_sleep(PRESS_HOLD_MS);
        proof {
            lemma_run_push(st0, l0, cur, self.log@.last());
            cur = self.log@;
        }
        let kept_focus = self.call_is_foreground(&target.window);
        proof {
            lemma_run_push(st0, l0, cur, self.log@.last());
            cur = self.log@;
        }
        let release = match self.call_key_up(key) {
            Ok(()) => {
                proof {
                    lemma_run_push(st0, l0, cur, self.log@.last());
                    cur = self.log@;
                }
                Ok(())
            },
            Err(error) => {
                proof {
                    lemma_run_push(st0, l0, cur, self.log@.last());
                    cur = self.log@;
                }
                let _ = self.call_key_up(key);
                proof {
                    lemma_run_push(st0, l0, cur, self.log@.last());
                    cur = self.log@;
                }
                Err(phase("key release", target, error))
            },
        };
        if !kept_focus {
            let _ = self.call_focus(&target.window);
            proof {
                lemma_run_push(st0, l0, cur, self.log@.last());
                cur = self.log@;
            }
            let _ = self.call_key_up(key);
            proof {
                lemma_run_push(st0, l0, cur, self.log@.last());
            }
            return Err(phase("key gesture", target, "target lost foreground while the key was held".to_owned()));
        }
        release
    }
}

proof fn lemma_extends_refl(l: Seq<(Call, Reply)>)
    ensures
        extends(l, l),
        added(l, l) == Seq::<(Call, Reply)>::empty(),
{
    assert(l.subrange(0, l.len() as int) =~= l);
    assert(added(l, l) =~= Seq::<(Call, Reply)>::empty());
}

} // verus!
