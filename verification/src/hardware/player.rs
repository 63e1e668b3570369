//! Playback decisions: how many repetitions run, which macros are safe to
//! replay, and which recorded resolution the coordinates are scaled from.

use vstd::prelude::*;
use crate::hardware::input::resolve_vk_spec;
use crate::hardware::input::resolve_vk;
use crate::models::macro_def::{InputEventType, MacroEvent};
use crate::text::{ascii_lower, lowercase, numeral, push_decimal, push_str, same_text, string_of, text_less, text_lt};
use crate::text::{lemma_text_less_irreflexive, lemma_text_less_total, lemma_text_less_transitive};

verus! {

/// How a playback run ended.
#[derive(Debug, Clone, PartialEq, Eq)]
pub enum PlaybackOutcome {
    Completed { iterations: u64 },
    Stopped,
    Failed(String),
}

impl PlaybackOutcome {
    /// The history status this outcome is recorded under.
    pub fn status(&self) -> (s: &'static str)
        ensures
            self is Completed ==> s@ == "completed"@,
            self is Stopped ==> s@ == "stopped"@,
            self is Failed ==> s@ == "failed"@,
    {
        match self {
            PlaybackOutcome::Completed { .. } => "completed",
            PlaybackOutcome::Stopped => "stopped",
            PlaybackOutcome::Failed(_) => "failed",
        }
    }
}

/// Whether repetition `iteration` (counted from 1) runs: a positive
/// `loop_count` plays exactly that many times whatever the loop flag says;
/// otherwise the macro plays once, or forever when looping is on.
pub open spec fn should_run_spec(loop_count: i64, loop_enabled: bool, iteration: u64) -> bool {
    if loop_count > 0 {
        iteration <= loop_count
    } else {
        loop_enabled || iteration <= 1
    }
}

pub fn should_run_iteration(loop_count: i64, loop_enabled: bool, iteration: u64) -> (b: bool)
    ensures
        b == should_run_spec(loop_count, loop_enabled, iteration),
{
    if loop_count > 0 {
        iteration <= loop_count as u64
    } else {
        loop_enabled || iteration <= 1
    }
}

/// An explicit press or release.
pub open spec fn is_edge(t: InputEventType) -> bool {
    t == InputEventType::MouseDown || t == InputEventType::MouseUp
}

/// Whether some event is an explicit button press or release; legacy
/// synthetic clicks are then skipped on replay.
pub fn has_button_edges(events: &[MacroEvent]) -> (b: bool)
    ensures
        b == exists|i: int| 0 <= i < events@.len() && is_edge(#[trigger] events@[i].event_type),
{
    let mut i: usize = 0;
    while i < events.len()
        invariant
            i <= events@.len(),
            forall|j: int| 0 <= j < i ==> !is_edge(#[trigger] events@[j].event_type),
        decreases events@.len() - i,
    {
        let t = events[i].event_type;
        if t == InputEventType::MouseDown || t == InputEventType::MouseUp {
            assert(is_edge(events@[i as int].event_type));
            return true;
        }
        i = i + 1;
    }
    false
}

/// The button names replay can press, ignoring ASCII case.
pub open spec fn valid_button_spec(button: Seq<char>) -> bool {
    let k = ascii_lower(button);
    ||| k == "left"@
    ||| k == "primary"@
    ||| k == "right"@
    ||| k == "secondary"@
    ||| k == "middle"@
    ||| k == "center"@
    ||| k == "x1"@
    ||| k == "x2"@
}

pub fn valid_button(button: &str) -> (b: bool)
    ensures
        b == valid_button_spec(button@),
{
    let k = lowercase(button);
    same_text(&k, "left") || same_text(&k, "primary") || same_text(&k, "right") || same_text(
        &k,
        "secondary",
    ) || same_text(&k, "middle") || same_text(&k, "center") || same_text(&k, "x1") || same_text(
        &k,
        "x2",
    )
}

/// A mouse button event: a click, press or release.
pub open spec fn uses_button(t: InputEventType) -> bool {
    t == InputEventType::MouseClick || t == InputEventType::MouseDown || t == InputEventType::MouseUp
}

/// A key event: a press-and-release, press or release.
pub open spec fn uses_key(t: InputEventType) -> bool {
    t == InputEventType::KeyPress || t == InputEventType::KeyDown || t == InputEventType::KeyUp
}

/// Whether replay can perform `e`: its button, or its key, is one it knows.
pub open spec fn event_ok(e: MacroEvent) -> bool {
    &&& uses_button(e.event_type) ==> valid_button_spec(e.button@)
    &&& uses_key(e.event_type) ==> resolve_vk_spec(e.key@) is Some
}

/// Why a macro cannot be replayed.
#[derive(Debug, Clone, Copy, PartialEq, Eq, Structural)]
pub enum PlaybackError {
    /// The target resolution has a zero side.
    ZeroResolution,
    /// Legacy clicks and explicit press/release edges in one macro.
    MixedClickEncodings,
    /// The event at `index` names a mouse button replay does not know.
    UnsupportedButton { index: usize },
    /// The event at `index` names a key replay cannot press.
    UnsupportedKey { index: usize },
}

/// Whether the macro mixes legacy clicks with explicit edges.
pub open spec fn mixes_clicks(events: Seq<MacroEvent>) -> bool {
    &&& exists|i: int| 0 <= i < events.len() && is_edge(#[trigger] events[i].event_type)
    &&& exists|i: int|
        0 <= i < events.len() && (#[trigger] events[i].event_type) == InputEventType::MouseClick
}

/// The preflight check on a macro's events and the target resolution: the
/// first failing check, in this order, is reported.
pub fn validate_inputs(events: &[MacroEvent], target_resolution: (u32, u32)) -> (r: Result<
    (),
    PlaybackError,
>)
    ensures
        r == Ok::<(), PlaybackError>(()) <==> (target_resolution.0 != 0 && target_resolution.1 != 0
            && !mixes_clicks(events@) && forall|i: int|
            0 <= i < events@.len() ==> event_ok(#[trigger] events@[i])),
        r == Err::<(), PlaybackError>(PlaybackError::ZeroResolution) <==> (target_resolution.0 == 0
            || target_resolution.1 == 0),
        r == Err::<(), PlaybackError>(PlaybackError::MixedClickEncodings) <==> (target_resolution.0
            != 0 && target_resolution.1 != 0 && mixes_clicks(events@)),
        forall|k: usize|
            r == Err::<(), PlaybackError>(PlaybackError::UnsupportedButton { index: k }) <==> {
                &&& target_resolution.0 != 0 && target_resolution.1 != 0
                &&& !mixes_clicks(events@)
                &&& k < events@.len()
                &&& forall|j: int| 0 <= j < k ==> event_ok(#[trigger] events@[j])
                &&& uses_button(events@[k as int].event_type)
                &&& !valid_button_spec(events@[k as int].button@)
            },
        forall|k: usize|
            r == Err::<(), PlaybackError>(PlaybackError::UnsupportedKey { index: k }) <==> {
                &&& target_resolution.0 != 0 && target_resolution.1 != 0
                &&& !mixes_clicks(events@)
                &&& k < events@.len()
                &&& forall|j: int| 0 <= j < k ==> event_ok(#[trigger] events@[j])
                &&& uses_key(events@[k as int].event_type)
                &&& resolve_vk_spec(events@[k as int].key@) is None
            },
{
    if target_resolution.0 == 0 || target_resolution.1 == 0 {
        return Err(PlaybackError::ZeroResolution);
    }
    if has_button_edges(events) {
        let mut i: usize = 0;
        while i < events.len()
            invariant
                i <= events@.len(),
                target_resolution.0 != 0 && target_resolution.1 != 0,
                exists|j: int| 0 <= j < events@.len() && is_edge(#[trigger] events@[j].event_type),
                forall|j: int|
                    0 <= j < i ==> (#[trigger] events@[j].event_type) != InputEventType::MouseClick,
            decreases events@.len() - i,
        {
            if events[i].event_type == InputEventType::MouseClick {
                assert(events@[i as int].event_type == InputEventType::MouseClick);
                return Err(PlaybackError::MixedClickEncodings);
            }
            i = i + 1;
        }
    }
    let mut i: usize = 0;
    while i < events.len()
        invariant
            i <= events@.len(),
            target_resolution.0 != 0 && target_resolution.1 != 0,
            !mixes_clicks(events@),
            forall|j: int| 0 <= j < i ==> event_ok(#[trigger] events@[j]),
        decreases events@.len() - i,
    {
        let t = events[i].event_type;
        if (t == InputEventType::MouseClick || t == InputEventType::MouseDown || t
            == InputEventType::MouseUp) && !valid_button(events[i].button.as_str()) {
            return Err(PlaybackError::UnsupportedButton { index: i });
        }
        if (t == InputEventType::KeyPress || t == InputEventType::KeyDown || t
            == InputEventType::KeyUp) && resolve_vk(events[i].key.as_str()).is_none() {
            return Err(PlaybackError::UnsupportedKey { index: i });
        }
        i = i + 1;
    }
    Ok(())
}

/// Events that must not fire late: presses, releases, clicks, keys and the
/// wheel.
pub fn is_critical(event_type: InputEventType) -> (b: bool)
    ensures
        b == (uses_button(event_type) || uses_key(event_type) || event_type
            == InputEventType::Scroll),
{
    match event_type {
        InputEventType::MouseClick
        | InputEventType::MouseDown
        | InputEventType::MouseUp
        | InputEventType::KeyPress
        | InputEventType::KeyDown
        | InputEventType::KeyUp
        | InputEventType::Scroll => true,
        _ => false,
    }
}

/// The largest `x` among the events, and 0 when none is positive.
pub open spec fn max_x(events: Seq<MacroEvent>) -> int
    decreases events.len(),
{
    if events.len() == 0 {
        0
    } else {
        let m = max_x(events.drop_last());
        if events.last().x > m {
            events.last().x as int
        } else {
            m
        }
    }
}

/// The largest `y` among the events, and 0 when none is positive.
pub open spec fn max_y(events: Seq<MacroEvent>) -> int
    decreases events.len(),
{
    if events.len() == 0 {
        0
    } else {
        let m = max_y(events.drop_last());
        if events.last().y > m {
            events.last().y as int
        } else {
            m
        }
    }
}

/// The resolution to scale from. A recorded resolution that does not bound
/// its own coordinates on an axis (a coordinate reaches the recorded size) was
/// read in scaled-down logical pixels while the coordinates are physical; on
/// that axis the target is used instead, so the replay runs 1:1.
pub fn effective_record_resolution(
    record_resolution: (u32, u32),
    target_resolution: (u32, u32),
    events: &[MacroEvent],
) -> (r: (u32, u32))
    ensures
        r.0 == if max_x(events@) >= record_resolution.0 {
            target_resolution.0
        } else {
            record_resolution.0
        },
        r.1 == if max_y(events@) >= record_resolution.1 {
            target_resolution.1
        } else {
            record_resolution.1
        },
{
    let mut mx: i64 = 0;
    let mut my: i64 = 0;
    let mut i: usize = 0;
    while i < events.len()
        invariant
            i <= events@.len(),
            mx == max_x(events@.take(i as int)),
            my == max_y(events@.take(i as int)),
        decreases events@.len() - i,
    {
        proof {
            assert(events@.take(i as int + 1).drop_last() == events@.take(i as int));
        }
        if events[i].x > mx {
            mx = events[i].x;
        }
        if events[i].y > my {
            my = events[i].y;
        }
        i = i + 1;
    }
    proof {
        assert(events@.take(i as int) == events@);
    }
    let rw = if mx >= record_resolution.0 as i64 {
        target_resolution.0
    } else {
        record_resolution.0
    };
    let rh = if my >= record_resolution.1 as i64 {
        target_resolution.1
    } else {
        record_resolution.1
    };
    (rw, rh)
}


// ── Held inputs ─────────────────────────────────────────────────────────────

/// Distinct texts in increasing order.
pub open spec fn sorted_texts(s: Seq<Seq<char>>) -> bool {
    forall|i: int, j: int| 0 <= i < j < s.len() ==> text_less(#[trigger] s[i], #[trigger] s[j])
}

/// The texts held in a vector of character vectors.
pub open spec fn texts_of(v: Seq<Vec<char>>) -> Seq<Seq<char>> {
    v.map_values(|e: Vec<char>| e@)
}

/// Adds `x` to a sorted set of texts, keeping it sorted.
fn insert_sorted(v: &mut Vec<Vec<char>>, x: Vec<char>)
    requires
        sorted_texts(texts_of(old(v)@)),
    ensures
        sorted_texts(texts_of(final(v)@)),
        with_text(texts_of(old(v)@), texts_of(final(v)@), x@),
{
    let ghost old_t = texts_of(v@);
    let mut p: usize = 0;
    while p < v.len() && text_lt(&v[p], &x)
        invariant
            p <= v@.len(),
            old_t == texts_of(v@),
            v@ == old(v)@,
            forall|j: int| 0 <= j < p ==> text_less(#[trigger] old_t[j], x@),
        decreases v@.len() - p,
    {
        p = p + 1;
    }
    if p < v.len() && !text_lt(&x, &v[p]) {
        proof {
            if old_t[p as int] != x@ {
                lemma_text_less_total(old_t[p as int], x@);
            }
            assert(old_t[p as int] == x@);
        }
        return;
    }
    let ghost xv = x@;
    v.insert(p, x);
    proof {
        let t = texts_of(v@);
        assert(t =~= old_t.insert(p as int, xv));
        if p < old_t.len() {
            if old_t[p as int] != xv {
                lemma_text_less_total(old_t[p as int], xv);
            } else {
                lemma_text_less_irreflexive(xv);
            }
            assert(text_less(xv, old_t[p as int]));
        }
        assert forall|i: int, j: int| 0 <= i < j < t.len() implies text_less(#[trigger] t[i], #[trigger] t[j]) by {
            if j < p {
            } else if j == p {
            } else if i < p {
                if j - 1 > p {
                    lemma_text_less_transitive(xv, old_t[p as int], old_t[j - 1]);
                }
                assert(text_less(xv, t[j]));
                lemma_text_less_transitive(t[i], xv, t[j]);
            } else if i == p {
                if j - 1 > p {
                    lemma_text_less_transitive(xv, old_t[p as int], old_t[j - 1]);
                }
            } else {
            }
        }
        assert forall|u: Seq<char>| t.contains(u) <==> (old_t.contains(u) || u == xv) by {
            if t.contains(u) {
                let k = choose|k: int| 0 <= k < t.len() && t[k] == u;
                if k < p {
                    assert(old_t[k] == u);
                } else if k > p {
                    assert(old_t[k - 1] == u);
                }
            }
            if old_t.contains(u) {
                let k = choose|k: int| 0 <= k < old_t.len() && old_t[k] == u;
                if k < p {
                    assert(t[k] == u);
                } else {
                    assert(t[k + 1] == u);
                }
            }
            if u == xv {
                assert(t[p as int] == u);
            }
        }
    }
}

/// Takes `x` out of a sorted set of texts.
fn remove_sorted(v: &mut Vec<Vec<char>>, x: &Vec<char>)
    requires
        sorted_texts(texts_of(old(v)@)),
    ensures
        sorted_texts(texts_of(final(v)@)),
        without_text(texts_of(old(v)@), texts_of(final(v)@), x@),
{
    let ghost old_t = texts_of(v@);
    let mut p: usize = 0;
    while p < v.len() && text_lt(&v[p], x)
        invariant
            p <= v@.len(),
            old_t == texts_of(v@),
            v@ == old(v)@,
            forall|j: int| 0 <= j < p ==> text_less(#[trigger] old_t[j], x@),
        decreases v@.len() - p,
    {
        p = p + 1;
    }
    if p < v.len() && !text_lt(x, &v[p]) {
        proof {
            if old_t[p as int] != x@ {
                lemma_text_less_total(old_t[p as int], x@);
            }
            assert(old_t[p as int] == x@);
        }
        v.remove(p);
        proof {
            let t = texts_of(v@);
            assert(t =~= old_t.remove(p as int));
            assert forall|i: int, j: int| 0 <= i < j < t.len() implies text_less(#[trigger] t[i], #[trigger] t[j]) by {
                if i < p && j >= p {
                    assert(t[j] == old_t[j + 1]);
                } else if i >= p {
                    assert(t[i] == old_t[i + 1]);
                }
            }
            assert forall|u: Seq<char>| t.contains(u) <==> (old_t.contains(u) && u != x@) by {
                if t.contains(u) {
                    let k = choose|k: int| 0 <= k < t.len() && t[k] == u;
                    if k < p {
                        assert(old_t[k] == u);
                        assert(text_less(u, x@));
                        lemma_text_less_irreflexive(u);
                    } else {
                        assert(old_t[k + 1] == u);
                        assert(text_less(old_t[p as int], old_t[k + 1]));
                        lemma_text_less_irreflexive(u);
                    }
                }
                if old_t.contains(u) && u != x@ {
                    let k = choose|k: int| 0 <= k < old_t.len() && old_t[k] == u;
                    if k < p {
                        assert(t[k] == u);
                    } else {
                        assert(k != p);
                        assert(t[k - 1] == u);
                    }
                }
            }
        }
    } else {
        proof {
            assert forall|u: Seq<char>| old_t.contains(u) implies u != x@ by {
                let k = choose|k: int| 0 <= k < old_t.len() && old_t[k] == u;
                if k < p {
                    lemma_text_less_irreflexive(u);
                } else {
                    if old_t[p as int] != x@ {
                        lemma_text_less_total(old_t[p as int], x@);
                    }
                    if k > p {
                        assert(text_less(old_t[p as int], old_t[k]));
                        if u == x@ {
                            lemma_text_less_transitive(x@, old_t[p as int], u);
                            lemma_text_less_irreflexive(u);
                        }
                    } else if u == x@ {
                        lemma_text_less_irreflexive(u);
                    }
                }
            }
        }
    }
}

/// `after` holds what `before` held, and `x`.
pub open spec fn with_text(before: Seq<Seq<char>>, after: Seq<Seq<char>>, x: Seq<char>) -> bool {
    forall|t: Seq<char>| after.contains(t) <==> (before.contains(t) || t == x)
}

/// `after` holds what `before` held, except `x`.
pub open spec fn without_text(before: Seq<Seq<char>>, after: Seq<Seq<char>>, x: Seq<char>) -> bool {
    forall|t: Seq<char>| after.contains(t) <==> (before.contains(t) && t != x)
}

/// The mouse buttons and keys a replay holds down, by lower-cased name, so
/// that whatever is still held when playback ends can be let go. Each set is
/// kept in increasing order, the order in which it is released.
pub struct HeldInputs {
    buttons: Vec<Vec<char>>,
    keys: Vec<Vec<char>>,
}

/// The texts of a vector of strings.
pub open spec fn string_texts(v: Seq<String>) -> Seq<Seq<char>> {
    v.map_values(|s: String| s@)
}

impl HeldInputs {
    /// The held buttons, in increasing order.
    pub closed spec fn button_names(&self) -> Seq<Seq<char>> {
        texts_of(self.buttons@)
    }

    /// The held keys, in increasing order.
    pub closed spec fn key_names(&self) -> Seq<Seq<char>> {
        texts_of(self.keys@)
    }

    /// Both sets are sorted without repeats.
    pub open spec fn wf(&self) -> bool {
        sorted_texts(self.button_names()) && sorted_texts(self.key_names())
    }

    /// Nothing held.
    pub fn new() -> (h: Self)
        ensures
            h.wf(),
            h.button_names().len() == 0,
            h.key_names().len() == 0,
    {
        let h = HeldInputs { buttons: Vec::new(), keys: Vec::new() };
        proof {
            assert(texts_of(h.buttons@) =~= Seq::<Seq<char>>::empty());
            assert(texts_of(h.keys@) =~= Seq::<Seq<char>>::empty());
        }
        h
    }

    /// A button went down.
    pub fn hold_button(&mut self, button: &str)
        requires
            old(self).wf(),
        ensures
            final(self).wf(),
            final(self).key_names() == old(self).key_names(),
            with_text(old(self).button_names(), final(self).button_names(), ascii_lower(button@)),
    {
        insert_sorted(&mut self.buttons, lowercase(button));
    }

    /// A button came up.
    pub fn release_button(&mut self, button: &str)
        requires
            old(self).wf(),
        ensures
            final(self).wf(),
            final(self).key_names() == old(self).key_names(),
            without_text(old(self).button_names(), final(self).button_names(), ascii_lower(button@)),
    {
        remove_sorted(&mut self.buttons, &lowercase(button));
    }

    /// A key went down.
    pub fn hold_key(&mut self, key: &str)
        requires
            old(self).wf(),
        ensures
            final(self).wf(),
            final(self).button_names() == old(self).button_names(),
            with_text(old(self).key_names(), final(self).key_names(), ascii_lower(key@)),
    {
        insert_sorted(&mut self.keys, lowercase(key));
    }

    /// A key came up.
    pub fn release_key(&mut self, key: &str)
        requires
            old(self).wf(),
        ensures
            final(self).wf(),
            final(self).button_names() == old(self).button_names(),
            without_text(old(self).key_names(), final(self).key_names(), ascii_lower(key@)),
    {
        remove_sorted(&mut self.keys, &lowercase(key));
    }

    /// Records a controller call that went through: a button or key that
    /// went down is held, one that came up is not; other calls change
    /// nothing.
    pub fn note_delivered(&mut self, input: &ReplayInput)
        requires
            old(self).wf(),
        ensures
            final(self).wf(),
            match *input {
                ReplayInput::ButtonDown { button } => with_text(
                    old(self).button_names(),
                    final(self).button_names(),
                    ascii_lower(button@),
                ) && final(self).key_names() == old(self).key_names(),
                ReplayInput::ButtonUp { button } => without_text(
                    old(self).button_names(),
                    final(self).button_names(),
                    ascii_lower(button@),
                ) && final(self).key_names() == old(self).key_names(),
                ReplayInput::KeyDown { key } => with_text(
                    old(self).key_names(),
                    final(self).key_names(),
                    ascii_lower(key@),
                ) && final(self).button_names() == old(self).button_names(),
                ReplayInput::KeyUp { key } => without_text(
                    old(self).key_names(),
                    final(self).key_names(),
                    ascii_lower(key@),
                ) && final(self).button_names() == old(self).button_names(),
                _ => final(self).button_names() == old(self).button_names() && final(self).key_names()
                    == old(self).key_names(),
            },
            input matches ReplayInput::KeyDown { key } ==> final(self).key_names().contains(
                ascii_lower(key@),
            ),
            input matches ReplayInput::ButtonDown { button } ==> final(self).button_names().contains(
                ascii_lower(button@),
            ),
    {
        match input {
            ReplayInput::ButtonDown { button } => self.hold_button(button.as_str()),
            ReplayInput::ButtonUp { button } => self.release_button(button.as_str()),
            ReplayInput::KeyDown { key } => self.hold_key(key.as_str()),
            ReplayInput::KeyUp { key } => self.release_key(key.as_str()),
            _ => {},
        }
    }

    /// Everything held, to be released: the keys, then the buttons, each in
    /// increasing order. Nothing is held afterwards.
    pub fn take_all(&mut self) -> (r: (Vec<String>, Vec<String>))
        requires
            old(self).wf(),
        ensures
            final(self).wf(),
            final(self).button_names().len() == 0,
            final(self).key_names().len() == 0,
            string_texts(r.0@) == old(self).key_names(),
            string_texts(r.1@) == old(self).button_names(),
    {
        let keys = strings_of(&self.keys);
        let buttons = strings_of(&self.buttons);
        self.keys = Vec::new();
        self.buttons = Vec::new();
        proof {
            assert(texts_of(self.buttons@) =~= Seq::<Seq<char>>::empty());
            assert(texts_of(self.keys@) =~= Seq::<Seq<char>>::empty());
        }
        (keys, buttons)
    }
}

/// The texts of `v` as owned strings, in order.
fn strings_of(v: &Vec<Vec<char>>) -> (r: Vec<String>)
    ensures
        string_texts(r@) == texts_of(v@),
{
    let mut r: Vec<String> = Vec::new();
    let mut i: usize = 0;
    while i < v.len()
        invariant
            i <= v@.len(),
            r@.len() == i,
            string_texts(r@) == texts_of(v@).take(i as int),
        decreases v@.len() - i,
    {
        let s = string_of(&v[i]);
        r.push(s);
        proof {
            assert(string_texts(r@) =~= texts_of(v@).take(i as int + 1));
        }
        i = i + 1;
    }
    proof {
        assert(texts_of(v@).take(i as int) =~= texts_of(v@));
    }
    r
}

// ── The replay of one event ─────────────────────────────────────────────────

/// One call the replay makes on the input controller.
#[derive(Debug, Clone, PartialEq, Eq)]
pub enum ReplayInput {
    /// Put the cursor at an absolute point.
    MoveTo { x: i32, y: i32 },
    /// Move the cursor by a relative delta (raw input sees the motion).
    MoveRelative { dx: i32, dy: i32 },
    /// Put the cursor at a point without a relative delta.
    SyncCursor { x: i32, y: i32 },
    ButtonDown { button: String },
    ButtonUp { button: String },
    KeyDown { key: String },
    KeyUp { key: String },
    /// Turn the wheel by `delta` at a point.
    Scroll { delta: i32, x: i32, y: i32 },
    /// Pause for the event's duration (divided by the playback speed).
    Wait { duration_us: u64 },
}

/// The controller calls that replay `e`, whose position scaled to the target
/// is `p`, when the previous replayed point was `prev`. A move replays as a
/// relative delta from the previous point (none when it did not move), then
/// resynchronises the cursor; the first move places the cursor outright.
/// Button events resynchronise the cursor before the button.
pub open spec fn event_inputs(e: MacroEvent, p: (i32, i32), prev: Option<(i32, i32)>) -> Seq<ReplayInput> {
    match e.event_type {
        InputEventType::MouseMove => match prev {
            Some(q) => (if p != q {
                seq![ReplayInput::MoveRelative { dx: (p.0 - q.0) as i32, dy: (p.1 - q.1) as i32 }]
            } else {
                Seq::empty()
            }) + seq![ReplayInput::SyncCursor { x: p.0, y: p.1 }],
            None => seq![ReplayInput::MoveTo { x: p.0, y: p.1 }],
        },
        InputEventType::MouseDown => seq![
            ReplayInput::SyncCursor { x: p.0, y: p.1 },
            ReplayInput::ButtonDown { button: e.button },
        ],
        InputEventType::MouseUp => seq![
            ReplayInput::SyncCursor { x: p.0, y: p.1 },
            ReplayInput::ButtonUp { button: e.button },
        ],
        InputEventType::MouseClick => seq![
            ReplayInput::SyncCursor { x: p.0, y: p.1 },
            ReplayInput::ButtonDown { button: e.button },
            ReplayInput::ButtonUp { button: e.button },
        ],
        InputEventType::KeyPress => seq![
            ReplayInput::KeyDown { key: e.key },
            ReplayInput::KeyUp { key: e.key },
        ],
        InputEventType::KeyDown => seq![ReplayInput::KeyDown { key: e.key }],
        InputEventType::KeyUp => seq![ReplayInput::KeyUp { key: e.key }],
        InputEventType::Scroll => seq![ReplayInput::Scroll { delta: e.delta as i32, x: p.0, y: p.1 }],
        InputEventType::Wait => if e.duration_us > 0 {
            seq![ReplayInput::Wait { duration_us: e.duration_us }]
        } else {
            Seq::empty()
        },
        InputEventType::Checkpoint => Seq::empty(),
    }
}

/// A key-down event plans exactly one controller call, its key going down,
/// and never lets a key up: the key stays held until its own key-up event.
pub proof fn lemma_key_down_plans_only_the_press(e: MacroEvent, p: (i32, i32), prev: Option<(i32, i32)>)
    requires
        e.event_type == InputEventType::KeyDown,
    ensures
        event_inputs(e, p, prev).len() == 1,
        event_inputs(e, p, prev)[0] == (ReplayInput::KeyDown { key: e.key }),
        forall|i: int|
            0 <= i < event_inputs(e, p, prev).len() ==> !(#[trigger] event_inputs(e, p, prev)[i] is KeyUp),
{
}

/// A key press lets go of the key it pressed, right after pressing it; a
/// click puts the cursor on its point, then presses and releases its button.
/// A key-up event only lets its key up.
pub proof fn lemma_press_and_click_release_what_they_press(
    e: MacroEvent,
    p: (i32, i32),
    prev: Option<(i32, i32)>,
)
    ensures
        e.event_type == InputEventType::KeyPress ==> event_inputs(e, p, prev) == seq![
            (ReplayInput::KeyDown { key: e.key }),
            (ReplayInput::KeyUp { key: e.key }),
        ],
        e.event_type == InputEventType::KeyUp ==> event_inputs(e, p, prev) == seq![
            (ReplayInput::KeyUp { key: e.key }),
        ],
        e.event_type == InputEventType::MouseClick ==> event_inputs(e, p, prev) == seq![
            (ReplayInput::SyncCursor { x: p.0, y: p.1 }),
            (ReplayInput::ButtonDown { button: e.button }),
            (ReplayInput::ButtonUp { button: e.button }),
        ],
{
}

/// The previous replayed point after `e`: mouse moves and button events
/// move it to their point, anything else leaves it.
pub open spec fn point_after(t: InputEventType, p: (i32, i32), prev: Option<(i32, i32)>) -> Option<(i32, i32)> {
    match t {
        InputEventType::MouseMove
        | InputEventType::MouseDown
        | InputEventType::MouseUp
        | InputEventType::MouseClick => Some(p),
        _ => prev,
    }
}

/// The controller calls for one event (see [`event_inputs`]) and the
/// previous point after it.
pub fn plan_event(event: &MacroEvent, point: (i32, i32), prev: Option<(i32, i32)>) -> (r: (
    Vec<ReplayInput>,
    Option<(i32, i32)>,
))
    requires
        prev matches Some(q) ==> (i32::MIN <= point.0 - q.0 <= i32::MAX && i32::MIN <= point.1 - q.1
            <= i32::MAX),
    ensures
        r.0@ == event_inputs(*event, point, prev),
        r.1 == point_after(event.event_type, point, prev),
        event.event_type == InputEventType::KeyDown ==> r.0@.len() == 1 && r.0@[0]
            == (ReplayInput::KeyDown { key: event.key }),
{
    let (x, y) = point;
    let mut out: Vec<ReplayInput> = Vec::new();
    match event.event_type {
        InputEventType::MouseMove => {
            match prev {
                Some((px, py)) => {
                    if x != px || y != py {
                        out.push(ReplayInput::MoveRelative { dx: x - px, dy: y - py });
                    }
                    out.push(ReplayInput::SyncCursor { x, y });
                },
                None => {
                    out.push(ReplayInput::MoveTo { x, y });
                },
            }
        },
        InputEventType::MouseDown => {
            out.push(ReplayInput::SyncCursor { x, y });
            out.push(ReplayInput::ButtonDown { button: event.button.clone() });
        },
        InputEventType::MouseUp => {
            out.push(ReplayInput::SyncCursor { x, y });
            out.push(ReplayInput::ButtonUp { button: event.button.clone() });
        },
        InputEventType::MouseClick => {
            out.push(ReplayInput::SyncCursor { x, y });
            out.push(ReplayInput::ButtonDown { button: event.button.clone() });
            out.push(ReplayInput::ButtonUp { button: event.button.clone() });
        },
        InputEventType::KeyPress => {
            out.push(ReplayInput::KeyDown { key: event.key.clone() });
            out.push(ReplayInput::KeyUp { key: event.key.clone() });
        },
        InputEventType::KeyDown => {
            out.push(ReplayInput::KeyDown { key: event.key.clone() });
        },
        InputEventType::KeyUp => {
            out.push(ReplayInput::KeyUp { key: event.key.clone() });
        },
        InputEventType::Scroll => {
            out.push(ReplayInput::Scroll { delta: event.delta as i32, x, y });
        },
        InputEventType::Wait => {
            if event.duration_us > 0 {
                out.push(ReplayInput::Wait { duration_us: event.duration_us });
            }
        },
        InputEventType::Checkpoint => {},
    }
    proof {
        assert(out@ =~= event_inputs(*event, point, prev));
    }
    let next = match event.event_type {
        InputEventType::MouseMove
        | InputEventType::MouseDown
        | InputEventType::MouseUp
        | InputEventType::MouseClick => Some(point),
        _ => prev,
    };
    (out, next)
}

// ── The course of a playback ────────────────────────────────────────────────

/// How late a press, release, key or wheel event may fire before playback
/// stops rather than send a catch-up input.
pub const MAX_CRITICAL_LATENESS_NS: u64 = 250_000_000;

/// What the playback loop does with the next event.
#[derive(Debug, Clone, Copy, PartialEq, Eq, Structural)]
pub enum EventStep {
    /// A legacy click in a macro with explicit press and release edges.
    SkipLegacyClick,
    /// A critical event too late to send: playback fails.
    TooLate,
    /// A checkpoint with a detector and a configuration: run it.
    RunCheckpoint,
    /// A checkpoint that cannot run: it is consumed with no effect.
    Consume,
    /// Send the event's inputs.
    Deliver,
}

pub open spec fn event_step_spec(
    t: InputEventType,
    button_edges: bool,
    lateness_ns: u64,
    checkpoint_ready: bool,
) -> EventStep {
    if button_edges && t == InputEventType::MouseClick {
        EventStep::SkipLegacyClick
    } else if (uses_button(t) || uses_key(t) || t == InputEventType::Scroll) && lateness_ns
        > MAX_CRITICAL_LATENESS_NS {
        EventStep::TooLate
    } else if t == InputEventType::Checkpoint {
        if checkpoint_ready {
            EventStep::RunCheckpoint
        } else {
            EventStep::Consume
        }
    } else {
        EventStep::Deliver
    }
}

/// What to do with an event of type `t`, `lateness_ns` behind its time;
/// `checkpoint_ready` says a detector and a configuration are there.
pub fn event_step(t: InputEventType, button_edges: bool, lateness_ns: u64, checkpoint_ready: bool) -> (s:
    EventStep)
    ensures
        s == event_step_spec(t, button_edges, lateness_ns, checkpoint_ready),
{
    if button_edges && t == InputEventType::MouseClick {
        EventStep::SkipLegacyClick
    } else if is_critical(t) && lateness_ns > MAX_CRITICAL_LATENESS_NS {
        EventStep::TooLate
    } else if t == InputEventType::Checkpoint {
        if checkpoint_ready {
            EventStep::RunCheckpoint
        } else {
            EventStep::Consume
        }
    } else {
        EventStep::Deliver
    }
}

/// The name an event type is shown under in messages.
pub open spec fn event_type_name_spec(t: InputEventType) -> Seq<char> {
    match t {
        InputEventType::MouseMove => "MouseMove"@,
        InputEventType::MouseDown => "MouseDown"@,
        InputEventType::MouseUp => "MouseUp"@,
        InputEventType::MouseClick => "MouseClick"@,
        InputEventType::KeyPress => "KeyPress"@,
        InputEventType::KeyDown => "KeyDown"@,
        InputEventType::KeyUp => "KeyUp"@,
        InputEventType::Scroll => "Scroll"@,
        InputEventType::Wait => "Wait"@,
        InputEventType::Checkpoint => "Checkpoint"@,
    }
}

pub fn event_type_name(t: InputEventType) -> (s: &'static str)
    ensures
        s@ == event_type_name_spec(t),
{
    match t {
        InputEventType::MouseMove => "MouseMove",
        InputEventType::MouseDown => "MouseDown",
        InputEventType::MouseUp => "MouseUp",
        InputEventType::MouseClick => "MouseClick",
        InputEventType::KeyPress => "KeyPress",
        InputEventType::KeyDown => "KeyDown",
        InputEventType::KeyUp => "KeyUp",
        InputEventType::Scroll => "Scroll",
        InputEventType::Wait => "Wait",
        InputEventType::Checkpoint => "Checkpoint",
    }
}

/// `n` in decimal.
pub open spec fn decimal(n: int) -> Seq<char> {
    numeral(n as nat, 10)
}

/// The failure for a critical event sent too late, in whole milliseconds.
pub open spec fn late_message_spec(index: int, t: InputEventType, lateness_ns: int) -> Seq<char> {
    "event "@ + decimal(index) + " ("@ + event_type_name_spec(t) + ") was "@ + decimal(
        lateness_ns / 1_000_000,
    ) + " ms late; stopped before sending a catch-up input"@
}

pub fn late_message(index: usize, t: InputEventType, lateness_ns: u64) -> (s: String)
    ensures
        s@ == late_message_spec(index as int, t, lateness_ns as int),
{
    let mut v: Vec<char> = Vec::new();
    push_str(&mut v, "event ");
    push_decimal(&mut v, index as u64);
    push_str(&mut v, " (");
    push_str(&mut v, event_type_name(t));
    push_str(&mut v, ") was ");
    push_decimal(&mut v, lateness_ns / 1_000_000);
    push_str(&mut v, " ms late; stopped before sending a catch-up input");
    string_of(&v)
}

/// The failure for an event whose inputs the controller refused.
pub open spec fn delivery_message_spec(index: int, t: InputEventType, error: Seq<char>) -> Seq<char> {
    "input delivery failed at event "@ + decimal(index) + " ("@ + event_type_name_spec(t) + "): "@
        + error
}

pub fn delivery_message(index: usize, t: InputEventType, error: &str) -> (s: String)
    ensures
        s@ == delivery_message_spec(index as int, t, error@),
{
    let mut v: Vec<char> = Vec::new();
    push_str(&mut v, "input delivery failed at event ");
    push_decimal(&mut v, index as u64);
    push_str(&mut v, " (");
    push_str(&mut v, event_type_name(t));
    push_str(&mut v, "): ");
    push_str(&mut v, error);
    string_of(&v)
}

/// How a checkpoint ended.
#[derive(Debug, Clone, PartialEq, Eq)]
pub enum CheckpointResult {
    Reached,
    TimedOut,
    Stopped,
    /// The detector or an input failed, with this message.
    Failed(String),
}

/// Whether a checkpoint's timeout policy stops playback: every policy but
/// `continue` does, and so does none.
pub fn checkpoint_stops_on_timeout(policy: Option<&str>) -> (b: bool)
    ensures
        policy matches Some(p) ==> (b <==> p@ != "continue"@),
        policy is None ==> b,
{
    match policy {
        Some(p) => {
            let cs = crate::text::chars_of(p);
            !same_text(&cs, "continue")
        },
        None => true,
    }
}

/// The failure for a checkpoint that timed out where the policy stops.
pub open spec fn timeout_message_spec(index: int) -> Seq<char> {
    "checkpoint at event "@ + decimal(index) + " timed out; no further repetitions were sent"@
}

/// The failure for a checkpoint that failed with `error`.
pub open spec fn checkpoint_failure_spec(index: int, error: Seq<char>) -> Seq<char> {
    "checkpoint at event "@ + decimal(index) + " failed: "@ + error
}

/// How playback goes on after the checkpoint at event `index`: `None` to
/// carry on, or the outcome it ends with. A reached checkpoint carries on, a
/// stopped one stops; a timeout fails playback when the policy says so and
/// carries on otherwise; a failure fails playback.
pub fn checkpoint_verdict(index: usize, result: &CheckpointResult, stop_on_timeout: bool) -> (r: Option<
    PlaybackOutcome,
>)
    ensures
        result is Reached ==> r is None,
        result is Stopped ==> r == Some(PlaybackOutcome::Stopped),
        result is TimedOut && !stop_on_timeout ==> r is None,
        result is TimedOut && stop_on_timeout ==> (r matches Some(PlaybackOutcome::Failed(m)) && m@
            == timeout_message_spec(index as int)),
        result matches CheckpointResult::Failed(e) ==> (r matches Some(PlaybackOutcome::Failed(m)) && m@
            == checkpoint_failure_spec(index as int, e@)),
{
    match result {
        CheckpointResult::Reached => None,
        CheckpointResult::Stopped => Some(PlaybackOutcome::Stopped),
        CheckpointResult::TimedOut => {
            if stop_on_timeout {
                let mut v: Vec<char> = Vec::new();
                push_str(&mut v, "checkpoint at event ");
                push_decimal(&mut v, index as u64);
                push_str(&mut v, " timed out; no further repetitions were sent");
                Some(PlaybackOutcome::Failed(string_of(&v)))
            } else {
                None
            }
        },
        CheckpointResult::Failed(e) => {
            let mut v: Vec<char> = Vec::new();
            push_str(&mut v, "checkpoint at event ");
            push_decimal(&mut v, index as u64);
            push_str(&mut v, " failed: ");
            push_str(&mut v, e.as_str());
            Some(PlaybackOutcome::Failed(string_of(&v)))
        },
    }
}

/// Texts joined with `"; "` between them.
pub open spec fn joined(parts: Seq<Seq<char>>) -> Seq<char>
    decreases parts.len(),
{
    if parts.len() == 0 {
        Seq::empty()
    } else if parts.len() == 1 {
        parts[0]
    } else {
        joined(parts.drop_last()) + "; "@ + parts.last()
    }
}

fn push_joined(out: &mut Vec<char>, parts: &Vec<String>)
    ensures
        final(out)@ == old(out)@ + joined(string_texts(parts@)),
{
    let ghost start = out@;
    let mut i: usize = 0;
    while i < parts.len()
        invariant
            i <= parts@.len(),
            out@ == start + joined(string_texts(parts@).take(i as int)),
        decreases parts@.len() - i,
    {
        let ghost t = string_texts(parts@);
        proof {
            assert(t.take(i as int + 1).drop_last() =~= t.take(i as int));
            assert(t.take(i as int + 1).last() == parts@[i as int]@);
        }
        if i > 0 {
            push_str(out, "; ");
        } else {
            proof {
                assert(t.take(0) =~= Seq::<Seq<char>>::empty());
            }
        }
        push_str(out, parts[i].as_str());
        i = i + 1;
    }
    proof {
        assert(string_texts(parts@).take(i as int) =~= string_texts(parts@));
    }
}

/// The failure for inputs left held at the end of repetition `iteration`.
pub open spec fn repetition_release_spec(iteration: int, failures: Seq<Seq<char>>) -> Seq<char> {
    "could not release held input(s) at repetition "@ + decimal(iteration) + ": "@ + joined(failures)
}

pub fn repetition_release_message(iteration: u64, failures: &Vec<String>) -> (s: String)
    ensures
        s@ == repetition_release_spec(iteration as int, string_texts(failures@)),
{
    let mut v: Vec<char> = Vec::new();
    push_str(&mut v, "could not release held input(s) at repetition ");
    push_decimal(&mut v, iteration);
    push_str(&mut v, ": ");
    push_joined(&mut v, failures);
    string_of(&v)
}

/// The failure for inputs left held when playback ends.
pub open spec fn ending_release_spec(failures: Seq<Seq<char>>) -> Seq<char> {
    "could not release held input(s) while ending playback: "@ + joined(failures)
}

/// The outcome once everything still held has been let go: unchanged when
/// every release went through; otherwise a failure that names the releases
/// that did not, after the earlier failure's message when there was one.
pub fn final_outcome(outcome: PlaybackOutcome, failures: &Vec<String>) -> (r: PlaybackOutcome)
    ensures
        failures@.len() == 0 ==> r == outcome,
        failures@.len() > 0 ==> (r matches PlaybackOutcome::Failed(m) && m@ == match outcome {
            PlaybackOutcome::Failed(earlier) => earlier@ + "; "@ + ending_release_spec(
                string_texts(failures@),
            ),
            _ => ending_release_spec(string_texts(failures@)),
        }),
{
    if failures.len() == 0 {
        return outcome;
    }
    let mut v: Vec<char> = Vec::new();
    match &outcome {
        PlaybackOutcome::Failed(earlier) => {
            push_str(&mut v, earlier.as_str());
            push_str(&mut v, "; ");
        },
        _ => {},
    }
    push_str(&mut v, "could not release held input(s) while ending playback: ");
    push_joined(&mut v, failures);
    PlaybackOutcome::Failed(string_of(&v))
}

// ── Hold and follow ─────────────────────────────────────────────────────────

/// When a hold-and-follow checkpoint lets go of its button.
#[derive(Debug, Clone, Copy, PartialEq, Eq, Structural)]
pub enum ReleaseWhen {
    /// As soon as the target is seen.
    Found,
    /// When a target that was seen is lost.
    Lost,
    /// Only at the timeout.
    Never,
}

/// The release policy named `name`: `found`, `lost`, and any other name
/// never releases early.
pub fn release_when_of(name: &str) -> (r: ReleaseWhen)
    ensures
        name@ == "found"@ ==> r == ReleaseWhen::Found,
        name@ == "lost"@ ==> r == ReleaseWhen::Lost,
        name@ != "found"@ && name@ != "lost"@ ==> r == ReleaseWhen::Never,
{
    let cs = crate::text::chars_of(name);
    proof {
        reveal_strlit("found");
        reveal_strlit("lost");
        assert("found"@.len() != "lost"@.len());
    }
    if same_text(&cs, "found") {
        ReleaseWhen::Found
    } else if same_text(&cs, "lost") {
        ReleaseWhen::Lost
    } else {
        ReleaseWhen::Never
    }
}

/// One poll of a hold-and-follow checkpoint: whether the target was seen by
/// now, and whether the release condition is met so the hold ends.
pub fn follow_poll(release: ReleaseWhen, found: bool, seen_before: bool) -> (r: (bool, bool))
    ensures
        r.0 == (found || seen_before),
        r.1 == ((found && release == ReleaseWhen::Found) || (!found && release == ReleaseWhen::Lost
            && seen_before)),
{
    if found {
        (true, release == ReleaseWhen::Found)
    } else {
        (seen_before, release == ReleaseWhen::Lost && seen_before)
    }
}

/// How a hold-and-follow checkpoint ended: a stop wins, then a met
/// condition; otherwise it timed out.
pub fn follow_result(stopped: bool, condition_met: bool) -> (r: CheckpointResult)
    ensures
        stopped ==> r == CheckpointResult::Stopped,
        !stopped && condition_met ==> r == CheckpointResult::Reached,
        !stopped && !condition_met ==> r == CheckpointResult::TimedOut,
{
    if stopped {
        CheckpointResult::Stopped
    } else if condition_met {
        CheckpointResult::Reached
    } else {
        CheckpointResult::TimedOut
    }
}

} // verus!
