//! Recorded input events.

use vstd::prelude::*;

verus! {

/// What a recorded event does on replay.
#[derive(Debug, Clone, Copy, PartialEq, Eq, Structural)]
pub enum InputEventType {
    MouseMove,
    MouseDown,
    MouseUp,
    MouseClick,
    KeyPress,
    KeyDown,
    KeyUp,
    Scroll,
    Wait,
    Checkpoint,
}

/// One recorded event. Times are whole microseconds since the recording
/// started, excluding paused time.
#[derive(Debug, Clone)]
pub struct MacroEvent {
    pub event_type: InputEventType,
    pub timestamp_us: u64,
    pub x: i64,
    pub y: i64,
    pub button: String,
    pub key: String,
    pub delta: i64,
    pub duration_us: u64,
}

/// `e` is an event of kind `event_type` at `timestamp_us` with every other
/// field at its default: no position, the left button, no key, no wheel
/// delta, no duration.
pub open spec fn is_plain_event(e: MacroEvent, event_type: InputEventType, timestamp_us: u64) -> bool {
    &&& e.event_type == event_type
    &&& e.timestamp_us == timestamp_us
    &&& e.x == 0
    &&& e.y == 0
    &&& e.button@ == "left"@
    &&& e.key@ == Seq::<char>::empty()
    &&& e.delta == 0
    &&& e.duration_us == 0
}

/// An event of kind `event_type` at `timestamp_us` with every other field at
/// its default: no position, the left button, no key, no wheel delta.
pub fn new_event(event_type: InputEventType, timestamp_us: u64) -> (e: MacroEvent)
    ensures
        is_plain_event(e, event_type, timestamp_us),
{
    MacroEvent {
        event_type,
        timestamp_us,
        x: 0,
        y: 0,
        button: "left".to_owned(),
        key: String::new(),
        delta: 0,
        duration_us: 0,
    }
}

} // verus!
