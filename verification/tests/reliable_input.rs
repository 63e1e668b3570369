use std::sync::atomic::{AtomicBool, AtomicUsize, Ordering};
use std::sync::Mutex;

use clawmation::hardware::reliable_input::{
    check_cursor, resolution_error, Platform, ReliableInput, PREPARE_ATTEMPTS, PRESS_HOLD_MS,
};
use clawmation::hardware::window::SelectableWindow;

#[derive(Default)]
struct MockState {
    foreground: bool,
    cursor: (i32, i32),
    relative_motion_since_absolute: bool,
    log: Vec<String>,
}

struct MockPlatform {
    state: Mutex<MockState>,
    focus_failures: AtomicUsize,
    cursor_drifts: AtomicUsize,
    mouse_up_failures: AtomicUsize,
    press_held: AtomicBool,
    lose_focus_on_hold: AtomicBool,
    title: String,
}

impl MockPlatform {
    fn new() -> Self {
        Self {
            state: Mutex::new(MockState::default()),
            focus_failures: AtomicUsize::new(0),
            cursor_drifts: AtomicUsize::new(0),
            mouse_up_failures: AtomicUsize::new(0),
            press_held: AtomicBool::new(false),
            lose_focus_on_hold: AtomicBool::new(false),
            title: "Roblox".to_string(),
        }
    }

    fn log(&self) -> Vec<String> {
        self.state.lock().unwrap().log.clone()
    }
}

fn take_one(counter: &AtomicUsize) -> bool {
    counter
        .fetch_update(Ordering::SeqCst, Ordering::SeqCst, |remaining| {
            remaining.checked_sub(1)
        })
        .is_ok()
}

impl Platform for MockPlatform {
    fn target_at(&self, x: i32, y: i32) -> Result<SelectableWindow, String> {
        self.state
            .lock()
            .unwrap()
            .log
            .push(format!("target:{x},{y}"));
        Ok(SelectableWindow {
            id: "ABCD:42".to_string(),
            title: self.title.clone(),
            pid: 42,
        })
    }

    fn focus(&self, _target: &SelectableWindow) -> Result<(), String> {
        self.state.lock().unwrap().log.push("focus".to_string());
        if take_one(&self.focus_failures) {
            return Err("focus refused".to_string());
        }
        self.state.lock().unwrap().foreground = true;
        Ok(())
    }

    fn is_foreground(&self, _target: &SelectableWindow) -> bool {
        self.state.lock().unwrap().foreground
    }

    fn move_to(&self, x: i32, y: i32) -> Result<(), String> {
        let mut state = self.state.lock().unwrap();
        state.cursor = (x, y);
        state.relative_motion_since_absolute = false;
        state.log.push(format!("move:{x},{y}"));
        Ok(())
    }

    fn move_relative_no_coalesce(&self, dx: i32, dy: i32) -> Result<(), String> {
        let mut state = self.state.lock().unwrap();
        state.cursor.0 += dx;
        state.cursor.1 += dy;
        state.relative_motion_since_absolute = true;
        state.log.push(format!("relative:{dx},{dy}"));
        Ok(())
    }

    fn sync_cursor_to(&self, x: i32, y: i32) -> Result<(), String> {
        let mut state = self.state.lock().unwrap();
        state.cursor = (x, y);
        state.log.push(format!("sync:{x},{y}"));
        Ok(())
    }

    fn cursor_position(&self) -> Result<(i32, i32), String> {
        if take_one(&self.cursor_drifts) {
            let (x, y) = self.state.lock().unwrap().cursor;
            return Ok((x + 20, y + 20));
        }
        Ok(self.state.lock().unwrap().cursor)
    }

    fn mouse_down(&self) -> Result<(), String> {
        let mut state = self.state.lock().unwrap();
        if !state.relative_motion_since_absolute {
            return Err(
                "Roblox ignored the click because no relative motion was observed".to_string(),
            );
        }
        self.press_held.store(true, Ordering::SeqCst);
        let (x, y) = state.cursor;
        state.log.push(format!("down:{x},{y}"));
        Ok(())
    }

    fn mouse_up(&self) -> Result<(), String> {
        self.press_held.store(false, Ordering::SeqCst);
        let mut state = self.state.lock().unwrap();
        let (x, y) = state.cursor;
        state.log.push(format!("up:{x},{y}"));
        if take_one(&self.mouse_up_failures) {
            Err("release rejected".to_string())
        } else {
            Ok(())
        }
    }

    fn key_down(&self, key: &str) -> Result<(), String> {
        self.press_held.store(true, Ordering::SeqCst);
        self.state
            .lock()
            .unwrap()
            .log
            .push(format!("key-down:{key}"));
        Ok(())
    }

    fn key_up(&self, key: &str) -> Result<(), String> {
        self.press_held.store(false, Ordering::SeqCst);
        self.state.lock().unwrap().log.push(format!("key-up:{key}"));
        Ok(())
    }

    fn nudge(&self) -> Result<(), String> {
        self.state.lock().unwrap().log.push("nudge".to_string());
        Ok(())
    }

    fn sleep(&self, millis: u64) {
        if millis == PRESS_HOLD_MS
            && self.press_held.load(Ordering::SeqCst)
            && self.lose_focus_on_hold.swap(false, Ordering::SeqCst)
        {
            self.state.lock().unwrap().foreground = false;
        }
        self.state
            .lock()
            .unwrap()
            .log
            .push(format!("sleep:{millis}"));
    }
}

#[test]
fn click_arms_raw_input_then_establishes_hover_and_frame_spanning_press() {
    let platform = MockPlatform::new();
    let mut input = ReliableInput::with_platform(&platform);
    let target = input.click_at(120, 240).unwrap();
    assert_eq!(target.id(), "ABCD:42");
    assert_eq!(
        platform.log(),
        vec![
            "target:120,240",
            "focus",
            "sleep:80",
            "move:120,240",
            "relative:2,0",
            "sleep:16",
            "relative:-2,0",
            "sync:120,240",
            "sleep:50",
            "down:120,240",
            "sleep:80",
            "up:120,240",
        ]
    );
}

#[test]
fn repeated_clicks_keep_complete_gestures_ordered() {
    let platform = MockPlatform::new();
    let mut input = ReliableInput::with_platform(&platform);
    for index in 0..500 {
        input.click_at(index, 9).unwrap();
    }
    let edges: Vec<String> = platform
        .log()
        .into_iter()
        .filter(|entry| entry.starts_with("down:") || entry.starts_with("up:"))
        .collect();
    assert_eq!(edges.len(), 1000);
    for (index, pair) in edges.chunks_exact(2).enumerate() {
        assert_eq!(pair[0], format!("down:{index},9"));
        assert_eq!(pair[1], format!("up:{index},9"));
    }
}

#[test]
fn focus_failure_retries_before_any_press() {
    let platform = MockPlatform::new();
    platform.focus_failures.store(3, Ordering::SeqCst);
    let mut input = ReliableInput::with_platform(&platform);
    let error = input.click_at(10, 20).unwrap_err();
    assert!(error.contains("focus refused"));
    assert_eq!(
        platform
            .log()
            .iter()
            .filter(|entry| *entry == "focus")
            .count(),
        PREPARE_ATTEMPTS
    );
    assert!(!platform
        .log()
        .iter()
        .any(|entry| entry.starts_with("down:")));
}

#[test]
fn cursor_drift_is_corrected_before_pressing() {
    let platform = MockPlatform::new();
    platform.cursor_drifts.store(1, Ordering::SeqCst);
    let mut input = ReliableInput::with_platform(&platform);
    input.click_at(10, 20).unwrap();
    assert_eq!(
        platform
            .log()
            .iter()
            .filter(|entry| *entry == "move:10,20")
            .count(),
        2
    );
    assert_eq!(
        platform
            .log()
            .iter()
            .filter(|entry| entry.starts_with("down:"))
            .count(),
        1
    );
}

#[test]
fn failed_release_gets_recovery_attempt_and_surfaces_error() {
    let platform = MockPlatform::new();
    platform.mouse_up_failures.store(2, Ordering::SeqCst);
    let mut input = ReliableInput::with_platform(&platform);
    let error = input.click_at(10, 20).unwrap_err();
    assert!(error.contains("mouse release"));
    assert_eq!(
        platform
            .log()
            .iter()
            .filter(|entry| entry.starts_with("up:"))
            .count(),
        2
    );
}

#[test]
fn focus_loss_during_a_press_releases_recovers_and_reports_failure() {
    let platform = MockPlatform::new();
    platform.lose_focus_on_hold.store(true, Ordering::SeqCst);
    let mut input = ReliableInput::with_platform(&platform);
    let error = input.click_at(10, 20).unwrap_err();
    assert!(error.contains("lost foreground"));
    let log = platform.log();
    assert_eq!(
        log.iter().filter(|entry| entry.starts_with("up:")).count(),
        2,
        "global release plus a release after re-focusing the target"
    );
}

#[test]
fn key_uses_the_same_target_and_frame_hold() {
    let platform = MockPlatform::new();
    let mut input = ReliableInput::with_platform(&platform);
    let target = input.establish_at(10, 20).unwrap();
    input.key_on(&target, "e").unwrap();
    let log = platform.log();
    let down = log.iter().position(|entry| entry == "key-down:e").unwrap();
    assert_eq!(log[down + 1], "sleep:80");
    assert_eq!(log[down + 2], "key-up:e");
}

#[test]
fn a_blank_key_is_refused_before_any_key_edge() {
    let platform = MockPlatform::new();
    let mut input = ReliableInput::with_platform(&platform);
    let error = input.key_at(3, 4, "   ").unwrap_err();
    assert_eq!(error, "key press failed: no key is configured");
    assert!(!platform.log().iter().any(|entry| entry.starts_with("key-")));
}

#[test]
fn a_key_is_sent_trimmed() {
    let platform = MockPlatform::new();
    let mut input = ReliableInput::with_platform(&platform);
    input.key_at(3, 4, "  q ").unwrap();
    assert!(platform.log().iter().any(|entry| entry == "key-down:q"));
}

#[test]
fn failures_name_the_phase_and_the_quoted_window_title() {
    let mut platform = MockPlatform::new();
    platform.title = "  My \"Game\"  ".to_string();
    platform.mouse_up_failures.store(2, Ordering::SeqCst);
    let mut input = ReliableInput::with_platform(&platform);
    let error = input.click_at(1, 2).unwrap_err();
    assert_eq!(
        error,
        "mouse release failed for \"My \\\"Game\\\"\": release rejected"
    );
}

#[test]
fn a_blank_title_is_named_by_the_window_id() {
    let mut platform = MockPlatform::new();
    platform.title = "   ".to_string();
    platform.focus_failures.store(3, Ordering::SeqCst);
    let mut input = ReliableInput::with_platform(&platform);
    let error = input.nudge_at(1, 2).unwrap_err();
    assert_eq!(error, "cursor preparation failed for \"ABCD:42\": focus refused");
}

#[test]
fn the_cursor_may_land_one_pixel_off_on_each_axis() {
    assert!(check_cursor((11, 19), 10, 20).is_ok());
    assert_eq!(
        check_cursor((12, 20), 10, 20).unwrap_err(),
        "cursor landed at (12, 20) instead of (10, 20)"
    );
    assert_eq!(
        check_cursor((-5, i32::MIN), -7, i32::MAX).unwrap_err(),
        format!("cursor landed at (-5, {}) instead of (-7, {})", i32::MIN, i32::MAX)
    );
    assert_eq!(
        resolution_error("no window"),
        "target resolution failed: no window"
    );
}
