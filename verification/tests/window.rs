use std::sync::atomic::{AtomicUsize, Ordering};
use std::sync::Mutex;

use clawmation::hardware::window::{
    hwnd_to_id, id_process_id, id_to_hwnd, is_selectable, perform_input_action, point_in_rect,
    selectable_window_id, AntiAfkAction, AntiAfkInput, AntiAfkSender, WindowRect,
};

#[test]
fn point_hit_testing_uses_half_open_window_bounds() {
    let rect = WindowRect {
        left: 100,
        top: 200,
        right: 300,
        bottom: 400,
    };
    assert!(point_in_rect(100, 200, rect));
    assert!(point_in_rect(299, 399, rect));
    assert!(!point_in_rect(300, 399, rect));
    assert!(!point_in_rect(299, 400, rect));
}

#[derive(Default)]
struct MockInput {
    events: Mutex<Vec<String>>,
    key_up_failures: AtomicUsize,
    mouse_up_failures: AtomicUsize,
}

impl MockInput {
    fn take(&self) -> Vec<String> {
        std::mem::take(&mut *self.events.lock().unwrap())
    }
}

fn consume(counter: &AtomicUsize) -> bool {
    counter
        .fetch_update(Ordering::Relaxed, Ordering::Relaxed, |remaining| {
            if remaining > 0 {
                Some(remaining - 1)
            } else {
                None
            }
        })
        .is_ok()
}

impl AntiAfkInput for MockInput {
    fn key_down(&self, key: &str) -> Result<(), String> {
        self.events.lock().unwrap().push(format!("down:{key}"));
        Ok(())
    }

    fn key_up(&self, key: &str) -> Result<(), String> {
        self.events.lock().unwrap().push(format!("up:{key}"));
        if consume(&self.key_up_failures) {
            return Err("simulated key release failure".to_string());
        }
        Ok(())
    }

    fn mouse_down(&self, button: &str) -> Result<(), String> {
        self.events
            .lock()
            .unwrap()
            .push(format!("mouse_down:{button}"));
        Ok(())
    }

    fn mouse_up(&self, button: &str) -> Result<(), String> {
        self.events
            .lock()
            .unwrap()
            .push(format!("mouse_up:{button}"));
        if consume(&self.mouse_up_failures) {
            return Err("simulated mouse release failure".to_string());
        }
        Ok(())
    }

    fn move_relative(&self, dx: i32, dy: i32) -> Result<(), String> {
        self.events.lock().unwrap().push(format!("move:{dx}:{dy}"));
        Ok(())
    }

    fn wait(&self, millis: u64) {
        self.events.lock().unwrap().push(format!("wait:{millis}"));
    }
}

#[test]
fn window_ids_round_trip_without_losing_pointer_bits() {
    let hwnd = 0x1234_ABCDusize;
    assert_eq!(id_to_hwnd(&hwnd_to_id(hwnd)), Some(hwnd));
}

#[test]
fn selectable_window_ids_bind_the_handle_to_its_process() {
    let hwnd = 0x1234_ABCDusize;
    let id = selectable_window_id(hwnd, 4242);

    assert_eq!(id, "1234ABCD:4242");
    assert_eq!(id_to_hwnd(&id), Some(hwnd));
    assert_eq!(id_process_id(&id), Some(4242));
}

#[test]
fn selection_excludes_hidden_owned_untitled_and_own_process_windows() {
    assert!(is_selectable(true, false, "Game", 22, 11));
    assert!(!is_selectable(false, false, "Game", 22, 11));
    assert!(!is_selectable(true, true, "Dialog", 22, 11));
    assert!(!is_selectable(true, false, "   ", 22, 11));
    assert!(!is_selectable(true, false, "Clawmation", 11, 11));
}

#[test]
fn jump_is_held_long_enough_for_games_to_register_it() {
    let input = MockInput::default();

    perform_input_action(&mut AntiAfkSender::new(&input), AntiAfkAction::Jump, &mut true).unwrap();

    assert_eq!(
        input.take(),
        ["up:space", "wait:35", "down:space", "wait:140", "up:space"]
    );
}

#[test]
fn walk_alternates_directions_to_limit_drift() {
    let input = MockInput::default();
    let mut right = true;

    perform_input_action(&mut AntiAfkSender::new(&input), AntiAfkAction::Walk, &mut right).unwrap();
    perform_input_action(&mut AntiAfkSender::new(&input), AntiAfkAction::Walk, &mut right).unwrap();

    assert_eq!(
        input.take(),
        [
            "up:d", "wait:35", "down:d", "wait:180", "up:d", "up:a", "wait:35", "down:a",
            "wait:180", "up:a"
        ]
    );
}

#[test]
fn camera_nudge_returns_and_releases_right_mouse() {
    let input = MockInput::default();

    perform_input_action(&mut AntiAfkSender::new(&input), AntiAfkAction::Camera, &mut true).unwrap();

    assert_eq!(
        input.take(),
        [
            "mouse_down:right",
            "wait:40",
            "move:24:0",
            "wait:60",
            "move:-24:0",
            "mouse_up:right"
        ]
    );
}

#[test]
fn key_release_is_retried_after_transient_input_errors() {
    let input = MockInput {
        key_up_failures: AtomicUsize::new(2),
        ..Default::default()
    };

    perform_input_action(&mut AntiAfkSender::new(&input), AntiAfkAction::Jump, &mut true).unwrap();

    assert_eq!(
        input.take(),
        [
            "up:space",
            "wait:20",
            "up:space",
            "wait:20",
            "up:space",
            "wait:35",
            "down:space",
            "wait:140",
            "up:space"
        ]
    );
}

#[test]
fn camera_release_is_retried_after_transient_input_errors() {
    let input = MockInput {
        mouse_up_failures: AtomicUsize::new(1),
        ..Default::default()
    };

    perform_input_action(&mut AntiAfkSender::new(&input), AntiAfkAction::Camera, &mut true).unwrap();

    assert_eq!(
        input.take(),
        [
            "mouse_down:right",
            "wait:40",
            "move:24:0",
            "wait:60",
            "move:-24:0",
            "mouse_up:right",
            "wait:20",
            "mouse_up:right"
        ]
    );
}

#[test]
fn a_random_action_must_be_resolved_first() {
    let input = MockInput::default();
    let mut right = true;
    let error = perform_input_action(&mut AntiAfkSender::new(&input), AntiAfkAction::Random, &mut right).unwrap_err();
    assert_eq!(error, "random action was not resolved");
    assert!(right);
    assert!(input.take().is_empty());
}

#[test]
fn a_release_that_keeps_failing_reports_its_last_error() {
    let input = MockInput {
        key_up_failures: AtomicUsize::new(6),
        ..Default::default()
    };
    let error = perform_input_action(&mut AntiAfkSender::new(&input), AntiAfkAction::Jump, &mut true).unwrap_err();
    assert_eq!(error, "simulated key release failure");
    assert_eq!(
        input.take(),
        [
            "up:space", "wait:20", "up:space", "wait:20", "up:space", "wait:35", "down:space",
            "wait:140", "up:space", "wait:20", "up:space", "wait:20", "up:space"
        ]
    );
}

#[test]
fn ids_accept_a_hex_prefix_and_refuse_junk() {
    assert_eq!(id_to_hwnd("0xff"), Some(255));
    assert_eq!(id_to_hwnd("0XFF:12"), Some(255));
    assert_eq!(id_to_hwnd("zz"), None);
    assert_eq!(id_to_hwnd(""), None);
    assert_eq!(id_to_hwnd(":5"), None);
    assert_eq!(id_process_id("ABCD"), None);
    assert_eq!(id_process_id("ABCD:"), None);
    assert_eq!(id_process_id("ABCD:+7"), Some(7));
    assert_eq!(id_process_id("ABCD:4294967296"), None);
    assert_eq!(id_process_id("ABCD:4294967295"), Some(u32::MAX));
    assert_eq!(hwnd_to_id(0), "0");
    assert_eq!(selectable_window_id(usize::MAX, 0), format!("{:X}:0", usize::MAX));
}
