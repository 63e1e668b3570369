use clawmation::hardware::player::{
    checkpoint_stops_on_timeout, checkpoint_verdict, delivery_message, effective_record_resolution,
    event_step, event_type_name, final_outcome, follow_poll, follow_result, has_button_edges,
    is_critical, late_message, plan_event, release_when_of, repetition_release_message,
    should_run_iteration, validate_inputs, valid_button, CheckpointResult, EventStep, HeldInputs,
    PlaybackError, PlaybackOutcome, ReleaseWhen, ReplayInput,
};
use clawmation::models::macro_def::{InputEventType, MacroEvent};

fn move_event(x: i64, y: i64, t: u64) -> MacroEvent {
    MacroEvent {
        event_type: InputEventType::MouseMove,
        timestamp_us: t,
        x,
        y,
        button: "left".to_string(),
        key: String::new(),
        delta: 0,
        duration_us: 0,
    }
}

#[test]
fn should_run_iteration_exact_count() {
    for it in 1..=3 {
        assert!(should_run_iteration(3, false, it));
    }
    assert!(!should_run_iteration(3, false, 4));
}

#[test]
fn playback_outcomes_map_to_honest_history_statuses() {
    assert_eq!(PlaybackOutcome::Completed { iterations: 1 }.status(), "completed");
    assert_eq!(PlaybackOutcome::Stopped.status(), "stopped");
    assert_eq!(PlaybackOutcome::Failed("delivery".to_string()).status(), "failed");
}

#[test]
fn should_run_iteration_loop_count_wins_over_loop_flag() {
    for it in 1..=3 {
        assert!(should_run_iteration(3, true, it));
    }
    assert!(!should_run_iteration(3, true, 4));
}

#[test]
fn should_run_iteration_single_shot() {
    assert!(should_run_iteration(0, false, 1));
    assert!(!should_run_iteration(0, false, 2));
}

#[test]
fn should_run_iteration_infinite() {
    assert!(should_run_iteration(0, true, 1));
    assert!(should_run_iteration(0, true, 1_000_000));
}

#[test]
fn has_button_edges_detects_down_up() {
    let moves = vec![move_event(0, 0, 0)];
    assert!(!has_button_edges(&moves));

    let with_down = vec![
        move_event(0, 0, 0),
        MacroEvent { event_type: InputEventType::MouseDown, ..move_event(0, 0, 100_000) },
    ];
    assert!(has_button_edges(&with_down));
}

#[test]
fn preflight_rejects_unknown_inputs_and_a_zero_resolution() {
    let mut key = move_event(0, 0, 0);
    key.event_type = InputEventType::KeyPress;
    key.key = "definitely_not_a_key".to_string();
    assert_eq!(
        validate_inputs(&[key], (1920, 1080)),
        Err(PlaybackError::UnsupportedKey { index: 0 })
    );

    let mut click = move_event(0, 0, 0);
    click.event_type = InputEventType::MouseClick;
    click.button = "mystery".to_string();
    assert_eq!(
        validate_inputs(&[move_event(1, 1, 0), click], (1920, 1080)),
        Err(PlaybackError::UnsupportedButton { index: 1 })
    );

    assert_eq!(validate_inputs(&[move_event(0, 0, 0)], (0, 1080)), Err(PlaybackError::ZeroResolution));
    assert_eq!(validate_inputs(&[move_event(0, 0, 0)], (1920, 1080)), Ok(()));
}

#[test]
fn preflight_rejects_ambiguous_mixed_click_encodings() {
    let mut click = move_event(10, 10, 0);
    click.event_type = InputEventType::MouseClick;
    let mut down = move_event(10, 10, 100_000);
    down.event_type = InputEventType::MouseDown;
    assert_eq!(
        validate_inputs(&[click, down], (1920, 1080)),
        Err(PlaybackError::MixedClickEncodings)
    );
}

#[test]
fn buttons_are_matched_without_regard_to_case() {
    assert!(valid_button("Primary"));
    assert!(valid_button("X2"));
    assert!(!valid_button("fourth"));
}

#[test]
fn only_input_events_are_critical() {
    assert!(is_critical(InputEventType::KeyDown));
    assert!(is_critical(InputEventType::Scroll));
    assert!(!is_critical(InputEventType::MouseMove));
    assert!(!is_critical(InputEventType::Wait));
}

#[test]
fn effective_record_resolution_corrects_an_understated_space() {
    let logical = vec![move_event(0, 0, 0), move_event(2211, 1364, 0)];
    assert_eq!(effective_record_resolution((2048, 1152), (2560, 1440), &logical), (2560, 1440));

    let small = vec![move_event(0, 0, 0), move_event(1919, 1079, 0)];
    assert_eq!(effective_record_resolution((1920, 1080), (2560, 1440), &small), (1920, 1080));
}

fn event(event_type: InputEventType, x: i64, y: i64, button: &str, key: &str) -> MacroEvent {
    MacroEvent {
        event_type,
        timestamp_us: 0,
        x,
        y,
        button: button.to_string(),
        key: key.to_string(),
        delta: 0,
        duration_us: 0,
    }
}

#[test]
fn checkpoint_timeout_is_fail_closed_unless_explicitly_overridden() {
    assert!(checkpoint_stops_on_timeout(None));
    assert!(checkpoint_stops_on_timeout(Some("stop")));
    assert!(!checkpoint_stops_on_timeout(Some("continue")));
}

#[test]
fn moves_replay_as_deltas_after_the_first() {
    let m = move_event(0, 0, 0);
    let (inputs, prev) = plan_event(&m, (100, 50), None);
    assert_eq!(inputs, vec![ReplayInput::MoveTo { x: 100, y: 50 }]);
    assert_eq!(prev, Some((100, 50)));
    let (inputs, prev) = plan_event(&m, (103, 46), prev);
    assert_eq!(
        inputs,
        vec![
            ReplayInput::MoveRelative { dx: 3, dy: -4 },
            ReplayInput::SyncCursor { x: 103, y: 46 },
        ]
    );
    let (inputs, _) = plan_event(&m, (103, 46), prev);
    assert_eq!(inputs, vec![ReplayInput::SyncCursor { x: 103, y: 46 }]);
}

#[test]
fn buttons_and_keys_replay_as_their_edges() {
    let click = event(InputEventType::MouseClick, 5, 6, "Right", "");
    let (inputs, prev) = plan_event(&click, (10, 12), Some((0, 0)));
    assert_eq!(
        inputs,
        vec![
            ReplayInput::SyncCursor { x: 10, y: 12 },
            ReplayInput::ButtonDown { button: "Right".to_string() },
            ReplayInput::ButtonUp { button: "Right".to_string() },
        ]
    );
    assert_eq!(prev, Some((10, 12)));
    let press = event(InputEventType::KeyPress, 0, 0, "left", "a");
    let (inputs, prev) = plan_event(&press, (7, 7), Some((1, 1)));
    assert_eq!(
        inputs,
        vec![
            ReplayInput::KeyDown { key: "a".to_string() },
            ReplayInput::KeyUp { key: "a".to_string() },
        ]
    );
    assert_eq!(prev, Some((1, 1)));
    let mut wheel = event(InputEventType::Scroll, 0, 0, "left", "");
    wheel.delta = -3;
    assert_eq!(
        plan_event(&wheel, (4, 5), None).0,
        vec![ReplayInput::Scroll { delta: -3, x: 4, y: 5 }]
    );
    let mut wait = event(InputEventType::Wait, 0, 0, "left", "");
    assert!(plan_event(&wait, (0, 0), None).0.is_empty());
    wait.duration_us = 1500;
    assert_eq!(plan_event(&wait, (0, 0), None).0, vec![ReplayInput::Wait { duration_us: 1500 }]);
    let checkpoint = event(InputEventType::Checkpoint, 0, 0, "left", "");
    assert!(plan_event(&checkpoint, (0, 0), None).0.is_empty());
}

#[test]
fn held_inputs_are_released_keys_first_in_order() {
    let mut held = HeldInputs::new();
    held.note_delivered(&ReplayInput::ButtonDown { button: "Right".to_string() });
    held.note_delivered(&ReplayInput::KeyDown { key: "Shift".to_string() });
    held.note_delivered(&ReplayInput::KeyDown { key: "a".to_string() });
    held.note_delivered(&ReplayInput::ButtonDown { button: "left".to_string() });
    held.note_delivered(&ReplayInput::ButtonDown { button: "LEFT".to_string() });
    held.note_delivered(&ReplayInput::MoveTo { x: 1, y: 1 });
    held.note_delivered(&ReplayInput::KeyUp { key: "A".to_string() });
    let (keys, buttons) = held.take_all();
    assert_eq!(keys, vec!["shift".to_string()]);
    assert_eq!(buttons, vec!["left".to_string(), "right".to_string()]);
    let (keys, buttons) = held.take_all();
    assert!(keys.is_empty() && buttons.is_empty());
}

#[test]
fn events_are_skipped_failed_or_delivered_in_order_of_the_checks() {
    assert_eq!(
        event_step(InputEventType::MouseClick, true, 0, false),
        EventStep::SkipLegacyClick
    );
    assert_eq!(
        event_step(InputEventType::MouseClick, false, 250_000_001, false),
        EventStep::TooLate
    );
    assert_eq!(
        event_step(InputEventType::MouseClick, false, 250_000_000, false),
        EventStep::Deliver
    );
    assert_eq!(
        event_step(InputEventType::MouseMove, false, 900_000_000, false),
        EventStep::Deliver
    );
    assert_eq!(
        event_step(InputEventType::Checkpoint, false, 900_000_000, true),
        EventStep::RunCheckpoint
    );
    assert_eq!(
        event_step(InputEventType::Checkpoint, false, 0, false),
        EventStep::Consume
    );
}

#[test]
fn playback_failure_messages_name_the_event() {
    assert_eq!(event_type_name(InputEventType::KeyDown), "KeyDown");
    assert_eq!(
        late_message(4, InputEventType::MouseDown, 312_999_999),
        "event 4 (MouseDown) was 312 ms late; stopped before sending a catch-up input"
    );
    assert_eq!(
        delivery_message(0, InputEventType::Scroll, "no desktop"),
        "input delivery failed at event 0 (Scroll): no desktop"
    );
}

#[test]
fn checkpoint_results_decide_whether_playback_goes_on() {
    assert_eq!(checkpoint_verdict(2, &CheckpointResult::Reached, true), None);
    assert_eq!(
        checkpoint_verdict(2, &CheckpointResult::Stopped, true),
        Some(PlaybackOutcome::Stopped)
    );
    assert_eq!(checkpoint_verdict(2, &CheckpointResult::TimedOut, false), None);
    assert_eq!(
        checkpoint_verdict(2, &CheckpointResult::TimedOut, true),
        Some(PlaybackOutcome::Failed(
            "checkpoint at event 2 timed out; no further repetitions were sent".to_string()
        ))
    );
    assert_eq!(
        checkpoint_verdict(7, &CheckpointResult::Failed("boom".to_string()), false),
        Some(PlaybackOutcome::Failed("checkpoint at event 7 failed: boom".to_string()))
    );
}

#[test]
fn release_failures_are_reported_after_the_earlier_failure() {
    let none: Vec<String> = Vec::new();
    let two = vec!["key up a".to_string(), "button up left".to_string()];
    assert_eq!(
        repetition_release_message(3, &two),
        "could not release held input(s) at repetition 3: key up a; button up left"
    );
    assert_eq!(
        final_outcome(PlaybackOutcome::Completed { iterations: 2 }, &none),
        PlaybackOutcome::Completed { iterations: 2 }
    );
    assert_eq!(
        final_outcome(PlaybackOutcome::Stopped, &two),
        PlaybackOutcome::Failed(
            "could not release held input(s) while ending playback: key up a; button up left"
                .to_string()
        )
    );
    assert_eq!(
        final_outcome(PlaybackOutcome::Failed("late".to_string()), &vec!["x".to_string()]),
        PlaybackOutcome::Failed(
            "late; could not release held input(s) while ending playback: x".to_string()
        )
    );
}

#[test]
fn hold_and_follow_releases_on_its_condition() {
    assert_eq!(release_when_of("found"), ReleaseWhen::Found);
    assert_eq!(release_when_of("lost"), ReleaseWhen::Lost);
    assert_eq!(release_when_of("never"), ReleaseWhen::Never);
    assert_eq!(follow_poll(ReleaseWhen::Found, true, false), (true, true));
    assert_eq!(follow_poll(ReleaseWhen::Lost, true, false), (true, false));
    assert_eq!(follow_poll(ReleaseWhen::Lost, false, false), (false, false));
    assert_eq!(follow_poll(ReleaseWhen::Lost, false, true), (true, true));
    assert_eq!(follow_poll(ReleaseWhen::Never, false, true), (true, false));
    assert_eq!(follow_result(true, true), CheckpointResult::Stopped);
    assert_eq!(follow_result(false, true), CheckpointResult::Reached);
    assert_eq!(follow_result(false, false), CheckpointResult::TimedOut);
}
