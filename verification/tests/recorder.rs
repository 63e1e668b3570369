use clawmation::hardware::input::resolve_vk;
use clawmation::hardware::recorder::{
    append_trailing_wait, finish_events, key_name, round_ns_to_tenth_ms, round_to_tenth_ms, wheel_notches, xbutton_name,
    RecorderState,
};
use clawmation::models::macro_def::{new_event, InputEventType, MacroEvent};

fn state() -> RecorderState {
    RecorderState::new(Vec::new())
}

#[test]
fn wheel_notches_are_signed_and_floor_divided() {
    assert_eq!(wheel_notches(120 << 16), 1);
    assert_eq!(wheel_notches(240 << 16), 2);
    assert_eq!(wheel_notches((-120i32 as u32 as u16 as u32) << 16), -1);
    assert_eq!(wheel_notches(40 << 16), 0);
}

#[test]
fn a_partial_notch_down_floors_to_a_whole_notch() {
    assert_eq!(wheel_notches((-40i32 as u32 as u16 as u32) << 16), -1);
}

#[test]
fn xbutton_name_reads_the_high_word() {
    assert_eq!(xbutton_name(1 << 16), Some("x1"));
    assert_eq!(xbutton_name(2 << 16), Some("x2"));
    assert_eq!(xbutton_name(0), None);
}

#[test]
fn key_name_matches_pynput_strings() {
    assert_eq!(key_name(0x41), "a");
    assert_eq!(key_name(0x5A), "z");
    assert_eq!(key_name(0x30), "0");
    assert_eq!(key_name(0x72), "f3");
    assert_eq!(key_name(0x7B), "f12");
    assert_eq!(key_name(0x20), "space");
    assert_eq!(key_name(0x0D), "enter");
    assert_eq!(key_name(0x1B), "esc");
    assert_eq!(key_name(0xA0), "shift_l");
    assert_eq!(key_name(0x10), "shift");
    assert_eq!(key_name(0xBA), ";");
    assert_eq!(key_name(0x90), "num_lock");
    assert_eq!(key_name(0x00), "");
}

#[test]
fn key_name_covers_numpad_and_high_function_keys() {
    assert_eq!(key_name(0x83), "f20");
    assert_eq!(key_name(0x60), "0");
    assert_eq!(key_name(0x6A), "*");
}

#[test]
fn key_name_is_the_inverse_of_resolve_vk() {
    let mut vks: Vec<u16> = Vec::new();
    vks.extend(0x41..=0x5Au16);
    vks.extend(0x30..=0x39u16);
    vks.extend(0x70..=0x7Bu16);
    vks.extend([
        0x08, 0x09, 0x0D, 0x10, 0x11, 0x12, 0x13, 0x14, 0x1B, 0x20, 0x21, 0x22, 0x23, 0x24,
        0x25, 0x26, 0x27, 0x28, 0x2C, 0x2D, 0x2E, 0x5B, 0x5C, 0xA0, 0xA1, 0xA2, 0xA3, 0xA4,
        0xA5, 0xBA, 0xBB, 0xBC, 0xBD, 0xBE, 0xBF, 0xC0, 0xDB, 0xDC, 0xDD, 0xDE,
    ]);
    for vk in vks {
        let name = key_name(vk);
        assert_eq!(
            resolve_vk(&name),
            Some(vk),
            "vk {vk:#04x} recorded as {name:?} did not resolve back"
        );
    }
}

#[test]
fn move_dedup_skips_only_exact_same_pixel() {
    let mut s = state();
    s.handle_move(100, 200);
    s.handle_move(100, 200);
    s.handle_move(101, 200);
    assert_eq!(s.events.len(), 2);
    assert_eq!(s.events[0].x, 100);
    assert_eq!(s.events[1].x, 101);

    s.handle_button(true, 101, 200, "left");
    s.handle_move(101, 200);
    assert_eq!(s.events.len(), 4);
    assert_eq!(s.events[3].event_type, InputEventType::MouseMove);
}

#[test]
fn button_and_scroll_events_carry_their_fields() {
    let mut s = state();
    s.handle_button(true, 10, 20, "right");
    s.handle_button(false, 10, 20, "right");
    s.handle_scroll(10, 20, -3);
    assert_eq!(s.events[0].event_type, InputEventType::MouseDown);
    assert_eq!(s.events[0].button, "right");
    assert_eq!(s.events[1].event_type, InputEventType::MouseUp);
    assert_eq!(s.events[2].event_type, InputEventType::Scroll);
    assert_eq!(s.events[2].delta, -3);
}

#[test]
fn key_events_record_the_name_and_honor_ignore_keys() {
    let mut s = RecorderState::new(vec!["f3".to_string()]);
    s.handle_key(true, 0x41);
    s.handle_key(false, 0x41);
    s.handle_key(true, 0x72);
    s.handle_key(false, 0x72);
    assert_eq!(s.events.len(), 2);
    assert_eq!(s.events[0].event_type, InputEventType::KeyDown);
    assert_eq!(s.events[0].key, "a");
    assert_eq!(s.events[1].event_type, InputEventType::KeyUp);
}

#[test]
fn paused_recording_drops_events() {
    let mut s = state();
    s.handle_move(1, 1);
    s.pause();
    s.handle_move(2, 2);
    s.handle_key(true, 0x41);
    assert_eq!(s.events.len(), 1);
    s.resume();
    s.handle_move(3, 3);
    assert_eq!(s.events.len(), 2);
}

#[test]
fn round4_matches_python_round() {
    assert_eq!(round_to_tenth_ms(1_234_560), 1_234_600);
    assert_eq!(round_to_tenth_ms(123_440), 123_400);
    assert_eq!(round_to_tenth_ms(123_460), 123_500);
    assert_eq!(round_to_tenth_ms(993_210), 993_200);
    assert_eq!(round_to_tenth_ms(50_000), 50_000);
    assert_eq!(round_to_tenth_ms(0), 0);
}

#[test]
fn rounding_a_tie_goes_to_the_even_tenth() {
    assert_eq!(round_to_tenth_ms(250), 200);
    assert_eq!(round_to_tenth_ms(350), 400);
    assert_eq!(round_to_tenth_ms(u64::MAX), 18_446_744_073_709_551_600);
}

#[test]
fn trailing_wait_preserves_idle_after_the_last_action() {
    let mut events = vec![new_event(InputEventType::KeyDown, 1_000_000)];
    append_trailing_wait(&mut events, 3_500_000);
    assert_eq!(events.len(), 2);
    assert_eq!(events[1].event_type, InputEventType::Wait);
    assert_eq!(events[1].timestamp_us, 3_500_000, "stamped at the total elapsed time");
}

#[test]
fn trailing_wait_skips_reaction_time_and_empty_recordings() {
    // Sub-threshold idle is the stop-press reaction, not a deliberate pause.
    let mut events = vec![new_event(InputEventType::KeyDown, 1_000_000)];
    append_trailing_wait(&mut events, 1_030_000);
    assert_eq!(events.len(), 1);

    // An all-idle recording (no actions) stays empty.
    let mut empty: Vec<MacroEvent> = Vec::new();
    append_trailing_wait(&mut empty, 5_000_000);
    assert!(empty.is_empty());
}

#[test]
fn finishing_rounds_every_timestamp_before_the_trailing_wait() {
    let mut events = vec![
        new_event(InputEventType::KeyDown, 123_456),
        new_event(InputEventType::KeyUp, 1_000_049),
    ];
    finish_events(&mut events, 1_050_051);
    assert_eq!(events[0].timestamp_us, 123_500);
    assert_eq!(events[1].timestamp_us, 1_000_000);
    assert_eq!(events[1].event_type, InputEventType::KeyUp);
    assert_eq!(events.len(), 3);
    assert_eq!(events[2].timestamp_us, 1_050_100);
    assert_eq!(events[2].event_type, InputEventType::Wait);
}

#[test]
fn a_recorded_time_rounds_from_its_exact_reading() {
    // 250.5 us is past the tie at 250 us, so it rounds up to 0.3 ms.
    assert_eq!(round_ns_to_tenth_ms(250_500), 300);
    assert_eq!(round_ns_to_tenth_ms(250_000), 200);
    assert_eq!(round_ns_to_tenth_ms(350_000), 400);
    assert_eq!(round_ns_to_tenth_ms(1_234_567_890), 1_234_600);
}
