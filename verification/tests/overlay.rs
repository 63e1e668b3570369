use clawmation::hardware::overlay::{
    colorref, lparam_point, translate, Event, WM_KEYDOWN, WM_LBUTTONDOWN, WM_MOUSEMOVE,
    WM_MOUSEWHEEL,
};

#[test]
fn colorref_packs_bgr_the_way_win32_reads_it() {
    // 0x00bbggrr.
    assert_eq!(colorref((0x11, 0x22, 0x33)), 0x0011_2233);
    assert_eq!(colorref((0, 0, 255)), 0x0000_00ff); // pure red
    assert_eq!(colorref((255, 0, 0)), 0x00ff_0000); // pure blue
}

#[test]
fn lparam_point_sign_extends_negative_coordinates() {
    // Cursor at (10, 20).
    assert_eq!(lparam_point((20 << 16) | 10), (10, 20));
    // Cursor at (-3, -1): masking with 0xFFFF would have read 65533 / 65535.
    let packed = ((0xFFFFi64 & -1) << 16) | (0xFFFF & -3);
    assert_eq!(lparam_point(packed), (-3, -1));
}

#[test]
fn wheel_delta_is_signed() {
    let up = translate(WM_MOUSEWHEEL, 120 << 16, 0, false);
    assert_eq!(up, Some(Event::Wheel { delta: 120 }));
    let down = translate(WM_MOUSEWHEEL, (0xFF88u64) << 16, 0, false);
    assert_eq!(down, Some(Event::Wheel { delta: -120 }));
}

#[test]
fn unhandled_messages_translate_to_nothing() {
    // WM_PAINT.
    assert_eq!(translate(0x000F, 0, 0, false), None);
}

#[test]
fn mouse_and_key_messages_carry_their_fields() {
    assert_eq!(
        translate(WM_MOUSEMOVE, 0, (7 << 16) | 5, false),
        Some(Event::MouseMove { x: 5, y: 7 })
    );
    assert_eq!(
        translate(WM_LBUTTONDOWN, 0, -1, false),
        Some(Event::LeftDown { x: -1, y: -1 })
    );
    assert_eq!(
        translate(WM_KEYDOWN, 0x1_0000_0041, 0, true),
        Some(Event::Key { vk: 0x41, shift: true })
    );
}
