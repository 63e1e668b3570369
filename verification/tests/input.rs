use clawmation::hardware::input::{
    button_flags, resolve_vk, to_absolute, Injection, InputController, SplitMix64,
    MOUSEEVENTF_LEFTDOWN, MOUSEEVENTF_LEFTUP, MOUSEEVENTF_MIDDLEDOWN, MOUSEEVENTF_MIDDLEUP,
    MOUSEEVENTF_RIGHTDOWN, MOUSEEVENTF_RIGHTUP,
};

#[test]
fn to_absolute_maps_corners_and_clamps() {
    assert_eq!(to_absolute(0, 0, 0, 0, 1920, 1080), (0, 0));
    assert_eq!(to_absolute(1919, 1079, 0, 0, 1920, 1080), (65535, 65535));
    assert_eq!(to_absolute(100, 50, 100, 50, 1920, 1080), (0, 0));
    assert_eq!(to_absolute(5000, 5000, 0, 0, 1920, 1080), (65535, 65535));
    assert_eq!(to_absolute(-500, -500, 0, 0, 1920, 1080), (0, 0));
}

#[test]
fn to_absolute_rounds_half_to_even_like_the_float_path() {
    // Every pixel of a small desktop, against the double-precision formula.
    for w in [1, 2, 3, 7, 640, 1921] {
        for x in -3..(w + 3) {
            let d = (w - 1).max(1);
            let expected =
                ((x as f64 * 65535.0 / d as f64).round_ties_even() as i32).clamp(0, 65535);
            assert_eq!(to_absolute(x, 0, 0, 0, w, 1).0, expected, "x={x} w={w}");
        }
    }
}

#[test]
fn button_flags_cover_every_alias() {
    assert_eq!(button_flags("left", true), MOUSEEVENTF_LEFTDOWN);
    assert_eq!(button_flags("left", false), MOUSEEVENTF_LEFTUP);
    assert_eq!(button_flags("right", true), MOUSEEVENTF_RIGHTDOWN);
    assert_eq!(button_flags("secondary", false), MOUSEEVENTF_RIGHTUP);
    assert_eq!(button_flags("middle", true), MOUSEEVENTF_MIDDLEDOWN);
    assert_eq!(button_flags("center", false), MOUSEEVENTF_MIDDLEUP);
    assert_eq!(button_flags("", true), MOUSEEVENTF_LEFTDOWN);
    assert_eq!(button_flags("bogus", false), MOUSEEVENTF_LEFTUP);
    assert_eq!(button_flags("RIGHT", true), MOUSEEVENTF_RIGHTDOWN);
}

#[test]
fn resolve_vk_matches_python_vk_table() {
    assert_eq!(resolve_vk("a"), Some(0x41));
    assert_eq!(resolve_vk("A"), Some(0x41));
    assert_eq!(resolve_vk("z"), Some(0x5A));
    assert_eq!(resolve_vk("5"), Some(0x35));
    assert_eq!(resolve_vk("space"), Some(0x20));
    assert_eq!(resolve_vk("enter"), Some(0x0D));
    assert_eq!(resolve_vk("return"), Some(0x0D));
    assert_eq!(resolve_vk("ctrl"), Some(0x11));
    assert_eq!(resolve_vk("f9"), Some(0x78));
    assert_eq!(resolve_vk("f12"), Some(0x7B));
    assert_eq!(resolve_vk("Key.space"), Some(0x20));
    assert_eq!(resolve_vk(";"), Some(0xBA));
    assert_eq!(resolve_vk("."), Some(0xBE));
    assert_eq!(resolve_vk("/"), Some(0xBF));
    assert_eq!(resolve_vk(""), None);
}

#[test]
fn unknown_keys_resolve_to_nothing() {
    assert_eq!(resolve_vk("definitely_not_a_key"), None);
    assert_eq!(resolve_vk("!"), None);
    assert_eq!(resolve_vk("Key.Shift_L"), Some(0xA0));
}

#[test]
fn actions_describe_their_sendinput_records_in_order() {
    let c = InputController::new();
    assert_eq!(
        c.click(5, 6, "right"),
        vec![
            Injection::MoveTo { x: 5, y: 6 },
            Injection::Button { flags: MOUSEEVENTF_RIGHTDOWN },
            Injection::Button { flags: MOUSEEVENTF_RIGHTUP },
        ]
    );
    assert_eq!(c.mouse_down(None, "left"), vec![Injection::Button { flags: MOUSEEVENTF_LEFTDOWN }]);
    assert_eq!(
        c.mouse_up(Some((1, 2)), "middle"),
        vec![Injection::MoveTo { x: 1, y: 2 }, Injection::Button { flags: MOUSEEVENTF_MIDDLEUP }]
    );
    assert_eq!(
        c.key_press("a"),
        vec![Injection::Key { vk: 0x41, up: false }, Injection::Key { vk: 0x41, up: true }]
    );
    assert_eq!(c.key_down("nope"), vec![]);
    assert_eq!(c.key_up("Key.esc"), vec![Injection::Key { vk: 0x1B, up: true }]);
}

#[test]
fn splitmix64_is_deterministic() {
    let mut a = SplitMix64::new(42);
    let mut b = SplitMix64::new(42);
    for _ in 0..100 {
        assert_eq!(a.next_u64(), b.next_u64());
    }
    // The published first output for seed 0.
    assert_eq!(SplitMix64::new(0).next_u64(), 0xE220_A839_7B1D_CDAF);
}
