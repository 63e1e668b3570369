use clawmation::hardware::capture::Frame;
use clawmation::hardware::overlay::{Event, Flow};
use clawmation::hardware::picker::{
    bgr_to_hsv, clamped, darkened, hdiv_table, hit_corner, magnified, offset_at, rect_of,
    sample_color_at, sdiv_table, zoom_for, ColorScene, RegionScene, VK_BACK, VK_D, VK_ESCAPE,
    VK_G, VK_LEFT, VK_RETURN, VK_RIGHT,
};
use clawmation::hardware::surgical::{Mode, SurgicalScene, ADJUST_TITLE, TARGET_TITLE};

#[test]
fn hsv_matches_opencv_on_the_primaries() {
    assert_eq!(bgr_to_hsv(0, 0, 255), (0, 255, 255));
    assert_eq!(bgr_to_hsv(0, 255, 0), (60, 255, 255));
    assert_eq!(bgr_to_hsv(255, 0, 0), (120, 255, 255));
    assert_eq!(bgr_to_hsv(0, 255, 255), (30, 255, 255));
    assert_eq!(bgr_to_hsv(255, 255, 0), (90, 255, 255));
    assert_eq!(bgr_to_hsv(255, 0, 255), (150, 255, 255));
}

#[test]
fn hsv_greys_have_no_hue_and_no_saturation() {
    assert_eq!(bgr_to_hsv(0, 0, 0), (0, 0, 0));
    assert_eq!(bgr_to_hsv(128, 128, 128), (0, 0, 128));
    assert_eq!(bgr_to_hsv(255, 255, 255), (0, 0, 255));
}

#[test]
fn hsv_hue_wraps_below_red_instead_of_going_negative() {
    assert_eq!(bgr_to_hsv(5, 0, 255).0, 179);
    assert_eq!(bgr_to_hsv(40, 0, 255).0, 175);
    for b in 0..=255u8 {
        for g in [0u8, 77, 200, 255] {
            assert!(bgr_to_hsv(b, g, 255).0 < 180);
        }
    }
}

#[test]
fn hsv_tables_are_the_opencv_reciprocals() {
    assert_eq!(sdiv_table()[0], 0);
    assert_eq!(sdiv_table()[255], 4096);
    assert_eq!(hdiv_table()[0], 0);
    assert_eq!(hdiv_table()[255], 482);
}

#[test]
fn drag_normalises_whichever_way_it_was_drawn() {
    assert_eq!(rect_of(10, 10, 40, 30), (10, 10, 30, 20));
    assert_eq!(rect_of(40, 30, 10, 10), (10, 10, 30, 20));
    assert_eq!(rect_of(5, 5, 5, 5), (5, 5, 0, 0));
}

#[test]
fn corner_hits_are_ordered_tl_tr_bl_br() {
    let r = (100, 100, 50, 50);
    assert_eq!(hit_corner(r, 100, 100, 10), 0);
    assert_eq!(hit_corner(r, 150, 100, 10), 1);
    assert_eq!(hit_corner(r, 100, 150, 10), 2);
    assert_eq!(hit_corner(r, 150, 150, 10), 3);
    assert_eq!(hit_corner(r, 109, 109, 10), 0);
    assert_eq!(hit_corner(r, 125, 125, 10), -1);
}

#[test]
fn clamping_keeps_the_box_inside_the_frame_and_at_least_six_wide() {
    assert_eq!(clamped((10, 10, 20, 20), 100, 100), (10, 10, 20, 20));
    assert_eq!(clamped((0, 0, 2, 2), 100, 100), (0, 0, 6, 6));
    assert_eq!(clamped((95, 95, 20, 20), 100, 100), (80, 80, 20, 20));
    assert_eq!(clamped((-5, -5, 20, 20), 100, 100), (0, 0, 20, 20));
    assert_eq!(clamped((0, 0, 500, 500), 100, 100), (0, 0, 100, 100));
}

#[test]
fn zoom_fits_the_crop_into_most_of_the_screen() {
    assert_eq!(zoom_for(100, 100, 1920, 1080), 7);
    assert_eq!(zoom_for(1, 1, 1920, 1080), 48);
    assert_eq!(zoom_for(2000, 2000, 1920, 1080), 4);
    assert_eq!(zoom_for(0, 0, 1920, 1080), 48);
}

#[test]
fn cursor_maps_to_crop_pixels_and_rejects_the_surrounding_screen() {
    assert_eq!(offset_at(100, 100, 100, 100, 10, 8, 8), Some((0, 0)));
    assert_eq!(offset_at(109, 100, 100, 100, 10, 8, 8), Some((0, 0)));
    assert_eq!(offset_at(110, 100, 100, 100, 10, 8, 8), Some((1, 0)));
    assert_eq!(offset_at(179, 179, 100, 100, 10, 8, 8), Some((7, 7)));
    assert_eq!(offset_at(180, 100, 100, 100, 10, 8, 8), None);
    assert_eq!(offset_at(105, 99, 100, 100, 10, 8, 8), None);
    assert_eq!(offset_at(-1, 100, 100, 100, 10, 8, 8), None);
}

#[test]
fn magnification_replicates_pixels_exactly() {
    let crop = Frame { bgr: vec![1, 2, 3, 4, 5, 6], width: 2, height: 1 };
    let dib = magnified(&crop, 3);
    let row: Vec<u8> = (0..6).flat_map(|c| if c < 3 { [1, 2, 3, 255] } else { [4, 5, 6, 255] }).collect();
    let expected: Vec<u8> = row.repeat(3);
    assert_eq!(dib.bytes(), expected.as_slice());
}

#[test]
fn darkening_scales_every_channel_toward_black() {
    let f = Frame { bgr: vec![0, 100, 255], width: 1, height: 1 };
    assert_eq!(darkened(&f).bytes(), &[0, 42, 107, 255]);
}

#[test]
fn darkening_matches_single_precision_scaling_on_every_level() {
    // The factor is the `f32` nearest 0.42; every 8-bit level must scale and
    // truncate exactly as a single-precision multiply does.
    let bgr: Vec<u8> = (0..=255u8).flat_map(|v| [v, v, v]).collect();
    let f = Frame { bgr, width: 256, height: 1 };
    let d = darkened(&f);
    for v in 0..=255u32 {
        let expected = (v as f32 * 0.42f32) as u8;
        assert_eq!(d.bytes()[(v * 4) as usize], expected, "level {v}");
    }
}

// ── Lasso, through the scenes ────────────────────────────────────────────────

/// A dark field with one button-coloured rectangle on it, and that
/// rectangle, which is what the lasso is expected to return.
fn framed_button() -> (Frame, (i32, i32, i32, i32)) {
    let (fw, fh) = (400i32, 300i32);
    let mut bgr = vec![40u8; (fw * fh * 3) as usize];
    let button = (100, 80, 120, 36);
    let (bx, by, bw, bh) = button;
    for y in by..by + bh {
        for x in bx..bx + bw {
            let i = ((y * fw + x) * 3) as usize;
            bgr[i..i + 3].copy_from_slice(&[200, 160, 90]);
        }
    }
    (Frame { bgr, width: fw as u32, height: fh as u32 }, button)
}

#[test]
fn hovering_a_control_offers_it_and_a_click_takes_it() {
    let (frame, button) = framed_button();
    let mut scene = RegionScene::new(frame);

    assert_eq!(scene.event(Event::MouseMove { x: 150, y: 95 }), Flow::Repaint);
    assert_eq!(scene.hover_rect(), Some(button), "nothing was offered to click");

    scene.event(Event::LeftDown { x: 150, y: 95 });
    assert_eq!(scene.event(Event::LeftUp { x: 150, y: 95 }), Flow::Close);
    assert_eq!(scene.take(), Some(button));
}

#[test]
fn a_drawn_box_still_wins_over_the_offer() {
    let (frame, button) = framed_button();
    let mut scene = RegionScene::new(frame);

    scene.event(Event::MouseMove { x: 150, y: 95 });
    scene.event(Event::LeftDown { x: 150, y: 95 });
    scene.event(Event::MouseMove { x: 260, y: 200 });
    assert_eq!(scene.event(Event::LeftUp { x: 260, y: 200 }), Flow::Close);
    let picked = scene.take().expect("the drag");
    assert_eq!(picked, (150, 95, 110, 105));
    assert_ne!(picked, button);
}

#[test]
fn clicking_where_there_is_no_control_commits_nothing() {
    let (frame, _) = framed_button();
    let mut scene = RegionScene::new(frame);

    scene.event(Event::MouseMove { x: 20, y: 20 });
    assert_eq!(scene.hover_rect(), None);
    scene.event(Event::LeftDown { x: 20, y: 20 });
    // Repaint, not Close: the overlay stays up so the user can try again.
    assert_eq!(scene.event(Event::LeftUp { x: 20, y: 20 }), Flow::Repaint);
    assert_eq!(scene.take(), None);
}

fn surgical(frame: Frame) -> SurgicalScene {
    SurgicalScene::new(frame, 1920, 1080)
}

#[test]
fn the_surgical_picker_snaps_a_click_straight_into_adjust() {
    let (frame, button) = framed_button();
    let mut scene = surgical(frame);

    scene.event(Event::MouseMove { x: 150, y: 95 });
    scene.event(Event::LeftDown { x: 150, y: 95 });
    assert_eq!(scene.event(Event::LeftUp { x: 150, y: 95 }), Flow::Repaint);

    // The drag phase is skipped entirely, and the box is the control's.
    assert!(scene.mode == Mode::Adjust);
    assert_eq!(scene.rect(), button);
    assert_eq!(scene.take_title(), Some(ADJUST_TITLE));
}

#[test]
fn confirming_a_snap_commits_the_middle_without_the_pixel_editor() {
    let (frame, button) = framed_button();
    let mut scene = surgical(frame);

    scene.event(Event::MouseMove { x: 150, y: 95 });
    scene.event(Event::LeftDown { x: 150, y: 95 });
    scene.event(Event::LeftUp { x: 150, y: 95 });
    assert_eq!(scene.event(Event::Key { vk: VK_RETURN, shift: false }), Flow::Close);

    assert!(scene.target_rect().is_none(), "the pixel editor was opened anyway");
    let (x, y, w, h, strokes) = scene.take().expect("the snap");
    assert_eq!((x, y, w, h), button);
    // Crop-relative, and a point rather than a line.
    let (mx, my) = (button.2 / 2, button.3 / 2);
    assert_eq!(strokes, vec![[mx, my, mx, my]]);
}

#[test]
fn d_still_opens_the_pixel_editor_for_an_off_centre_click() {
    let (frame, button) = framed_button();
    let mut scene = surgical(frame);

    scene.event(Event::MouseMove { x: 150, y: 95 });
    scene.event(Event::LeftDown { x: 150, y: 95 });
    scene.event(Event::LeftUp { x: 150, y: 95 });
    assert_eq!(scene.event(Event::Key { vk: VK_D, shift: false }), Flow::Repaint);

    assert_eq!(scene.target_rect().expect("the pixel editor"), button);
}

#[test]
fn strokes_drawn_in_the_editor_are_committed_crop_relative() {
    let (frame, button) = framed_button();
    let mut scene = surgical(frame);
    scene.event(Event::MouseMove { x: 150, y: 95 });
    scene.event(Event::LeftDown { x: 150, y: 95 });
    scene.event(Event::LeftUp { x: 150, y: 95 });
    scene.event(Event::Key { vk: VK_D, shift: false });
    assert_eq!(scene.take_title(), Some(TARGET_TITLE));
    let t = scene.target.as_ref().unwrap();
    let (ox, oy, zoom) = (t.ox, t.oy, t.zoom);
    assert_eq!(zoom, 11);
    // Press on crop pixel (3, 4), drag to (10, 4), release.
    scene.event(Event::MouseMove { x: ox + 3 * zoom, y: oy + 4 * zoom });
    assert_eq!(scene.event(Event::LeftDown { x: 0, y: 0 }), Flow::Repaint);
    scene.event(Event::MouseMove { x: ox + 10 * zoom + 1, y: oy + 4 * zoom + 2 });
    scene.event(Event::LeftUp { x: 0, y: 0 });
    assert_eq!(scene.strokes, vec![[3, 4, 10, 4]]);
    // A press off the crop starts nothing.
    scene.event(Event::MouseMove { x: ox - 1, y: oy });
    assert_eq!(scene.event(Event::LeftDown { x: 0, y: 0 }), Flow::Idle);
    // G toggles the grid; Enter commits the crop with the stroke.
    assert!(scene.show_grid);
    scene.event(Event::Key { vk: VK_G, shift: false });
    assert!(!scene.show_grid);
    assert_eq!(scene.event(Event::Key { vk: VK_RETURN, shift: false }), Flow::Close);
    let (x, y, w, h, strokes) = scene.take().unwrap();
    assert_eq!((x, y, w, h), button);
    assert_eq!(strokes, vec![[3, 4, 10, 4]]);
}

#[test]
fn backspace_with_nothing_drawn_returns_to_adjusting_the_box() {
    let (frame, button) = framed_button();
    let mut scene = surgical(frame);
    scene.event(Event::MouseMove { x: 150, y: 95 });
    scene.event(Event::LeftDown { x: 150, y: 95 });
    scene.event(Event::LeftUp { x: 150, y: 95 });
    scene.event(Event::Key { vk: VK_D, shift: false });
    assert!(scene.target_rect().is_some());
    assert_eq!(scene.event(Event::Key { vk: VK_BACK, shift: false }), Flow::Repaint);
    assert!(scene.target_rect().is_none());
    assert!(scene.mode == Mode::Adjust);
    assert_eq!(scene.rect(), button);
}

#[test]
fn arrows_nudge_the_box_and_keep_it_inside_the_frame() {
    let (frame, _) = framed_button();
    let mut scene = surgical(frame);
    scene.event(Event::LeftDown { x: 5, y: 5 });
    scene.event(Event::MouseMove { x: 50, y: 40 });
    scene.event(Event::LeftUp { x: 50, y: 40 });
    assert!(scene.mode == Mode::Adjust);
    assert_eq!(scene.rect(), (5, 5, 45, 35));
    scene.event(Event::Key { vk: VK_RIGHT, shift: true });
    assert_eq!(scene.rect(), (15, 5, 45, 35));
    scene.event(Event::Key { vk: VK_LEFT, shift: true });
    scene.event(Event::Key { vk: VK_LEFT, shift: true });
    assert_eq!(scene.rect(), (0, 5, 45, 35));
    assert_eq!(scene.event(Event::Key { vk: VK_ESCAPE, shift: false }), Flow::Close);
    assert_eq!(scene.take(), None);
}

#[test]
fn a_corner_drag_resizes_and_the_inside_drag_moves() {
    let (frame, _) = framed_button();
    let mut scene = surgical(frame);
    scene.event(Event::LeftDown { x: 10, y: 10 });
    scene.event(Event::LeftUp { x: 60, y: 50 });
    assert_eq!(scene.rect(), (10, 10, 50, 40));
    // Grab the bottom-right corner and pull it out.
    scene.event(Event::LeftDown { x: 58, y: 52 });
    scene.event(Event::MouseMove { x: 100, y: 90 });
    scene.event(Event::LeftUp { x: 100, y: 90 });
    assert_eq!(scene.rect(), (10, 10, 90, 80));
    // Grab the middle and drag it past the frame's edge.
    scene.event(Event::LeftDown { x: 50, y: 50 });
    scene.event(Event::MouseMove { x: 1000, y: 50 });
    scene.event(Event::LeftUp { x: 1000, y: 50 });
    assert_eq!(scene.rect(), (310, 10, 90, 80));
}

#[test]
fn a_click_samples_the_averaged_colour_under_it() {
    let (frame, _) = framed_button();
    let mut scene = ColorScene::new(frame);
    assert_eq!(scene.event(Event::MouseMove { x: 3, y: 4 }), Flow::Repaint);
    assert_eq!(scene.event(Event::LeftDown { x: 150, y: 95 }), Flow::Close);
    let s = scene.take().unwrap();
    let (h, sat, v) = bgr_to_hsv(200, 160, 90);
    assert_eq!((s.x, s.y), (150, 95));
    assert_eq!(s.hsv, [h as i32, sat as i32, v as i32]);
    assert_eq!(s.bgr, [200, 160, 90]);
    assert_eq!(s.hex, "#5aa0c8");
    assert_eq!(s.hsv_low, [(h as i32 - 10).max(0), (sat as i32 - 30).max(0), (v as i32 - 30).max(0)]);
    assert_eq!(s.hsv_high, [(h as i32 + 10).min(179), (sat as i32 + 30).min(255), (v as i32 + 30).min(255)]);
}

#[test]
fn sampling_at_the_edge_is_clamped_two_pixels_in() {
    let (frame, _) = framed_button();
    let s = sample_color_at(&frame, -50, 1000);
    assert_eq!((s.x, s.y), (2, 297));
    assert_eq!(s.hsv[2], 40);
    assert_eq!(s.hex, "#282828");
}
