use clawmation::hardware::capture::{bgra_to_bgr_crop, region_rect, Frame};

#[test]
fn region_rect_full_screen_and_crop() {
    // None → the whole screen.
    assert_eq!(region_rect(None, 2560, 1440), (0, 0, 2560, 1440));
    // (x1,y1,x2,y2) → (left, top, width, height).
    assert_eq!(region_rect(Some((100, 50, 400, 250)), 2560, 1440), (100, 50, 300, 200));
    // Inverted / degenerate region floors the extent at 0.
    assert_eq!(region_rect(Some((400, 250, 100, 50)), 2560, 1440), (400, 250, 0, 0));
}

#[test]
fn bgra_to_bgr_respects_row_pitch() {
    let pitch = 12;
    let mut src = vec![0u8; pitch * 2];
    src[0..4].copy_from_slice(&[1, 2, 3, 255]);
    src[4..8].copy_from_slice(&[4, 5, 6, 255]);
    src[12..16].copy_from_slice(&[7, 8, 9, 255]);
    src[16..20].copy_from_slice(&[10, 11, 12, 255]);

    let out = bgra_to_bgr_crop(&src, pitch, 2, 2, 0, 0, 2, 2);
    assert_eq!(out, vec![1, 2, 3, 4, 5, 6, 7, 8, 9, 10, 11, 12]);
}

#[test]
fn bgra_to_bgr_crops_a_sub_rect() {
    let pitch = 12;
    let mut src = vec![0u8; pitch * 2];
    for px in 0..6 {
        let base = px * 4;
        let v = (px as u8 + 1) * 10;
        src[base..base + 4].copy_from_slice(&[v, v + 1, v + 2, 255]);
    }
    let out = bgra_to_bgr_crop(&src, pitch, 3, 2, 1, 1, 2, 1);
    assert_eq!(out, vec![50, 51, 52, 60, 61, 62]);
}

#[test]
fn bgra_to_bgr_clamps_oversized_region() {
    let src = vec![9u8, 8, 7, 255];
    let out = bgra_to_bgr_crop(&src, 4, 1, 1, 0, 0, 2, 2);
    assert_eq!(out, vec![9, 8, 7, 0, 0, 0, 0, 0, 0, 0, 0, 0]);
}

#[test]
fn crop_clamps_to_the_frame_and_rejects_empty_rectangles() {
    let f = Frame { bgr: (0..2 * 2 * 3).map(|v| v as u8).collect(), width: 2, height: 2 };
    let c = f.crop(1, 1, 5, 5).expect("one pixel survives the clamp");
    assert_eq!((c.width, c.height), (1, 1));
    assert_eq!(c.bgr, vec![9, 10, 11]);
    assert!(f.crop(2, 0, 3, 3).is_none());
}
