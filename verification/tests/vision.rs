use clawmation::hardware::vision::gpu_corr::worth_accelerating;
use clawmation::hardware::vision::image::Gray;
use clawmation::hardware::vision::template::auto_mask;
use clawmation::hardware::vision::canny::canny;
use clawmation::hardware::vision::{pixels_to_rgb, PixelLayout};
use clawmation::hardware::vision::{
    candidate_order, frame_from_rgb, global_probe_due, hot_zone, hsv_bounds, record_miss,
    recovery_grid, recovery_probe, RECOVERY_TILES_PER_MISS,
};

#[test]
fn same_scale_spatial_recovery_has_a_fixed_miss_bound() {
    let (columns, rows) = recovery_grid(2_560, 1_440);
    let tile_count = columns * rows;
    let misses = tile_count.div_ceil(RECOVERY_TILES_PER_MISS);
    assert_eq!(tile_count, 64);
    assert_eq!(misses, 16);
}

#[test]
fn reacquisition_advances_global_recovery_on_every_miss() {
    assert!(global_probe_due(1));
    assert!(global_probe_due(2));
    assert!(global_probe_due(3));
    assert!(global_probe_due(4));
    assert!(global_probe_due(6));
    assert!(!global_probe_due(0));
}

#[test]
fn hsv_bounds_clamp_instead_of_wrapping() {
    let (lo, hi) = hsv_bounds([-5, 0, 0], [300, 255, 255]);
    assert_eq!(lo, [0, 0, 0]);
    assert_eq!(hi, [255, 255, 255]);
}

#[test]
fn progressive_recovery_tiles_cover_every_target_center() {
    let (width, height) = (2_560_i64, 1_440_i64);
    let (target_w, target_h) = (229_i64, 64_i64);
    let (columns, rows) = recovery_grid(width, height);
    let tile_count = columns * rows;
    let tiles = (0..tile_count)
        .map(|cursor| recovery_probe(cursor, width, height, (target_w + 1) / 2, (target_h + 1) / 2).0)
        .collect::<Vec<_>>();

    for y in (target_h / 2..height - target_h / 2).step_by(31) {
        for x in (target_w / 2..width - target_w / 2).step_by(31) {
            assert!(
                tiles.iter().any(|[x1, y1, x2, y2]| {
                    x - target_w / 2 >= *x1
                        && y - target_h / 2 >= *y1
                        && x + target_w / 2 <= *x2
                        && y + target_h / 2 <= *y2
                }),
                "target centred at ({x}, {y}) crosses every recovery tile"
            );
        }
    }
}

#[test]
fn progressive_recovery_finishes_the_learned_scale_before_scale_search() {
    let (columns, rows) = recovery_grid(2_560, 1_440);
    let tile_count = columns * rows;
    assert_eq!(recovery_probe(tile_count - 1, 2_560, 1_440, 0, 0).1, 0);
    assert_eq!(recovery_probe(tile_count, 2_560, 1_440, 0, 0).1, 1);
}

#[test]
fn work_threshold_rejects_small_and_invalid_jobs() {
    assert!(!worth_accelerating(100, 100, 3, 3));
    assert!(!worth_accelerating(10, 10, 11, 1));
    assert!(worth_accelerating(400, 300, 20, 20));
}

#[test]
fn a_huge_job_saturates_instead_of_overflowing() {
    assert!(worth_accelerating(usize::MAX, usize::MAX, 2, 2));
}

#[test]
fn rgb_is_stored_as_bgr() {
    let f = frame_from_rgb(&[1, 2, 3, 4, 5, 6], 2, 1);
    assert_eq!(f.bgr, vec![3, 2, 1, 6, 5, 4]);
}

#[test]
fn a_bordered_element_masks_its_surround_and_a_shapeless_crop_does_not() {
    let mut stroke = Gray::from_vec(24, 24, vec![20; 576]);
    for i in 4..20 {
        stroke.set(i, i, 220);
    }
    assert!(auto_mask(&canny(&stroke, 50, 150)).is_none());

    let mut inset = Gray::from_vec(40, 40, vec![5; 1600]);
    for y in 8..32 {
        for x in 8..32 {
            inset.set(x, y, 190);
        }
    }
    let mask = auto_mask(&canny(&inset, 50, 150)).expect("a bordered crop should mask");
    assert_eq!(mask.at(20, 20), 255, "the element itself must be kept");
    assert_eq!(mask.at(1, 1), 0, "the surround must be cleared");
}

#[test]
fn hot_zone_pads_by_at_least_the_fixed_margin_and_clips() {
    // Small target: the fixed pad wins. Centre (100, 50), 20x10 target.
    assert_eq!(hot_zone(100, 50, 20, 10, 1920, 1080), [54, 9, 146, 91]);
    // Near the corner the zone is clipped to the region.
    assert_eq!(hot_zone(10, 10, 20, 10, 1920, 1080), [0, 0, 56, 51]);
    assert_eq!(hot_zone(1910, 1075, 20, 10, 1920, 1080), [1864, 1034, 1920, 1080]);
    // Large target: half its size is the pad.
    assert_eq!(hot_zone(500, 500, 200, 100, 1920, 1080), [300, 400, 700, 600]);
}

#[test]
fn preferred_candidate_is_tried_first_and_the_rest_keep_their_order() {
    let paths = vec!["a.png".to_string(), "b.png".to_string(), "c.png".to_string()];
    assert_eq!(candidate_order(&paths, &None), vec![0, 1, 2]);
    assert_eq!(candidate_order(&paths, &Some("c.png".to_string())), vec![2, 0, 1]);
    assert_eq!(candidate_order(&paths, &Some("z.png".to_string())), vec![0, 1, 2]);
    let twice = vec!["x".to_string(), "p".to_string(), "y".to_string(), "p".to_string()];
    assert_eq!(candidate_order(&twice, &Some("p".to_string())), vec![1, 3, 0, 2]);
}

#[test]
fn a_miss_hands_out_the_next_tile_batch() {
    assert_eq!(record_miss(0, 0), (1, 4, vec![0, 1, 2, 3]));
    assert_eq!(record_miss(7, 12), (8, 16, vec![12, 13, 14, 15]));
    assert_eq!(record_miss(u32::MAX, 5), (u32::MAX, 9, vec![5, 6, 7, 8]));
    assert_eq!(
        record_miss(1, usize::MAX - 1),
        (2, 2, vec![usize::MAX - 1, usize::MAX, 0, 1])
    );
}

#[test]
fn decoded_pixels_become_rgb() {
    assert_eq!(pixels_to_rgb(&[1, 2, 3, 9, 4, 5, 6, 9], PixelLayout::Rgba), vec![1, 2, 3, 4, 5, 6]);
    assert_eq!(pixels_to_rgb(&[7, 8], PixelLayout::Gray), vec![7, 7, 7, 8, 8, 8]);
    assert_eq!(pixels_to_rgb(&[7, 0, 8, 0], PixelLayout::GrayAlpha), vec![7, 7, 7, 8, 8, 8]);
    assert_eq!(pixels_to_rgb(&[1, 2, 3], PixelLayout::Rgb), vec![1, 2, 3]);
}
