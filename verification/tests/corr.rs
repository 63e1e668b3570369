use clawmation::hardware::vision::corr::{box_sum, correlate, integral, Searched};
use clawmation::hardware::vision::image::Gray;
use clawmation::hardware::vision::template::work;

#[test]
fn the_integral_image_agrees_with_a_direct_sum() {
    let w = 7;
    let h = 5;
    let px: Vec<i32> = (0..(w * h) as i32).map(|i| i * 3 % 91).collect();
    let sat = integral(&px, w, h);
    for (x, y, bw, bh) in [(0usize, 0usize, 7usize, 5usize), (2, 1, 3, 3), (6, 4, 1, 1)] {
        let mut direct: i64 = 0;
        for j in y..y + bh {
            for i in x..x + bw {
                direct += i64::from(px[j * w + i]);
            }
        }
        assert_eq!(box_sum(&sat, w, x, y, bw, bh), direct, "box {x},{y} {bw}x{bh}");
    }
}

#[test]
fn the_integral_image_has_a_zero_border() {
    let px = vec![1, 2, 3, 4, 5, 6];
    let sat = integral(&px, 3, 2);
    assert_eq!(sat, vec![0, 0, 0, 0, 0, 1, 3, 6, 0, 5, 12, 21]);
    assert_eq!(box_sum(&sat, 3, 1, 0, 0, 2), 0);
}

#[test]
fn correlation_is_the_sum_of_products_at_each_offset() {
    // 4x3 image, 2x2 kernel.
    let img = vec![1, 2, 3, 4, 5, 6, 7, 8, 9, 10, 11, 12];
    let ker = vec![1, 0, 0, 2];
    let out = correlate(&img, 4, 3, &ker, 2, 2);
    // (x, y): img[y][x] + 2 * img[y + 1][x + 1]
    assert_eq!(out, vec![1 + 12, 2 + 14, 3 + 16, 5 + 20, 6 + 22, 7 + 24]);
    let whole = correlate(&img, 4, 3, &vec![1; 12], 4, 3);
    assert_eq!(whole, vec![78]);
}

#[test]
fn a_prepared_search_area_sums_windows_of_pixels_and_squares() {
    let g = Gray::from_vec(3, 2, vec![1, 2, 3, 4, 5, 255]);
    let s = Searched::new(&g);
    assert_eq!((s.w(), s.h()), (3, 2));
    assert_eq!(s.window_sums(0, 0, 3, 2), (270, 1 + 4 + 9 + 16 + 25 + 65025));
    assert_eq!(s.window_sums(1, 1, 2, 1), (260, 25 + 65025));
    assert_eq!(s.correlate_pixels(&vec![1, 1], 2, 1), vec![3, 5, 9, 260]);
    assert_eq!(s.correlate_squares(&vec![0, 1], 1, 2), vec![16, 25, 65025]);
}

#[test]
fn correlation_work_counts_positions_times_area() {
    assert_eq!(work(100, 50, 10, 5), 91 * 46 * 50);
    assert_eq!(work(10, 10, 20, 5), 0);
    assert_eq!(work(10, 10, 10, 10), 100);
    assert_eq!(work(3_000_000_000, 3_000_000_000, 2_000_000_000, 2_000_000_000), u64::MAX);
}

use clawmation::hardware::vision::template::{
    keep_distinct, padded_window, same_nomination, same_target, temporal_window,
};

#[test]
fn the_local_window_is_padded_and_clipped_and_must_still_hold_the_target() {
    // Last seen at (500, 300), 40x20, search area origin (100, 100), 800x600.
    assert_eq!(temporal_window((500, 300, 40, 20), 100, 100, 800, 600), Some([320, 130, 480, 270]));
    // Near the corner the window is clipped.
    assert_eq!(temporal_window((110, 105, 40, 20), 100, 100, 800, 600), Some([0, 0, 90, 75]));
    // A window clipped narrower than the target is refused.
    assert_eq!(padded_window(5, 5, 40, 20, 0, 0, 30, 600), None);
    assert_eq!(padded_window(5, 5, 10, 10, 0, 0, 30, 600), Some([0, 0, 10, 10]));
}

#[test]
fn overlapping_hits_collapse_but_separate_targets_stay() {
    assert!(same_target((100, 100, 20, 20), (104, 96, 20, 20)));
    assert!(!same_target((100, 100, 20, 20), (110, 100, 20, 20)));
    let boxes = vec![
        (100, 100, 20, 20),
        (103, 101, 20, 20),
        (300, 100, 20, 20),
        (99, 98, 20, 20),
        (302, 104, 20, 20),
    ];
    assert_eq!(keep_distinct(&boxes), vec![0, 2]);
    assert!(keep_distinct(&Vec::new()).is_empty());
}

#[test]
fn neighbouring_rungs_of_one_object_are_one_nomination() {
    assert!(same_nomination((100, 100, 40, 40), (110, 105, 41, 40)));
    // Same place, sizes too different.
    assert!(!same_nomination((100, 100, 40, 40), (100, 100, 45, 40)));
    // Same size, too far apart.
    assert!(!same_nomination((100, 100, 40, 40), (121, 100, 40, 40)));
}

use clawmation::hardware::vision::template::Template;

#[test]
fn a_flat_template_has_no_edges_and_no_mask() {
    let g = Gray::from_vec(6, 4, vec![90; 24]);
    let eq = Gray::from_vec(6, 4, vec![128; 24]);
    let t = Template::from_gray(&g, eq);
    assert_eq!((t.w, t.h), (6, 4));
    assert_eq!(t.raw.data, vec![90; 24]);
    assert_eq!(t.clahe.data, vec![128; 24]);
    assert!(t.edges.data.iter().all(|&v| v == 0));
    assert!(t.mask.is_none());
}
