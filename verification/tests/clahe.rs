use clawmation::hardware::vision::clahe::{
    clip_histogram, lut_padding, reflect_101, reflect_index, tile_histogram, HIST_SIZE,
};
use clawmation::hardware::vision::image::Gray;

#[test]
fn clipping_conserves_the_pixel_count() {
    let mut hist = [0i32; HIST_SIZE];
    hist[10] = 900;
    hist[200] = 124;
    let before: i32 = hist.iter().sum();
    clip_histogram(&mut hist, 8);
    assert_eq!(hist.iter().sum::<i32>(), before);
    assert!(hist[10] <= 8 + 900 / HIST_SIZE as i32 + 1);
}

#[test]
fn reflect_101_does_not_repeat_the_edge_pixel() {
    let src = Gray::from_vec(4, 1, vec![1, 2, 3, 4]);
    let out = reflect_101(&src, 2, 0);
    assert_eq!(out.data, vec![1, 2, 3, 4, 3, 2]);
}

#[test]
fn clipping_spreads_the_excess_evenly_then_by_stride() {
    // (900 - 8) + (124 - 8) = 1008 over the clip: 3 to every bin, and the
    // remaining 240 one each to bins 0..240 (stride 256 / 240 = 1).
    let mut hist = [0i32; HIST_SIZE];
    hist[10] = 900;
    hist[200] = 124;
    clip_histogram(&mut hist, 8);
    assert_eq!(hist[10], 8 + 3 + 1);
    assert_eq!(hist[200], 8 + 3 + 1);
    assert_eq!(hist[0], 4);
    assert_eq!(hist[239], 4);
    assert_eq!(hist[240], 3);
}

#[test]
fn a_histogram_under_the_clip_is_untouched() {
    let mut hist = [3i32; HIST_SIZE];
    clip_histogram(&mut hist, 8);
    assert!(hist.iter().all(|&b| b == 3));
}

#[test]
fn reflect_index_folds_both_ways() {
    assert_eq!(reflect_index(-1, 4), 1);
    assert_eq!(reflect_index(4, 4), 2);
    assert_eq!(reflect_index(7, 4), 1);
    assert_eq!(reflect_index(5, 1), 0);
    assert_eq!(reflect_index(2, 4), 2);
}

#[test]
fn padding_adds_a_whole_tile_on_an_axis_that_already_divides() {
    assert_eq!(lut_padding(16, 16, 8, 8), (0, 0));
    assert_eq!(lut_padding(37, 16, 8, 8), (3, 8));
}

#[test]
fn a_tile_histogram_counts_each_level() {
    let g = Gray::from_vec(4, 2, vec![1, 1, 2, 3, 1, 2, 2, 9]);
    let h = tile_histogram(&g, 1, 0, 2, 2);
    assert_eq!(h[1], 1);
    assert_eq!(h[2], 3);
    assert_eq!(h[3], 0);
    assert_eq!(h.iter().sum::<i32>(), 4);
}
