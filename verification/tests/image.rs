use clawmation::hardware::vision::image::{
    bgr_to_gray, bgr_to_hsv, find_external_contours, flood_fill, hsv_in_range, morph_close,
    morph_open, Gray,
};

#[test]
fn gray_matches_opencvs_fixed_point_luma() {
    let bgr = [0u8, 0, 255, 0, 255, 0, 255, 0, 0, 128, 128, 128];
    let g = bgr_to_gray(&bgr, 4, 1);
    assert_eq!(g.data, vec![76, 150, 29, 128]);
}

#[test]
fn hsv_lands_on_opencvs_integer_triples() {
    assert_eq!(bgr_to_hsv(0, 0, 255), (0, 255, 255));
    assert_eq!(bgr_to_hsv(0, 255, 0), (60, 255, 255));
    assert_eq!(bgr_to_hsv(255, 0, 0), (120, 255, 255));
    assert_eq!(bgr_to_hsv(7, 7, 7), (0, 0, 7));
}

#[test]
fn in_range_keeps_only_pixels_inside_every_channel_band() {
    let bgr = [0u8, 0, 255, 0, 255, 0];
    let m = hsv_in_range(&bgr, 2, 1, [0, 200, 200], [10, 255, 255]);
    assert_eq!(m.data, vec![255, 0]);
}

#[test]
fn opening_removes_a_lone_speck_and_closing_fills_a_pinhole() {
    let mut speck = Gray::new(5, 5);
    speck.set(2, 2, 255);
    assert_eq!(morph_open(&speck, 1).count_nonzero(), 0);

    let mut holed = Gray::from_vec(5, 5, vec![255; 25]);
    holed.set(2, 2, 0);
    assert_eq!(morph_close(&holed, 1).count_nonzero(), 25);
}

#[test]
fn a_solid_rectangle_measures_its_border_polygon_not_its_pixels() {
    let mut m = Gray::new(20, 20);
    for y in 4..10 {
        for x in 3..13 {
            m.set(x, y, 255);
        }
    }
    let cs = find_external_contours(&m);
    assert_eq!(cs.len(), 1);
    assert_eq!(cs[0].bounding_rect(), (3, 4, 10, 6));
    assert_eq!(cs[0].twice_area() as f64 / 2.0, 45.0);
}

#[test]
fn retr_external_skips_a_blob_sitting_inside_anothers_hole() {
    let mut m = Gray::new(21, 21);
    for y in 2..19 {
        for x in 2..19 {
            let on = y < 5 || y >= 16 || x < 5 || x >= 16;
            if on {
                m.set(x, y, 255);
            }
        }
    }
    m.set(10, 10, 255);
    let cs = find_external_contours(&m);
    assert_eq!(cs.len(), 1);
    assert_eq!(cs[0].bounding_rect(), (2, 2, 17, 17));
}

#[test]
fn two_separate_blobs_come_back_in_raster_order() {
    let mut m = Gray::new(30, 12);
    for y in 1..4 {
        for x in 1..4 {
            m.set(x, y, 255);
        }
    }
    for y in 6..11 {
        for x in 20..27 {
            m.set(x, y, 255);
        }
    }
    let cs = find_external_contours(&m);
    assert_eq!(cs.len(), 2);
    assert_eq!(cs[0].bounding_rect(), (1, 1, 3, 3));
    assert_eq!(cs[1].bounding_rect(), (20, 6, 7, 5));
}

#[test]
fn flood_fill_repaints_only_the_connected_run() {
    let mut g = Gray::new(5, 3);
    g.set(2, 0, 7);
    g.set(2, 1, 7);
    g.set(2, 2, 7);
    flood_fill(&mut g, (0, 0), 128);
    assert_eq!(g.at(1, 2), 128);
    assert_eq!(g.at(3, 0), 0, "the far side of the wall is untouched");
}

#[test]
fn crop_clamps_and_copies_the_window() {
    let g = Gray::from_vec(3, 2, vec![1, 2, 3, 4, 5, 6]);
    let c = g.crop(1, 0, 9, 9).expect("two columns survive");
    assert_eq!((c.w, c.h), (2, 2));
    assert_eq!(c.data, vec![2, 3, 5, 6]);
    assert!(g.crop(3, 0, 1, 1).is_none());
}

#[test]
fn flood_fill_does_not_leak_through_a_diagonal_gap() {
    // Two zero regions touching only at a corner are separate under
    // 4-connectivity.
    let mut g = Gray::from_vec(4, 4, vec![0, 0, 9, 9, 0, 0, 9, 9, 9, 9, 0, 0, 9, 9, 0, 0]);
    flood_fill(&mut g, (0, 0), 5);
    assert_eq!(g.data, vec![5, 5, 9, 9, 5, 5, 9, 9, 9, 9, 0, 0, 9, 9, 0, 0]);
    // Filling with the value already there changes nothing.
    let before = g.data.clone();
    flood_fill(&mut g, (0, 0), 5);
    assert_eq!(g.data, before);
}

use clawmation::hardware::vision::image::{outer_background, trace_border};

#[test]
fn only_background_reachable_from_the_border_is_outside() {
    // A 5x5 ring of ink with a hole in the middle.
    let mut data = vec![0u8; 25];
    for i in 1..4 {
        for j in 1..4 {
            data[j * 5 + i] = 255;
        }
    }
    data[2 * 5 + 2] = 0;
    let m = Gray::from_vec(5, 5, data);
    let seen = outer_background(&m);
    assert!(seen[0] && seen[4] && seen[24]);
    assert!(!seen[2 * 5 + 2], "the hole is not outside");
    assert!(!seen[1 * 5 + 1], "ink is never outside");
}

#[test]
fn a_lone_pixel_is_its_own_border_and_a_bar_is_walked_both_ways() {
    let mut data = vec![0u8; 9];
    data[4] = 255;
    let m = Gray::from_vec(3, 3, data);
    assert_eq!(trace_border(&m, (1, 1)).points, vec![(1, 1)]);
    let bar = Gray::from_vec(3, 1, vec![255, 255, 255]);
    assert_eq!(trace_border(&bar, (0, 0)).points, vec![(0, 0), (1, 0), (2, 0), (1, 0)]);
}

#[test]
fn crop_of_an_inverted_rectangle_is_none() {
    let g = Gray::from_vec(3, 2, vec![1, 2, 3, 4, 5, 6]);
    assert!(g.crop(2, 1, -2, 1).is_none());
    assert!(g.crop(0, 2, 3, -1).is_none());
}
