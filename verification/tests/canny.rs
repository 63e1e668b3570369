use clawmation::hardware::vision::canny::canny;
use clawmation::hardware::vision::image::Gray;

#[test]
fn a_flat_image_has_no_edges() {
    let src = Gray::from_vec(20, 20, vec![120; 400]);
    assert_eq!(canny(&src, 50, 150).count_nonzero(), 0);
}

#[test]
fn a_vertical_step_produces_one_vertical_line() {
    let mut src = Gray::new(21, 11);
    for y in 0..11 {
        for x in 10..21 {
            src.set(x, y, 255);
        }
    }
    let e = canny(&src, 50, 150);
    for y in 0..11 {
        let lit: Vec<usize> = (0..21).filter(|&x| e.at(x, y) != 0).collect();
        assert_eq!(lit.len(), 1, "row {y} lit {lit:?}");
        assert!(lit[0] == 9 || lit[0] == 10, "row {y} lit at {}", lit[0]);
    }
}

#[test]
fn a_gradient_too_weak_for_the_low_threshold_is_dropped() {
    let mut src = Gray::new(12, 6);
    for y in 0..6 {
        for x in 6..12 {
            src.set(x, y, 101);
        }
    }
    for y in 0..6 {
        for x in 0..6 {
            src.set(x, y, 100);
        }
    }
    assert_eq!(canny(&src, 50, 150).count_nonzero(), 0);
}

#[test]
fn hysteresis_keeps_a_weak_run_attached_to_a_strong_one() {
    let mut src = Gray::new(24, 12);
    for y in 0..12 {
        let level = if y < 6 { 255 } else { 90 };
        for x in 12..24 {
            src.set(x, y, level);
        }
    }
    let e = canny(&src, 50, 150);
    let bottom_lit = (0..24).any(|x| e.at(x, 9) != 0);
    assert!(bottom_lit, "the weak half of the edge was dropped");
}

#[test]
fn an_image_too_small_to_have_a_neighbourhood_comes_back_blank() {
    let src = Gray::from_vec(1, 1, vec![255]);
    assert_eq!(canny(&src, 50, 150).data, vec![0]);
}

#[test]
fn swapped_thresholds_give_the_same_edges() {
    let mut src = Gray::new(16, 8);
    for y in 0..8 {
        for x in 8..16 {
            src.set(x, y, 200);
        }
    }
    assert_eq!(canny(&src, 150, 50).data, canny(&src, 50, 150).data);
}

/// A strong step in the top rows and a weak one in the bottom rows, with
/// flat rows between them.
fn two_steps() -> Gray {
    let (w, h) = (12usize, 14usize);
    let mut data = vec![0u8; w * h];
    for y in 0..h {
        for x in 6..w {
            data[y * w + x] = if y < 4 {
                200
            } else if y >= 7 {
                40
            } else {
                0
            };
        }
    }
    Gray::from_vec(w, h, data)
}

#[test]
fn a_weak_run_cut_off_from_every_strong_one_is_dropped() {
    let e = canny(&two_steps(), 20, 300);
    let lit = |rows: std::ops::RangeInclusive<usize>| {
        rows.map(|y| (0..12).filter(|&x| e.data[y * 12 + x] == 255).count()).sum::<usize>()
    };
    assert!(lit(1..=2) > 0, "the strong step is an edge");
    assert_eq!(lit(8..=12), 0, "the weak step touches no strong pixel");
}

#[test]
fn the_same_run_is_kept_once_it_is_strong_itself() {
    let e = canny(&two_steps(), 20, 150);
    let lit = (8..=12).map(|y| (0..12).filter(|&x| e.data[y * 12 + x] == 255).count()).sum::<usize>();
    assert!(lit > 0);
}

#[test]
fn canny_finds_no_edges_in_a_flat_image() {
    let src = clawmation::hardware::vision::image::Gray::from_vec(5, 4, vec![77u8; 20]);
    let e = canny(&src, 10, 30);
    assert!(e.data.iter().all(|&v| v == 0));
}
