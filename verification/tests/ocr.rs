use clawmation::hardware::ocr::{
    bgr_to_bgra, covered, edit_budget, find_fuzzy, line_layout, normalize, read_text,
    scale_factor, upscale_bgr, MAX_SCALE,
};

#[test]
fn scale_factor_leaves_large_frames_alone() {
    assert_eq!(scale_factor(1920, 1080), 1);
    assert_eq!(scale_factor(200, 160), 1);
}

#[test]
fn scale_factor_lifts_small_frames_to_the_minimum() {
    assert_eq!(scale_factor(400, 40), 4);
    assert_eq!(scale_factor(400, 50), 4);
}

#[test]
fn scale_factor_is_capped_and_degenerate_safe() {
    assert_eq!(scale_factor(400, 1), MAX_SCALE);
    assert_eq!(scale_factor(0, 0), 1);
}

#[test]
fn upscale_replicates_every_pixel() {
    let src = vec![0, 0, 255, 255, 0, 0];
    let out = upscale_bgr(&src, 2, 1, 2);
    assert_eq!(out.len(), 4 * 2 * 3);
    assert_eq!(&out[0..3], &[0, 0, 255]);
    assert_eq!(&out[3..6], &[0, 0, 255]);
    assert_eq!(&out[6..9], &[255, 0, 0]);
    assert_eq!(&out[9..12], &[255, 0, 0]);
    assert_eq!(&out[12..24], &out[0..12]);
}

#[test]
fn bgra_conversion_forces_opaque_alpha() {
    let out = bgr_to_bgra(&[1, 2, 3, 4, 5, 6]);
    assert_eq!(out, vec![1, 2, 3, 0xFF, 4, 5, 6, 0xFF]);
}

#[test]
fn normalize_folds_case_and_whitespace() {
    assert_eq!(normalize("  Play   AGAIN \n"), "play again");
    assert_eq!(normalize(""), "");
}

#[test]
fn covered_picks_only_overlapping_words() {
    let offsets = vec![(0, 4), (5, 10), (11, 14)];
    assert_eq!(covered(&offsets, 0, 10), vec![0, 1]);
}

#[test]
fn a_line_is_laid_out_with_single_spaces_and_word_spans() {
    let pieces: Vec<Vec<char>> =
        vec!["play".chars().collect(), vec![], "again".chars().collect(), "now".chars().collect()];
    let (text, offsets) = line_layout(&pieces);
    assert_eq!(text.iter().collect::<String>(), "play again now");
    assert_eq!(offsets, vec![(0, 4), (4, 4), (5, 10), (11, 14)]);
}

#[test]
fn fuzzy_match_prefers_the_exact_hit() {
    assert_eq!(find_fuzzy("press play again now", "play again"), Some((6, 16, 0)));
    assert_eq!(find_fuzzy("reconnect", "reconnect"), Some((0, 9, 0)));
}

#[test]
fn fuzzy_match_forgives_a_misread_character() {
    for line in ["click recannect", "click reconect", "click recoonnect"] {
        let (start, end, dist) = find_fuzzy(line, "reconnect").expect(line);
        assert_eq!(dist, 1, "{line}");
        assert_eq!(&line[start..end], &line[6..], "{line}");
    }
}

#[test]
fn fuzzy_match_refuses_a_different_word() {
    assert_eq!(find_fuzzy("connected to server", "reconnect"), None);
    assert_eq!(find_fuzzy("disband party", "reconnect"), None);
}

#[test]
fn short_needles_must_be_exact() {
    assert_eq!(edit_budget(4), 0);
    assert_eq!(find_fuzzy("take the quiz", "quit"), None);
    assert_eq!(edit_budget(6), 1);
    assert_eq!(edit_budget(12), 2);
    assert_eq!(edit_budget(120), 3);
}

#[test]
fn an_empty_needle_is_found_at_the_start() {
    assert_eq!(find_fuzzy("anything", ""), Some((0, 0, 0)));
}

#[test]
fn read_text_joins_and_trims() {
    let words = vec![" Play".to_string(), "again ".to_string()];
    assert_eq!(read_text(&words), "Play again");
    assert_eq!(read_text(&Vec::new()), "");
}
