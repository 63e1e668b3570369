use clawmation::hardware::capture::Frame;
use base64::engine::general_purpose::STANDARD;
use base64::Engine;
use clawmation::hardware::preview::{
    annotate, annotate_step, encode, preview_factor, Canvas, BEST, MATCH, REGION, STEP_REGION,
};

fn frame(w: u32, h: u32) -> Frame {
    Frame { bgr: vec![0u8; (w * h * 3) as usize], width: w, height: h }
}

fn pixel(c: &Canvas, x: i32, y: i32) -> [u8; 3] {
    let i = (y as usize * c.width as usize + x as usize) * 3;
    [c.rgb[i], c.rgb[i + 1], c.rgb[i + 2]]
}

#[test]
fn bgr_frame_becomes_rgb_canvas() {
    let f = Frame { bgr: vec![0, 0, 255], width: 1, height: 1 };
    assert_eq!(pixel(&Canvas::from_frame(&f), 0, 0), [255, 0, 0]);
}

#[test]
fn put_ignores_out_of_bounds_instead_of_panicking() {
    let mut c = Canvas::from_frame(&frame(4, 4));
    for (x, y) in [(-1, 0), (0, -1), (4, 0), (0, 4), (99, 99)] {
        c.put(x, y, [1, 2, 3]);
    }
    assert!(c.rgb.iter().all(|&b| b == 0));
}

#[test]
fn rect_draws_edges_and_leaves_the_interior_clear() {
    let mut c = Canvas::from_frame(&frame(10, 10));
    c.rect(2, 2, 7, 7, REGION, 1);
    assert_eq!(pixel(&c, 2, 2), REGION);
    assert_eq!(pixel(&c, 5, 2), REGION);
    assert_eq!(pixel(&c, 2, 5), REGION);
    assert_eq!(pixel(&c, 7, 7), REGION);
    assert_eq!(pixel(&c, 5, 5), [0, 0, 0]);
}

#[test]
fn circle_marks_its_cardinal_points() {
    let mut c = Canvas::from_frame(&frame(40, 40));
    c.circle(20, 20, 8, MATCH, 1);
    for (x, y) in [(28, 20), (12, 20), (20, 28), (20, 12)] {
        assert_eq!(pixel(&c, x, y), MATCH, "missing at {x},{y}");
    }
    assert_eq!(pixel(&c, 20, 20), [0, 0, 0]);
}

#[test]
fn crosshair_arms_are_drawn_both_ways() {
    let mut c = Canvas::from_frame(&frame(60, 60));
    c.line(10, 30, 50, 30, BEST, 2);
    c.line(30, 10, 30, 50, BEST, 2);
    assert_eq!(pixel(&c, 10, 30), BEST);
    assert_eq!(pixel(&c, 50, 30), BEST);
    assert_eq!(pixel(&c, 30, 10), BEST);
    assert_eq!(pixel(&c, 30, 50), BEST);
}

#[test]
fn shapes_clip_at_the_edges_rather_than_panicking() {
    let mut c = Canvas::from_frame(&frame(8, 8));
    c.rect(-5, -5, 20, 20, REGION, 3);
    c.circle(0, 0, 10, MATCH, 3);
    c.line(-30, 4, 30, 4, BEST, 3);
}

#[test]
fn preview_factor_only_shrinks_oversized_frames() {
    assert_eq!(preview_factor(1280), 1);
    assert_eq!(preview_factor(1920), 2);
    assert_eq!(preview_factor(2560), 2);
    assert_eq!(preview_factor(3840), 3);
}

#[test]
fn scaling_averages_each_block_and_halves_the_dimensions() {
    let mut bgr = Vec::new();
    for _ in 0..2 {
        for _ in 0..2 {
            bgr.extend_from_slice(&[255, 0, 0]);
        }
        for _ in 0..2 {
            bgr.extend_from_slice(&[0, 0, 255]);
        }
    }
    let f = Frame { bgr, width: 4, height: 2 };
    let c = Canvas::from_frame_scaled(&f, 2);
    assert_eq!((c.width, c.height), (2, 1));
    assert_eq!(pixel(&c, 0, 0), [0, 0, 255]);
    assert_eq!(pixel(&c, 1, 0), [255, 0, 0]);
}

#[test]
fn scaling_by_one_is_a_plain_conversion() {
    let f = Frame { bgr: vec![10, 20, 30], width: 1, height: 1 };
    assert_eq!(pixel(&Canvas::from_frame_scaled(&f, 1), 0, 0), [30, 20, 10]);
}

#[test]
fn a_disc_fills_its_rows_by_the_integer_root() {
    let mut c = Canvas::from_frame(&frame(9, 9));
    c.disc(4, 4, 2, [9, 9, 9]);
    // Row 4 spans 2 each way, row 2 only the centre column.
    assert_eq!(pixel(&c, 2, 4), [9, 9, 9]);
    assert_eq!(pixel(&c, 6, 4), [9, 9, 9]);
    assert_eq!(pixel(&c, 4, 2), [9, 9, 9]);
    assert_eq!(pixel(&c, 3, 2), [0, 0, 0]);
    assert_eq!(pixel(&c, 1, 4), [0, 0, 0]);
}

#[test]
fn a_stroke_reaches_both_ends() {
    let mut c = Canvas::from_frame(&frame(20, 20));
    c.stroke(2, 3, 15, 11, [5, 6, 7], 1);
    assert_eq!(pixel(&c, 2, 3), [5, 6, 7]);
    assert_eq!(pixel(&c, 15, 11), [5, 6, 7]);
}

#[test]
fn resizing_averages_blocks() {
    let f = Frame { bgr: vec![0, 0, 0, 0, 0, 100, 0, 0, 200, 0, 0, 255], width: 2, height: 2 };
    let c = Canvas::from_frame(&f).resized(1, 1);
    assert_eq!((c.width, c.height), (1, 1));
    assert_eq!(pixel(&c, 0, 0), [138, 0, 0]);
}

#[test]
fn annotate_returns_decodable_png_base64() {
    let dets = vec![(30i64, 20i64)];
    let b64 = annotate(&frame(64, 48), (4, 4, 60, 44), &dets);
    assert!(!b64.is_empty());
    let bytes = STANDARD.decode(&b64).expect("valid base64");
    assert_eq!(&bytes[..8], b"\x89PNG\r\n\x1a\n", "not a PNG");
}

#[test]
fn annotate_without_matches_still_draws_the_region() {
    assert!(!annotate(&frame(32, 32), (2, 2, 30, 30), &[]).is_empty());
}

fn decoded(b64: &str) -> (u32, u32, Vec<u8>) {
    let bytes = STANDARD.decode(b64).expect("valid base64");
    let decoder = png::Decoder::new(std::io::Cursor::new(bytes));
    let mut reader = decoder.read_info().expect("a png header");
    let mut buf = vec![0; reader.output_buffer_size()];
    let info = reader.next_frame(&mut buf).expect("a png frame");
    buf.truncate(info.buffer_size());
    (info.width, info.height, buf)
}

#[test]
fn the_encoded_canvas_decodes_back_to_its_pixels() {
    let mut c = Canvas::from_frame(&frame(5, 3));
    c.put(1, 2, [10, 20, 30]);
    let (w, h, rgb) = decoded(&encode(&c));
    assert_eq!((w, h), (5, 3));
    assert_eq!(rgb, c.rgb);
}

#[test]
fn an_empty_canvas_encodes_to_nothing() {
    let c = Canvas::from_frame(&frame(0, 7));
    assert_eq!(encode(&c), "");
}

#[test]
fn the_step_preview_marks_the_given_crosshair() {
    let b64 = annotate_step(&frame(64, 48), (0, 0, 63, 47), &[(5, 5)], Some((32, 24)));
    let (w, h, rgb) = decoded(&b64);
    assert_eq!((w, h), (64, 48));
    let at = |x: usize, y: usize| {
        let i = (y * 64 + x) * 3;
        [rgb[i], rgb[i + 1], rgb[i + 2]]
    };
    assert_eq!(at(63, 30), STEP_REGION);
    assert_eq!(at(32 + 20, 24), BEST);
    assert_eq!(at(32, 24 - 20), BEST);
    assert_eq!(at(5 + 8, 5), MATCH);
}

#[test]
fn a_wide_frame_is_previewed_at_reduced_size() {
    let b64 = annotate(&frame(2600, 10), (0, 0, 10, 10), &[]);
    let (w, h, _) = decoded(&b64);
    assert_eq!((w, h), (866, 3));
}
