use clawmation::hardware::capture::Frame;
use clawmation::hardware::regions::region_box_of;
use clawmation::hardware::snap::{close_runs, grow, ink_candidates, snap_at, Hover};
use clawmation::hardware::vision::image::Gray;

/// A frame filled with `bg`, into which rectangles can be painted.
struct Canvas {
    frame: Frame,
}

impl Canvas {
    fn new(w: u32, h: u32, bg: [u8; 3]) -> Self {
        let bgr = bg
            .iter()
            .copied()
            .cycle()
            .take((w * h * 3) as usize)
            .collect();
        Self {
            frame: Frame {
                bgr,
                width: w,
                height: h,
            },
        }
    }

    fn rect(&mut self, x: i32, y: i32, w: i32, h: i32, c: [u8; 3]) -> &mut Self {
        for yy in y..y + h {
            for xx in x..x + w {
                let i = (yy as usize * self.frame.width as usize + xx as usize) * 3;
                self.frame.bgr[i..i + 3].copy_from_slice(&c);
            }
        }
        self
    }

    /// A two-shade check in 2x2 tiles, a stand-in for the patterned and
    /// textured faces game UI is full of, and the thing a region grow cannot
    /// cross: same-shade tiles touch only at their corners, so a four-way
    /// fill gets exactly one of them.
    fn checker(&mut self, x: i32, y: i32, w: i32, h: i32, a: [u8; 3], b: [u8; 3]) -> &mut Self {
        for yy in y..y + h {
            for xx in x..x + w {
                let odd = ((xx - x) / 2 + (yy - y) / 2) % 2 == 1;
                self.rect(xx, yy, 1, 1, if odd { b } else { a });
            }
        }
        self
    }

    /// A vertical gradient from `top` to `bottom`, how nearly every game
    /// button is filled, and the case a single tolerance gets wrong.
    fn gradient(&mut self, x: i32, y: i32, w: i32, h: i32, top: u8, bottom: u8) -> &mut Self {
        for yy in y..y + h {
            let t = (yy - y) as i32 * (i32::from(bottom) - i32::from(top)) / (h - 1).max(1);
            let v = (i32::from(top) + t) as u8;
            self.rect(x, yy, w, 1, [v, v, v]);
        }
        self
    }
}

#[test]
fn snaps_to_a_flat_button() {
    let mut c = Canvas::new(400, 300, [40, 40, 40]);
    c.rect(100, 80, 120, 36, [200, 160, 90]);
    assert_eq!(snap_at(&c.frame, 150, 95), Some((100, 80, 120, 36)));
}

#[test]
fn follows_a_gradient_across_the_whole_control() {
    // 60 levels top to bottom: further than the local tolerance at any one
    // step, so only the two-tolerance rule reaches the far edge.
    let mut c = Canvas::new(400, 300, [40, 40, 40]);
    c.gradient(100, 80, 120, 40, 130, 190);
    assert_eq!(snap_at(&c.frame, 160, 84), Some((100, 80, 120, 40)));
    assert_eq!(snap_at(&c.frame, 160, 118), Some((100, 80, 120, 40)));
}

#[test]
fn a_click_on_the_label_snaps_to_the_button_under_it() {
    let mut c = Canvas::new(400, 300, [40, 40, 40]);
    c.rect(100, 80, 120, 36, [200, 160, 90]);
    // A letter-sized block of ink in the middle of the face.
    c.rect(150, 90, 10, 16, [30, 25, 20]);
    assert_eq!(snap_at(&c.frame, 154, 96), Some((100, 80, 120, 36)));
}

/// The case the region grow cannot answer at all: a face with a pattern on
/// it. Every step across the pattern is further than the local tolerance, so
/// the fill gets one tile and the lasso used to offer nothing.
#[test]
fn snaps_to_a_patterned_button() {
    let mut c = Canvas::new(400, 300, [40, 40, 40]);
    c.checker(150, 120, 100, 40, [120, 120, 120], [170, 170, 170]);
    assert_eq!(snap_at(&c.frame, 200, 140), Some((150, 120, 100, 40)));
}

/// An icon and its label, with nothing drawn behind them. There is no surface
/// to fall back to, so the grow's answer is the icon on its own; the gap
/// closing joins the two into the control they are.
#[test]
fn an_icon_and_its_label_are_one_element() {
    let mut c = Canvas::new(400, 300, [40, 40, 40]);
    c.rect(100, 100, 16, 16, [200, 160, 90]);
    for i in 0..3 {
        c.rect(124 + i * 8, 102, 5, 12, [210, 210, 210]);
    }
    assert_eq!(snap_at(&c.frame, 106, 108), Some((100, 100, 45, 16)));
}

/// And pointing at the air between them answers with the same control: the
/// gap is inside what the two of them make up, which is the whole reason to
/// group by box rather than by which pixels the cursor is actually on.
#[test]
fn the_gap_inside_a_group_still_snaps_to_the_group() {
    let mut c = Canvas::new(400, 300, [40, 40, 40]);
    c.rect(100, 100, 16, 16, [200, 160, 90]);
    for i in 0..3 {
        c.rect(124 + i * 8, 102, 5, 12, [210, 210, 210]);
    }
    assert_eq!(snap_at(&c.frame, 120, 108), Some((100, 100, 45, 16)));
}

/// Two controls with real air between them stay two, which is the limit the
/// gap closing has to respect to be worth having.
#[test]
fn neighbouring_controls_are_not_merged() {
    let mut c = Canvas::new(400, 300, [40, 40, 40]);
    c.checker(100, 100, 60, 30, [120, 120, 120], [170, 170, 170]);
    c.checker(190, 100, 60, 30, [120, 120, 120], [170, 170, 170]);
    assert_eq!(snap_at(&c.frame, 130, 115), Some((100, 100, 60, 30)));
    assert_eq!(snap_at(&c.frame, 220, 115), Some((190, 100, 60, 30)));
}

/// A control shaded harder than the ceiling on how far the fill may drift
/// from the seed. The fill stops partway down it and hands back a box cut
/// across the middle of the button, which used to be returned as-is,
/// because it was control-sized and nothing checked whether its sides were
/// on anything. They are not: the cut edge runs through flat gradient.
#[test]
fn a_control_shaded_past_the_fill_ceiling_still_comes_back_whole() {
    let mut c = Canvas::new(400, 300, [40, 40, 40]);
    c.gradient(100, 80, 120, 60, 80, 230);
    assert_eq!(snap_at(&c.frame, 160, 86), Some((100, 80, 120, 60)));
}

/// A panel wider than the fill's own search window, with a quiet face. The
/// fill runs out of window, and the outline pass sees no outline because the
/// edges of the thing are outside *its* window too. Only walking out along
/// the cursor's own row and column reaches the sides.
#[test]
fn a_panel_larger_than_the_other_two_windows_still_snaps() {
    let mut c = Canvas::new(1400, 900, [20, 20, 20]);
    c.rect(100, 100, 900, 600, [90, 90, 90]);
    assert_eq!(
        grow(&c.frame, 550, 400),
        None,
        "the fill was supposed to run out of window"
    );
    assert_eq!(snap_at(&c.frame, 550, 400), Some((100, 100, 900, 600)));
}

#[test]
fn the_background_is_not_an_element() {
    // Nothing but background under the cursor: the grow runs out of window.
    let c = Canvas::new(400, 300, [40, 40, 40]);
    assert_eq!(snap_at(&c.frame, 20, 20), None);
}

#[test]
fn a_hairline_is_not_worth_offering() {
    let mut c = Canvas::new(400, 300, [40, 40, 40]);
    c.rect(100, 80, 200, 3, [200, 160, 90]);
    assert_eq!(snap_at(&c.frame, 160, 81), None);
}

#[test]
fn a_control_flush_against_the_screen_edge_still_snaps() {
    // Touching the frame edge is legitimate; touching the search window's
    // edge anywhere else is not.
    let mut c = Canvas::new(400, 300, [40, 40, 40]);
    c.rect(0, 0, 90, 30, [200, 160, 90]);
    assert_eq!(snap_at(&c.frame, 40, 15), Some((0, 0, 90, 30)));
}

#[test]
fn a_soft_border_does_not_leak_into_the_panel() {
    // Button, then a two-step ramp out to a panel that is itself close in
    // shade. Each step is inside the local tolerance, so only the ceiling on
    // total drift from the seed keeps the grow inside the button.
    let mut c = Canvas::new(400, 300, [150, 150, 150]);
    c.rect(100, 80, 120, 36, [60, 60, 60]);
    c.rect(100, 80, 120, 1, [95, 95, 95]);
    c.rect(100, 79, 120, 1, [130, 130, 130]);
    let (_, y, _, h) = snap_at(&c.frame, 160, 100).expect("button");
    assert!(
        y >= 80 && y + h <= 116,
        "leaked out of the button: y={y} h={h}"
    );
}

#[test]
fn a_hover_holds_its_outline_while_the_cursor_stays_on_the_control() {
    let mut c = Canvas::new(400, 300, [40, 40, 40]);
    c.rect(100, 80, 120, 36, [200, 160, 90]);
    let mut h = Hover::default();

    assert!(h.aim(&c.frame, 150, 95), "the first aim is a change");
    assert_eq!(h.rect(), Some((100, 80, 120, 36)));
    assert!(
        !h.aim(&c.frame, 190, 105),
        "moving along the face is not a change"
    );
    assert!(
        h.aim(&c.frame, 20, 20),
        "leaving the control drops the outline"
    );
    assert_eq!(h.rect(), None);
}

#[test]
fn a_hover_re_aims_at_a_control_inside_what_it_is_already_showing() {
    // The case the bounding box alone gets wrong: a button on a panel sits
    // inside the panel's box, so only the colour half of the test releases
    // the outline.
    let mut c = Canvas::new(400, 300, [10, 10, 10]);
    c.rect(60, 40, 260, 200, [90, 90, 90]);
    c.rect(120, 100, 100, 40, [200, 160, 90]);
    let mut h = Hover::default();

    h.aim(&c.frame, 80, 60);
    assert_eq!(h.rect(), Some((60, 40, 260, 200)), "the panel");
    assert!(h.aim(&c.frame, 170, 120), "the button is not the panel");
    assert_eq!(h.rect(), Some((120, 100, 100, 40)));
}

#[test]
fn a_cleared_hover_offers_nothing() {
    let mut c = Canvas::new(400, 300, [40, 40, 40]);
    c.rect(100, 80, 120, 36, [200, 160, 90]);
    let mut h = Hover::default();

    h.aim(&c.frame, 150, 95);
    assert!(h.clear());
    assert_eq!(h.rect(), None);
    assert!(!h.clear(), "clearing twice is not a change");
}

#[test]
fn a_point_outside_the_frame_is_no_element() {
    let c = Canvas::new(64, 64, [40, 40, 40]);
    assert_eq!(snap_at(&c.frame, -1, 10), None);
    assert_eq!(snap_at(&c.frame, 10, 64), None);
}

#[test]
fn a_grow_from_a_flat_button_boxes_exactly_the_button() {
    let mut c = Canvas::new(400, 300, [40, 40, 40]);
    c.rect(100, 80, 60, 30, [200, 160, 90]);
    assert_eq!(grow(&c.frame, 120, 90), Some((100, 80, 60, 30)));
}

#[test]
fn a_grow_from_off_the_frame_reaches_nothing() {
    let c = Canvas::new(400, 300, [40, 40, 40]);
    assert_eq!(grow(&c.frame, -1, 10), None);
    assert_eq!(grow(&c.frame, 10, 300), None);
}

#[test]
fn a_grow_that_fills_most_of_its_window_gives_up() {
    // The whole frame is one colour and fits inside the window, so nothing
    // escapes; the grow still reaches more than three fifths of it.
    let c = Canvas::new(400, 300, [40, 40, 40]);
    assert_eq!(grow(&c.frame, 200, 150), None);
}

#[test]
fn a_grow_stops_at_a_colour_step_past_the_local_tolerance() {
    let mut c = Canvas::new(400, 300, [40, 40, 40]);
    c.rect(100, 80, 60, 30, [100, 100, 100]);
    c.rect(100, 80, 30, 30, [115, 115, 115]);
    assert_eq!(grow(&c.frame, 140, 90), Some((130, 80, 30, 30)));
}

#[test]
fn close_runs_bridges_only_short_gaps_between_marks() {
    let ink = vec![true, false, false, true, false, false];
    let mut out = ink.clone();
    close_runs(&mut out, &ink, 6, 1, 2, true);
    assert_eq!(out, vec![true, true, true, true, false, false]);
    let mut out = ink.clone();
    close_runs(&mut out, &ink, 6, 1, 1, true);
    assert_eq!(out, ink);
}

#[test]
fn close_runs_walks_columns_when_not_horizontal() {
    // A 2-wide, 4-high grid: column 0 is marked at rows 0 and 2.
    let ink = vec![true, false, false, false, true, false, false, false];
    let mut out = ink.clone();
    close_runs(&mut out, &ink, 2, 4, 1, false);
    assert_eq!(out, vec![true, false, true, false, true, false, false, false]);
    let mut across = ink.clone();
    close_runs(&mut across, &ink, 2, 4, 1, true);
    assert_eq!(across, ink);
}

#[test]
fn ink_candidates_offer_the_box_inside_an_outline() {
    let mut c = Canvas::new(400, 300, [40, 40, 40]);
    c.rect(100, 80, 60, 30, [200, 200, 200]);
    assert_eq!(ink_candidates(&c.frame, 120, 90), vec![(100, 80, 60, 30)]);
    assert_eq!(ink_candidates(&c.frame, 50, 50), Vec::<(i32, i32, i32, i32)>::new());
}

#[test]
fn region_box_of_takes_one_eight_connected_region() {
    let mut data = vec![0u8; 20];
    data[1 * 5 + 1] = 255;
    data[2 * 5 + 2] = 255;
    data[3 * 5 + 4] = 255;
    let mask = Gray { w: 5, h: 4, data };
    let mut seen = vec![false; 20];
    assert_eq!(region_box_of(&mask, &mut seen, 1, 1), (1, 1, 2, 2));
    let flagged: Vec<usize> = (0..20).filter(|&i| seen[i]).collect();
    assert_eq!(flagged, vec![6, 12]);
}
