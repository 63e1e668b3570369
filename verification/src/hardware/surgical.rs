//! The surgical picker: box an element (drag a box, or click a control the
//! lasso offers), adjust the box, and optionally draw the exact pixels a
//! click must land on in a magnified view of it. The overlay paints the scene
//! and feeds it events; what each event does is decided here.

use vstd::prelude::*;
use crate::arith::{clamp_i32, clamp_spec};
use crate::hardware::capture::Frame;
use crate::hardware::overlay::{Dib, Event, Flow};
use crate::hardware::picker::{
    abs_int, aimed, clamped, drag_rect, event_in_range, hit_corner, magnified, magnified_byte, min_int, near_corner,
    offset_at, rect_of, screen_coord, trunc_div, zoom_for, VK_BACK, VK_D, VK_DOWN, VK_ESCAPE, VK_G,
    VK_LEFT, VK_RETURN, VK_RIGHT, VK_UP,
};
use crate::hardware::snap::{rect_in_frame, snap_frame, Hover, Rect};

verus! {

/// The window title while boxing an element.
pub const SURGICAL_HINT: &'static str = "Clawmation: Click an element, or drag a box around it";
/// The window title while adjusting the box.
pub const ADJUST_TITLE: &'static str = "Clawmation: Enter to use it (Esc cancels)";
/// The window title while drawing the pixels to hit.
pub const TARGET_TITLE: &'static str = "Clawmation: DRAG to draw the exact pixels to hit (Esc cancels)";

/// What the box is doing.
#[derive(Clone, Copy, Debug, PartialEq, Eq, Structural)]
pub enum Mode {
    /// Drawing the box from scratch.
    Drag,
    /// The box exists; corners resize it, the inside moves it, arrows nudge it.
    Adjust,
}

/// The pixel editor: the boxed crop, magnified and centred on the screen.
pub struct Target {
    pub crop: Frame,
    pub rect: Rect,
    pub zoom: i32,
    pub disp_w: i32,
    pub disp_h: i32,
    pub ox: i32,
    pub oy: i32,
    pub bits: Dib,
}

/// The largest frame side the surgical picker takes.
pub const MAX_SIDE: u32 = 0x100_0000;

/// A frame the surgical picker can work on: at least 6 by 6 (the smallest
/// box), at most `MAX_SIDE` on a side, and small enough that its largest
/// magnification fits in memory.
pub open spec fn surgical_frame(frame: &Frame) -> bool {
    &&& snap_frame(frame)
    &&& 6 <= frame.width <= MAX_SIDE
    &&& 6 <= frame.height <= MAX_SIDE
    &&& frame.width * 48 * frame.height * 48 * 4 <= usize::MAX
}

/// The editor shows `crop` magnified `zoom` times, centred on a screen
/// `sw` by `sh`.
pub open spec fn target_layout(t: &Target, sw: int, sh: int) -> bool {
    &&& t.disp_w == t.crop.width * t.zoom
    &&& t.disp_h == t.crop.height * t.zoom
    &&& t.ox == trunc_div(sw - t.disp_w, 2)
    &&& t.oy == trunc_div(sh - t.disp_h, 2)
    &&& t.bits.width_spec() == t.disp_w
    &&& t.bits.height_spec() == t.disp_h
    &&& forall|col: int, row: int, k: int|
        0 <= col < t.disp_w && 0 <= row < t.disp_h && 0 <= k < 4 ==> #[trigger] t.bits.bits_spec()[(row * t.disp_w
            + col) * 4 + k] == if k == 3 {
            255u8
        } else {
            magnified_byte(&t.crop, t.zoom as int, col, row, k)
        }
}

/// A box inside a frame `fw` by `fh`, at least 6 by 6.
pub open spec fn box_inside(r: Rect, fw: int, fh: int) -> bool {
    &&& 0 <= r.0 && 0 <= r.1
    &&& r.0 + r.2 <= fw && r.1 + r.3 <= fh
    &&& r.2 >= 6 && r.3 >= 6
}

/// The surgical picker's state.
pub struct SurgicalScene {
    pub frame: Frame,
    pub w: i32,
    pub h: i32,
    /// The screen the overlay covers.
    pub screen_w: i32,
    pub screen_h: i32,
    pub mode: Mode,
    pub dragging: bool,
    /// The control under the cursor while the box is still being drawn.
    pub hover: Hover,
    pub moving: bool,
    pub move_dx: i32,
    pub move_dy: i32,
    pub resize_corner: i32,
    pub sx: i32,
    pub sy: i32,
    pub cx: i32,
    pub cy: i32,
    /// `Some` once the pixel editor is open.
    pub target: Option<Target>,
    pub mx: i32,
    pub my: i32,
    pub strokes: Vec<[i32; 4]>,
    pub drawing: bool,
    pub line_start: Option<(i32, i32)>,
    pub line_end: Option<(i32, i32)>,
    /// The editor's done button as the last paint placed it, corners
    /// inclusive.
    pub done_rect: Option<(i32, i32, i32, i32)>,
    pub show_grid: bool,
    pub picked: Option<(i32, i32, i32, i32, Vec<[i32; 4]>)>,
    /// The window title the last event asked for.
    pub title: Option<&'static str>,
}

impl SurgicalScene {
    /// The box as drawn.
    pub open spec fn rect_spec(&self) -> Rect {
        drag_rect(self.sx, self.sy, self.cx, self.cy)
    }

    /// The picker's invariant: its frame and screen are in range, its
    /// points are screen coordinates, an offered control lies in the frame,
    /// a box being adjusted lies in the frame, and an open editor shows a
    /// crop of the frame laid out on the screen.
    pub open spec fn wf(&self) -> bool {
        &&& self.wf_except_box()
        &&& self.mode == Mode::Adjust ==> box_inside(self.rect_spec(), self.w as int, self.h as int)
    }

    /// The invariant, but for where the box lies.
    pub open spec fn wf_except_box(&self) -> bool {
        &&& surgical_frame(&self.frame)
        &&& self.w == self.frame.width && self.h == self.frame.height
        &&& 0 <= self.screen_w <= MAX_SIDE && 0 <= self.screen_h <= MAX_SIDE
        &&& self.hover.wf()
        &&& screen_coord(self.sx as int) && screen_coord(self.sy as int)
        &&& screen_coord(self.cx as int) && screen_coord(self.cy as int)
        &&& screen_coord(self.mx as int) && screen_coord(self.my as int)
        &&& screen_coord(self.move_dx as int) && screen_coord(self.move_dy as int)
        &&& -1 <= self.resize_corner < 4
        &&& self.hover@ matches Some(r) ==> rect_in_frame(r, &self.frame)
        &&& self.target matches Some(t) ==> {
            &&& t.crop.wf()
            &&& 1 <= t.crop.width <= self.frame.width
            &&& 1 <= t.crop.height <= self.frame.height
            &&& 4 <= t.zoom <= 48
            &&& t.rect.2 == t.crop.width && t.rect.3 == t.crop.height
            &&& target_layout(&t, self.screen_w as int, self.screen_h as int)
            &&& self.mode == Mode::Adjust
        }
    }

    /// A picker over `frame` on a screen `screen_w` by `screen_h`, drawing a
    /// box from scratch.
    pub fn new(frame: Frame, screen_w: i32, screen_h: i32) -> (s: SurgicalScene)
        requires
            surgical_frame(&frame),
            0 <= screen_w <= MAX_SIDE,
            0 <= screen_h <= MAX_SIDE,
        ensures
            s.wf(),
            s.frame == frame,
            s.mode == Mode::Drag,
            !s.dragging,
            s.target is None,
            s.picked is None,
            s.strokes@.len() == 0,
    {
        let w = frame.width as i32;
        let h = frame.height as i32;
        SurgicalScene {
            frame,
            w,
            h,
            screen_w,
            screen_h,
            mode: Mode::Drag,
            dragging: false,
            hover: Hover::default(),
            moving: false,
            move_dx: 0,
            move_dy: 0,
            resize_corner: -1i32,
            sx: 0,
            sy: 0,
            cx: 0,
            cy: 0,
            target: None,
            mx: -1,
            my: -1,
            strokes: Vec::new(),
            drawing: false,
            line_start: None,
            line_end: None,
            done_rect: None,
            show_grid: true,
            picked: None,
            title: None,
        }
    }

    /// The box as drawn.
    pub fn rect(&self) -> (r: Rect)
        requires
            self.wf_except_box(),
        ensures
            r == self.rect_spec(),
    {
        rect_of(self.sx, self.sy, self.cx, self.cy)
    }

    /// The control currently offered.
    pub fn hover_rect(&self) -> (r: Option<Rect>)
        ensures
            r == self.hover@,
    {
        self.hover.rect()
    }

    /// The box the pixel editor is open on, if it is open.
    pub fn target_rect(&self) -> (r: Option<Rect>)
        ensures
            r == (match self.target {
                Some(t) => Some(t.rect),
                None => None,
            }),
    {
        match &self.target {
            Some(t) => Some(t.rect),
            None => None,
        }
    }

    /// The window title the last event asked for, handed over once.
    pub fn take_title(&mut self) -> (t: Option<&'static str>)
        ensures
            t == old(self).title,
            *final(self) == (SurgicalScene { title: None, ..*old(self) }),
    {
        let t = self.title;
        self.title = None;
        t
    }

    /// Where the last paint put the editor's done button.
    pub fn set_done_rect(&mut self, r: Option<(i32, i32, i32, i32)>)
        ensures
            *final(self) == (SurgicalScene { done_rect: r, ..*old(self) }),
    {
        self.done_rect = r;
    }

    fn set_rect(&mut self, r: Rect)
        requires
            screen_coord(r.0 as int) && screen_coord(r.1 as int),
            0 <= r.2 <= 0x1000_0000 && 0 <= r.3 <= 0x1000_0000,
            screen_coord(r.0 + r.2) && screen_coord(r.1 + r.3),
        ensures
            *final(self) == (SurgicalScene {
                sx: r.0,
                sy: r.1,
                cx: (r.0 + r.2) as i32,
                cy: (r.1 + r.3) as i32,
                ..*old(self)
            }),
            final(self).rect_spec() == r,
    {
        let (x, y, w, h) = r;
        self.sx = x;
        self.sy = y;
        self.cx = x + w;
        self.cy = y + h;
    }

    /// The box kept inside the frame and at least 6 by 6.
    fn clamp_selection(&mut self)
        requires
            old(self).wf_except_box(),
            old(self).target is None || old(self).mode == Mode::Adjust,
        ensures
            final(self).wf_except_box(),
            *final(self) == (SurgicalScene {
                sx: final(self).sx,
                sy: final(self).sy,
                cx: final(self).cx,
                cy: final(self).cy,
                ..*old(self)
            }),
            final(self).rect_spec() == clamped_spec(old(self).rect_spec(), old(self).w as int, old(self).h as int),
            box_inside(final(self).rect_spec(), old(self).w as int, old(self).h as int),
    {
        let r = clamped(self.rect(), self.w, self.h);
        self.set_rect(r);
    }

    /// Moves the box by `(dx, dy)`, keeping it inside the frame.
    fn nudge(&mut self, dx: i32, dy: i32)
        requires
            old(self).wf(),
            old(self).mode == Mode::Adjust,
            -10 <= dx <= 10,
            -10 <= dy <= 10,
        ensures
            ({
                let (x, y, w, h) = old(self).rect_spec();
                &&& *final(self) == (SurgicalScene {
                    sx: final(self).sx,
                    sy: final(self).sy,
                    cx: final(self).cx,
                    cy: final(self).cy,
                    ..*old(self)
                })
                &&& final(self).rect_spec() == (
                    clamp_spec(x + dx, 0, old(self).w - w) as i32,
                    clamp_spec(y + dy, 0, old(self).h - h) as i32,
                    w,
                    h,
                )
            }),
    {
        let (x, y, w, h) = self.rect();
        let nx = clamp_i32(x + dx, 0, self.w - w);
        let ny = clamp_i32(y + dy, 0, self.h - h);
        self.set_rect((nx, ny, w, h));
    }

    /// Opens the pixel editor on the box (clamped to the frame), magnified to
    /// fit about 72% of the screen.
    fn enter_target_phase(&mut self)
        requires
            old(self).wf(),
            old(self).mode == Mode::Adjust,
            old(self).target is None,
        ensures
            final(self).wf(),
            ({
                let (x, y, w, h) = old(self).rect_spec();
                let x0 = clamp_spec(x as int, 0, old(self).w - 1);
                let y0 = clamp_spec(y as int, 0, old(self).h - 1);
                let w0 = min_int(w as int, old(self).w - x0);
                let h0 = min_int(h as int, old(self).h - y0);
                &&& final(self).target matches Some(t) && t.rect == (x0 as i32, y0 as i32, w0 as i32, h0
                    as i32) && t.zoom == zoom_for_spec(w0, h0, old(self).screen_w as int, old(self).screen_h as int)
                    && shows_crop(&t.crop, &old(self).frame, t.rect)
                &&& *final(self) == (SurgicalScene {
                    target: final(self).target,
                    title: Some(TARGET_TITLE),
                    ..*old(self)
                })
            }),
    {
        let (x, y, w, h) = self.rect();
        let x = clamp_i32(x, 0, self.w - 1);
        let y = clamp_i32(y, 0, self.h - 1);
        let w = if w <= self.w - x {
            w
        } else {
            self.w - x
        };
        let h = if h <= self.h - y {
            h
        } else {
            self.h - y
        };
        let crop = match self.frame.crop(x, y, w, h) {
            Some(c) => c,
            None => {
                proof {
                    assert(false);
                }
                return;
            },
        };
        let zoom = zoom_for(w, h, self.screen_w, self.screen_h);
        proof {
            lemma_zoom_bounds(w as int, h as int, self.screen_w as int, self.screen_h as int);
            lemma_magnify_fits(&crop, &self.frame, zoom as int);
        }
        let bits = magnified(&crop, zoom);
        let disp_w = w * zoom;
        let disp_h = h * zoom;
        self.target = Some(
            Target {
                bits,
                crop,
                rect: (x, y, w, h),
                zoom,
                disp_w,
                disp_h,
                ox: (self.screen_w - disp_w) / 2,
                oy: (self.screen_h - disp_h) / 2,
            },
        );
        self.title = Some(TARGET_TITLE);
    }

    /// Closes the pixel editor and returns to adjusting the box, dropping
    /// anything drawn.
    fn back_to_adjust(&mut self)
        requires
            old(self).wf(),
            old(self).target is Some,
        ensures
            final(self).wf(),
            *final(self) == (SurgicalScene {
                mode: Mode::Adjust,
                strokes: final(self).strokes,
                drawing: false,
                line_start: None,
                line_end: None,
                target: None,
                title: Some(ADJUST_TITLE),
                ..*old(self)
            }),
            final(self).strokes@.len() == 0,
    {
        self.mode = Mode::Adjust;
        self.strokes.clear();
        self.drawing = false;
        self.line_start = None;
        self.line_end = None;
        self.target = None;
        self.title = Some(ADJUST_TITLE);
    }

    /// Re-lays the editor out after its zoom changed.
    fn rebuild_zoom(&mut self)
        requires
            old(self).wf() || (old(self).target matches Some(t) && 4 <= t.zoom <= 48),
            surgical_frame(&old(self).frame),
            0 <= old(self).screen_w <= MAX_SIDE && 0 <= old(self).screen_h <= MAX_SIDE,
            old(self).target matches Some(t) ==> t.crop.wf() && 1 <= t.crop.width <= old(self).frame.width
                && 1 <= t.crop.height <= old(self).frame.height && 4 <= t.zoom <= 48,
        ensures
            match old(self).target {
                Some(t) => final(self).target matches Some(u) && u.crop == t.crop && u.rect == t.rect && u.zoom
                    == t.zoom && target_layout(&u, old(self).screen_w as int, old(self).screen_h as int),
                None => final(self).target is None,
            },
            *final(self) == (SurgicalScene { target: final(self).target, ..*old(self) }),
    {
        let sw = self.screen_w;
        let sh = self.screen_h;
        let ghost frame_w = self.frame.width;
        let ghost frame_h = self.frame.height;
        proof {
            if self.target is Some {
                lemma_magnify_fits(&self.target->0.crop, &self.frame, self.target->0.zoom as int);
            }
        }
        match &mut self.target {
            Some(t) => {
                let disp_w = t.crop.width as i32 * t.zoom;
                let disp_h = t.crop.height as i32 * t.zoom;
                t.disp_w = disp_w;
                t.disp_h = disp_h;
                t.ox = (sw - disp_w) / 2;
                t.oy = (sh - disp_h) / 2;
                t.bits = magnified(&t.crop, t.zoom);
            },
            None => {},
        }
    }

    /// The crop pixel under the tracked cursor, while the editor is open.
    fn cursor_offset(&self) -> (r: Option<(i32, i32)>)
        requires
            self.wf(),
        ensures
            match self.target {
                Some(t) => r == offset_spec(self.mx as int, self.my as int, &t),
                None => r is None,
            },
    {
        match &self.target {
            Some(t) => {
                proof {
                    lemma_offset_in_range(self.mx as int, self.my as int, t, self.screen_w as int, self.screen_h as int);
                }
                offset_at(self.mx, self.my, t.ox, t.oy, t.zoom, t.crop.width as i32, t.crop.height as i32)
            },
            None => None,
        }
    }

    /// Closes on `r` with the strokes drawn so far; with none drawn, the
    /// click point is the middle of the box.
    fn commit_rect(&mut self, r: Rect) -> (f: Flow)
        ensures
            r.2 < 1 || r.3 < 1 ==> *final(self) == *old(self) && f == Flow::Idle,
            r.2 >= 1 && r.3 >= 1 ==> {
                &&& f == Flow::Close
                &&& final(self).picked matches Some(p) && p.0 == r.0 && p.1 == r.1 && p.2 == r.2 && p.3
                    == r.3 && p.4@ == committed_strokes(old(self).strokes@, r)
                &&& final(self).strokes@.len() == 0
                &&& *final(self) == (SurgicalScene {
                    picked: final(self).picked,
                    strokes: final(self).strokes,
                    ..*old(self)
                })
            },
    {
        let (x, y, w, h) = r;
        if w < 1 || h < 1 {
            return Flow::Idle;
        }
        let mut strokes: Vec<[i32; 4]> = Vec::new();
        std::mem::swap(&mut strokes, &mut self.strokes);
        if strokes.len() == 0 {
            let mx = w / 2;
            let my = h / 2;
            strokes.push([mx, my, mx, my]);
        }
        self.picked = Some((x, y, w, h, strokes));
        Flow::Close
    }

    fn select_left_down(&mut self, x: i32, y: i32) -> (f: Flow)
        requires
            old(self).wf(),
            old(self).target is None,
            screen_coord(x as int) && screen_coord(y as int),
        ensures
            final(self).wf(),
            select_left_down(*old(self), *final(self), x, y, f),
    {
        if self.mode == Mode::Drag {
            self.sx = x;
            self.cx = x;
            self.sy = y;
            self.cy = y;
            self.dragging = true;
            let _ = self.hover.aim(&self.frame, x, y);
        } else {
            let corner = hit_corner(self.rect(), x, y, 10);
            if corner >= 0 {
                self.resize_corner = corner;
                self.dragging = true;
            } else {
                let (rx, ry, w, h) = self.rect();
                if x >= rx && x <= rx + w && y >= ry && y <= ry + h {
                    self.moving = true;
                    self.move_dx = x - rx;
                    self.move_dy = y - ry;
                }
            }
        }
        Flow::Repaint
    }

    fn select_move(&mut self, x: i32, y: i32) -> (f: Flow)
        requires
            old(self).wf(),
            old(self).target is None,
            screen_coord(x as int) && screen_coord(y as int),
        ensures
            final(self).wf(),
            select_move(*old(self), *final(self), x, y, f),
    {
        if self.mode == Mode::Drag {
            if !self.dragging {
                return if self.hover.aim(&self.frame, x, y) {
                    Flow::Repaint
                } else {
                    Flow::Idle
                };
            }
            self.cx = x;
            self.cy = y;
        } else if self.resize_corner >= 0 && self.dragging {
            let (rx, ry, w, h) = self.rect();
            let (sx, sy, cx, cy) = if self.resize_corner == 0 {
                (x, y, rx + w, ry + h)
            } else if self.resize_corner == 1 {
                (rx, y, x, ry + h)
            } else if self.resize_corner == 2 {
                (x, ry, rx + w, y)
            } else {
                (rx, ry, x, y)
            };
            self.sx = sx;
            self.sy = sy;
            self.cx = cx;
            self.cy = cy;
            self.clamp_selection();
        } else if self.moving {
            let (_, _, w, h) = self.rect();
            let nx = clamp_i32(x - self.move_dx, 0, self.w - w);
            let ny = clamp_i32(y - self.move_dy, 0, self.h - h);
            self.set_rect((nx, ny, w, h));
        } else {
            return Flow::Idle;
        }
        Flow::Repaint
    }

    fn select_left_up(&mut self, x: i32, y: i32) -> (f: Flow)
        requires
            old(self).wf(),
            old(self).target is None,
            screen_coord(x as int) && screen_coord(y as int),
        ensures
            final(self).wf(),
            select_left_up(*old(self), *final(self), x, y, f),
    {
        if self.mode == Mode::Drag {
            if !self.dragging {
                return Flow::Idle;
            }
            self.dragging = false;
            self.cx = x;
            self.cy = y;
            let (_, _, w, h) = self.rect();
            if w < 6 || h < 6 {
                match self.hover.rect() {
                    Some(r) => self.set_rect(r),
                    None => return Flow::Repaint,
                }
            }
            self.mode = Mode::Adjust;
            self.clamp_selection();
            self.title = Some(ADJUST_TITLE);
        } else {
            self.dragging = false;
            self.resize_corner = -1;
            self.moving = false;
            proof {
                lemma_clamped_inside(self.rect_spec(), self.w as int, self.h as int);
            }
            self.clamp_selection();
        }
        Flow::Repaint
    }

    fn select_right_down(&mut self) -> (f: Flow)
        requires
            old(self).wf(),
            old(self).target is None,
        ensures
            final(self).wf(),
            select_right_down(*old(self), *final(self), f),
    {
        if self.mode != Mode::Adjust {
            return Flow::Idle;
        }
        self.mode = Mode::Drag;
        self.dragging = false;
        self.resize_corner = -1;
        self.moving = false;
        let _ = self.hover.clear();
        self.title = Some(SURGICAL_HINT);
        Flow::Repaint
    }

    fn select_key(&mut self, vk: u32, shift: bool) -> (f: Flow)
        requires
            old(self).wf(),
            old(self).target is None,
        ensures
            final(self).wf(),
            select_key(*old(self), *final(self), vk, shift, f),
    {
        if vk == VK_ESCAPE {
            return Flow::Close;
        }
        if self.mode != Mode::Adjust {
            return Flow::Idle;
        }
        if vk == VK_RETURN {
            let r = self.rect();
            if r.2 >= 6 && r.3 >= 6 {
                return self.commit_rect(r);
            }
            return Flow::Idle;
        }
        if vk == VK_D {
            let (_, _, w, h) = self.rect();
            if w >= 6 && h >= 6 {
                self.enter_target_phase();
                return Flow::Repaint;
            }
            return Flow::Idle;
        }
        let step: i32 = if shift {
            10
        } else {
            1
        };
        if vk == VK_LEFT {
            self.nudge(-step, 0);
        } else if vk == VK_RIGHT {
            self.nudge(step, 0);
        } else if vk == VK_UP {
            self.nudge(0, -step);
        } else if vk == VK_DOWN {
            self.nudge(0, step);
        } else {
            return Flow::Idle;
        }
        Flow::Repaint
    }

    fn target_left_down(&mut self, x: i32, y: i32) -> (f: Flow)
        requires
            old(self).wf(),
            old(self).target is Some,
        ensures
            final(self).wf(),
            target_left_down(*old(self), *final(self), x, y, f),
    {
        if let Some((bx0, by0, bx1, by1)) = self.done_rect {
            if x >= bx0 && x <= bx1 && y >= by0 && y <= by1 {
                let r = self.target_rect();
                match r {
                    Some(r) => return self.commit_rect(r),
                    None => return Flow::Idle,
                }
            }
        }
        if let Some(off) = self.cursor_offset() {
            self.drawing = true;
            self.line_start = Some(off);
            self.line_end = Some(off);
            return Flow::Repaint;
        }
        Flow::Idle
    }

    fn target_move(&mut self, x: i32, y: i32) -> (f: Flow)
        requires
            old(self).wf(),
            old(self).target is Some,
            screen_coord(x as int) && screen_coord(y as int),
        ensures
            final(self).wf(),
            target_move(*old(self), *final(self), x, y, f),
    {
        self.mx = x;
        self.my = y;
        if self.drawing {
            if let Some(off) = self.cursor_offset() {
                self.line_end = Some(off);
            }
        }
        Flow::Repaint
    }

    fn target_left_up(&mut self) -> (f: Flow)
        requires
            old(self).wf(),
            old(self).target is Some,
        ensures
            final(self).wf(),
            target_left_up(*old(self), *final(self), f),
    {
        if !self.drawing {
            return Flow::Idle;
        }
        self.drawing = false;
        if let Some(off) = self.cursor_offset() {
            self.line_end = Some(off);
        }
        if let Some(start) = self.line_start {
            let end = match self.line_end {
                Some(e) => e,
                None => start,
            };
            self.strokes.push([start.0, start.1, end.0, end.1]);
        }
        self.line_start = None;
        self.line_end = None;
        Flow::Repaint
    }

    fn target_right_down(&mut self) -> (f: Flow)
        requires
            old(self).wf(),
            old(self).target is Some,
        ensures
            final(self).wf(),
            target_right_down(*old(self), *final(self), f),
    {
        if self.drawing {
            self.drawing = false;
            self.line_start = None;
            self.line_end = None;
        } else {
            let _ = self.strokes.pop();
        }
        Flow::Repaint
    }

    fn target_key(&mut self, vk: u32) -> (f: Flow)
        requires
            old(self).wf(),
            old(self).target is Some,
        ensures
            final(self).wf(),
            target_key(*old(self), *final(self), vk, f),
    {
        if vk == VK_ESCAPE {
            Flow::Close
        } else if vk == VK_RETURN {
            match self.target_rect() {
                Some(r) => self.commit_rect(r),
                None => Flow::Idle,
            }
        } else if vk == VK_BACK {
            if self.strokes.pop().is_none() {
                self.back_to_adjust();
            }
            Flow::Repaint
        } else if vk == VK_G {
            self.show_grid = !self.show_grid;
            Flow::Repaint
        } else {
            Flow::Idle
        }
    }

    fn target_wheel(&mut self, delta: i32) -> (f: Flow)
        requires
            old(self).wf(),
            old(self).target is Some,
        ensures
            final(self).wf(),
            target_wheel(*old(self), *final(self), delta, f),
    {
        match &mut self.target {
            Some(t) => {
                let step = if t.zoom / 4 >= 1 {
                    t.zoom / 4
                } else {
                    1
                };
                t.zoom = if delta > 0 {
                    if t.zoom + step <= 48 {
                        t.zoom + step
                    } else {
                        48
                    }
                } else if t.zoom - step >= 4 {
                    t.zoom - step
                } else {
                    4
                };
            },
            None => {},
        }
        self.rebuild_zoom();
        Flow::Repaint
    }

    /// Handles one overlay event (see `surgical_step` for what each does).
    /// A title change it asks for waits in `title`.
    pub fn event(&mut self, ev: Event) -> (f: Flow)
        requires
            old(self).wf(),
            event_in_range(ev),
        ensures
            final(self).wf(),
            surgical_step(*old(self), *final(self), ev, f),
    {
        if self.target.is_none() {
            match ev {
                Event::LeftDown { x, y } => self.select_left_down(x, y),
                Event::MouseMove { x, y } => self.select_move(x, y),
                Event::LeftUp { x, y } => self.select_left_up(x, y),
                Event::RightDown { .. } => self.select_right_down(),
                Event::Key { vk, shift } => self.select_key(vk, shift),
                Event::Wheel { .. } => Flow::Idle,
            }
        } else {
            match ev {
                Event::LeftDown { x, y } => self.target_left_down(x, y),
                Event::MouseMove { x, y } => self.target_move(x, y),
                Event::LeftUp { .. } => self.target_left_up(),
                Event::RightDown { .. } => self.target_right_down(),
                Event::Key { vk, .. } => self.target_key(vk),
                Event::Wheel { delta } => self.target_wheel(delta),
            }
        }
    }

    /// The committed box and strokes, moved out; `None` when cancelled.
    pub fn take(&mut self) -> (r: Option<(i32, i32, i32, i32, Vec<[i32; 4]>)>)
        ensures
            r == old(self).picked,
            *final(self) == (SurgicalScene { picked: None, ..*old(self) }),
    {
        let mut r = None;
        std::mem::swap(&mut r, &mut self.picked);
        r
    }
}

/// The drag points after the corner `corner` of `rect` is dragged to
/// `(x, y)`; the opposite corner stays put.
pub open spec fn resized(rect: Rect, corner: int, x: i32, y: i32) -> (i32, i32, i32, i32) {
    let (rx, ry, w, h) = rect;
    if corner == 0 {
        (x, y, (rx + w) as i32, (ry + h) as i32)
    } else if corner == 1 {
        (rx, y, x, (ry + h) as i32)
    } else if corner == 2 {
        (x, ry, (rx + w) as i32, y)
    } else {
        (rx, ry, x, y)
    }
}

/// `(x, y)` lies in `r`, edges included.
pub open spec fn on_box(r: Rect, x: int, y: int) -> bool {
    r.0 <= x <= r.0 + r.2 && r.1 <= y <= r.1 + r.3
}

/// The first corner of `r` (top-left, top-right, bottom-left,
/// bottom-right) within `margin` of `(x, y)`, or -1.
pub open spec fn first_near_corner(r: Rect, x: int, y: int, margin: int) -> int {
    if near_corner(r, 0, x, y, margin) {
        0
    } else if near_corner(r, 1, x, y, margin) {
        1
    } else if near_corner(r, 2, x, y, margin) {
        2
    } else if near_corner(r, 3, x, y, margin) {
        3
    } else {
        -1
    }
}

/// A press while boxing: in `Drag` mode it starts a drag (and aims the
/// lasso); in `Adjust` mode it grabs a corner within 10 pixels, or else the
/// box itself when the press is on it.
pub open spec fn select_left_down(s0: SurgicalScene, s1: SurgicalScene, x: i32, y: i32, f: Flow) -> bool {
    &&& f == Flow::Repaint
    &&& if s0.mode == Mode::Drag {
        &&& s1 == (SurgicalScene { sx: x, cx: x, sy: y, cy: y, dragging: true, hover: s1.hover, ..s0 })
        &&& aimed(s0.hover, s1.hover, &s0.frame, x as int, y as int)
    } else {
        let r = s0.rect_spec();
        let k = first_near_corner(r, x as int, y as int, 10);
        if k >= 0 {
            s1 == (SurgicalScene { resize_corner: k as i32, dragging: true, ..s0 })
        } else if on_box(r, x as int, y as int) {
            s1 == (SurgicalScene { moving: true, move_dx: (x - r.0) as i32, move_dy: (y - r.1) as i32, ..s0 })
        } else {
            s1 == s0
        }
    }
}

/// The cursor moving while boxing: it re-aims the lasso before a drag, draws
/// the box during one, drags the grabbed corner (the box kept inside the
/// frame and at least 6 by 6), or moves the grabbed box inside the frame.
pub open spec fn select_move(s0: SurgicalScene, s1: SurgicalScene, x: i32, y: i32, f: Flow) -> bool {
    if s0.mode == Mode::Drag {
        if !s0.dragging {
            &&& s1 == (SurgicalScene { hover: s1.hover, ..s0 })
            &&& aimed(s0.hover, s1.hover, &s0.frame, x as int, y as int)
            &&& f == (if s1.hover@ != s0.hover@ { Flow::Repaint } else { Flow::Idle })
        } else {
            s1 == (SurgicalScene { cx: x, cy: y, ..s0 }) && f == Flow::Repaint
        }
    } else if s0.resize_corner >= 0 && s0.dragging {
        let p = resized(s0.rect_spec(), s0.resize_corner as int, x, y);
        &&& s1 == (SurgicalScene { sx: s1.sx, sy: s1.sy, cx: s1.cx, cy: s1.cy, ..s0 })
        &&& s1.rect_spec() == clamped_spec(drag_rect(p.0, p.1, p.2, p.3), s0.w as int, s0.h as int)
        &&& f == Flow::Repaint
    } else if s0.moving {
        let r = s0.rect_spec();
        &&& s1 == (SurgicalScene { sx: s1.sx, sy: s1.sy, cx: s1.cx, cy: s1.cy, ..s0 })
        &&& s1.rect_spec() == (
            clamp_spec(x - s0.move_dx, 0, s0.w - r.2) as i32,
            clamp_spec(y - s0.move_dy, 0, s0.h - r.3) as i32,
            r.2,
            r.3,
        )
        &&& f == Flow::Repaint
    } else {
        s1 == s0 && f == Flow::Idle
    }
}

/// A release while boxing. Ending a drag: a box under 6 on a side was a
/// click, which takes the offered control (or, with none, leaves the picker
/// drawing); either way the box, kept inside the frame and at least 6 by 6,
/// is then adjusted. In `Adjust` mode it lets go of a grabbed corner or box.
pub open spec fn select_left_up(s0: SurgicalScene, s1: SurgicalScene, x: i32, y: i32, f: Flow) -> bool {
    &&& f == (if s0.mode == Mode::Drag && !s0.dragging { Flow::Idle } else { Flow::Repaint })
    &&& if s0.mode == Mode::Drag {
        if !s0.dragging {
            s1 == s0
        } else {
            let r = drag_rect(s0.sx, s0.sy, x, y);
            let small = r.2 < 6 || r.3 < 6;
            if small && s0.hover@ is None {
                s1 == (SurgicalScene { dragging: false, cx: x, cy: y, ..s0 })
            } else {
                let chosen = if small { s0.hover@.unwrap() } else { r };
                &&& s1 == (SurgicalScene {
                    dragging: false,
                    mode: Mode::Adjust,
                    title: Some(ADJUST_TITLE),
                    sx: s1.sx,
                    sy: s1.sy,
                    cx: s1.cx,
                    cy: s1.cy,
                    ..s0
                })
                &&& s1.rect_spec() == clamped_spec(chosen, s0.w as int, s0.h as int)
            }
        }
    } else {
        &&& s1 == (SurgicalScene {
            dragging: false,
            resize_corner: -1i32,
            moving: false,
            sx: s1.sx,
            sy: s1.sy,
            cx: s1.cx,
            cy: s1.cy,
            ..s0
        })
        &&& s1.rect_spec() == s0.rect_spec()
    }
}

/// A right press while adjusting goes back to drawing a box from scratch,
/// the offer cleared.
pub open spec fn select_right_down(s0: SurgicalScene, s1: SurgicalScene, f: Flow) -> bool {
    if s0.mode == Mode::Adjust {
        &&& s1 == (SurgicalScene {
            mode: Mode::Drag,
            dragging: false,
            resize_corner: -1i32,
            moving: false,
            hover: s1.hover,
            title: Some(SURGICAL_HINT),
            ..s0
        })
        &&& s1.hover@ is None
        &&& f == Flow::Repaint
    } else {
        s1 == s0 && f == Flow::Idle
    }
}

/// A key while boxing: Escape cancels; while adjusting, Enter commits the
/// box, `D` opens the pixel editor on it, and the arrows nudge it by one
/// pixel (ten with Shift).
pub open spec fn select_key(s0: SurgicalScene, s1: SurgicalScene, vk: u32, shift: bool, f: Flow) -> bool {
    let step: int = if shift { 10 } else { 1 };
    let r = s0.rect_spec();
    if vk == VK_ESCAPE {
        s1 == s0 && f == Flow::Close
    } else if s0.mode != Mode::Adjust {
        s1 == s0 && f == Flow::Idle
    } else if vk == VK_RETURN {
        &&& f == Flow::Close
        &&& s1.picked matches Some(p) && p.0 == r.0 && p.1 == r.1 && p.2 == r.2 && p.3 == r.3 && p.4@
            == committed_strokes(s0.strokes@, r)
        &&& s1 == (SurgicalScene { picked: s1.picked, strokes: s1.strokes, ..s0 })
        &&& s1.strokes@.len() == 0
    } else if vk == VK_D {
        &&& f == Flow::Repaint
        &&& s1.target matches Some(t) && t.rect == opened_rect(r, s0.w as int, s0.h as int) && t.zoom == zoom_for_spec(
            t.rect.2 as int,
            t.rect.3 as int,
            s0.screen_w as int,
            s0.screen_h as int,
        ) && shows_crop(&t.crop, &s0.frame, t.rect)
        &&& s1 == (SurgicalScene { target: s1.target, title: Some(TARGET_TITLE), ..s0 })
    } else if vk == VK_LEFT || vk == VK_RIGHT || vk == VK_UP || vk == VK_DOWN {
        let (dx, dy) = if vk == VK_LEFT {
            (-step, 0int)
        } else if vk == VK_RIGHT {
            (step, 0int)
        } else if vk == VK_UP {
            (0int, -step)
        } else {
            (0int, step)
        };
        &&& f == Flow::Repaint
        &&& s1 == (SurgicalScene { sx: s1.sx, sy: s1.sy, cx: s1.cx, cy: s1.cy, ..s0 })
        &&& s1.rect_spec() == (
            clamp_spec(r.0 + dx, 0, s0.w - r.2) as i32,
            clamp_spec(r.1 + dy, 0, s0.h - r.3) as i32,
            r.2,
            r.3,
        )
    } else {
        s1 == s0 && f == Flow::Idle
    }
}

/// `crop` is the part of `frame` under `rect`, pixel for pixel.
pub open spec fn shows_crop(crop: &Frame, frame: &Frame, rect: Rect) -> bool {
    &&& crop.width == rect.2 && crop.height == rect.3
    &&& forall|c: int, rr: int, k: int|
        0 <= c < rect.2 && 0 <= rr < rect.3 && 0 <= k < 3 ==> #[trigger] crop.byte(c, rr, k) == frame.byte(
            rect.0 + c,
            rect.1 + rr,
            k,
        )
}

/// The part of the box the pixel editor opens on: the box with its corner
/// clamped into the frame and its size cut to fit.
pub open spec fn opened_rect(r: Rect, fw: int, fh: int) -> Rect {
    let x0 = clamp_spec(r.0 as int, 0, fw - 1);
    let y0 = clamp_spec(r.1 as int, 0, fh - 1);
    (x0 as i32, y0 as i32, min_int(r.2 as int, fw - x0) as i32, min_int(r.3 as int, fh - y0) as i32)
}

/// `s1` is `s0` closed on `r` with its strokes, or a point in the middle of
/// `r` when none were drawn.
pub open spec fn committed(s0: SurgicalScene, s1: SurgicalScene, r: Rect, f: Flow) -> bool {
    &&& f == Flow::Close
    &&& s1.picked matches Some(p) && p.0 == r.0 && p.1 == r.1 && p.2 == r.2 && p.3 == r.3 && p.4@
        == committed_strokes(s0.strokes@, r)
    &&& s1 == (SurgicalScene { picked: s1.picked, strokes: s1.strokes, ..s0 })
    &&& s1.strokes@.len() == 0
}

/// A press in the pixel editor: on the done button it commits; on the crop
/// it starts a stroke at the tracked cursor.
pub open spec fn target_left_down(s0: SurgicalScene, s1: SurgicalScene, x: i32, y: i32, f: Flow) -> bool {
    let t = s0.target.unwrap();
    if s0.done_rect matches Some(d) && d.0 <= x <= d.2 && d.1 <= y <= d.3 {
        committed(s0, s1, t.rect, f)
    } else {
        match offset_spec(s0.mx as int, s0.my as int, &t) {
            Some(off) => s1 == (SurgicalScene {
                drawing: true,
                line_start: Some(off),
                line_end: Some(off),
                ..s0
            }) && f == Flow::Repaint,
            None => s1 == s0 && f == Flow::Idle,
        }
    }
}

/// The cursor moving in the pixel editor: it is tracked, and a stroke being
/// drawn follows it while it is on the crop.
pub open spec fn target_move(s0: SurgicalScene, s1: SurgicalScene, x: i32, y: i32, f: Flow) -> bool {
    let t = s0.target.unwrap();
    let moved = SurgicalScene { mx: x, my: y, ..s0 };
    &&& f == Flow::Repaint
    &&& match offset_spec(x as int, y as int, &t) {
        Some(off) if s0.drawing => s1 == (SurgicalScene { line_end: Some(off), ..moved }),
        _ => s1 == moved,
    }
}

/// A release in the pixel editor ends the stroke being drawn and keeps it.
pub open spec fn target_left_up(s0: SurgicalScene, s1: SurgicalScene, f: Flow) -> bool {
    let t = s0.target.unwrap();
    if !s0.drawing {
        s1 == s0 && f == Flow::Idle
    } else {
        let end = match offset_spec(s0.mx as int, s0.my as int, &t) {
            Some(o) => Some(o),
            None => s0.line_end,
        };
        let strokes = match s0.line_start {
            Some(st) => {
                let e = match end {
                    Some(e) => e,
                    None => st,
                };
                s0.strokes@.push([st.0, st.1, e.0, e.1])
            },
            None => s0.strokes@,
        };
        &&& f == Flow::Repaint
        &&& s1 == (SurgicalScene {
            drawing: false,
            line_start: None,
            line_end: None,
            strokes: s1.strokes,
            ..s0
        })
        &&& s1.strokes@ == strokes
    }
}

/// A right press in the pixel editor abandons the stroke being drawn, or
/// else drops the last one drawn.
pub open spec fn target_right_down(s0: SurgicalScene, s1: SurgicalScene, f: Flow) -> bool {
    &&& f == Flow::Repaint
    &&& if s0.drawing {
        s1 == (SurgicalScene { drawing: false, line_start: None, line_end: None, ..s0 })
    } else {
        &&& s1 == (SurgicalScene { strokes: s1.strokes, ..s0 })
        &&& s1.strokes@ == (if s0.strokes@.len() > 0 { s0.strokes@.drop_last() } else { s0.strokes@ })
    }
}

/// A key in the pixel editor: Escape cancels, Enter commits, Backspace drops
/// the last stroke (or, with none, goes back to adjusting the box), `G`
/// toggles the grid.
pub open spec fn target_key(s0: SurgicalScene, s1: SurgicalScene, vk: u32, f: Flow) -> bool {
    let t = s0.target.unwrap();
    if vk == VK_ESCAPE {
        s1 == s0 && f == Flow::Close
    } else if vk == VK_RETURN {
        committed(s0, s1, t.rect, f)
    } else if vk == VK_BACK {
        &&& f == Flow::Repaint
        &&& if s0.strokes@.len() > 0 {
            s1 == (SurgicalScene { strokes: s1.strokes, ..s0 }) && s1.strokes@ == s0.strokes@.drop_last()
        } else {
            &&& s1 == (SurgicalScene {
                mode: Mode::Adjust,
                strokes: s1.strokes,
                drawing: false,
                line_start: None,
                line_end: None,
                target: None,
                title: Some(ADJUST_TITLE),
                ..s0
            })
            &&& s1.strokes@.len() == 0
        }
    } else if vk == VK_G {
        s1 == (SurgicalScene { show_grid: !s0.show_grid, ..s0 }) && f == Flow::Repaint
    } else {
        s1 == s0 && f == Flow::Idle
    }
}

/// The wheel in the pixel editor zooms in (away from the user) or out by a
/// quarter of the zoom (at least 1), within 4 to 48.
pub open spec fn target_wheel(s0: SurgicalScene, s1: SurgicalScene, delta: i32, f: Flow) -> bool {
    let t = s0.target.unwrap();
    let step = if t.zoom / 4 >= 1 { t.zoom / 4 } else { 1 };
    let zoom = if delta > 0 {
        min_int(t.zoom + step, 48)
    } else if t.zoom - step >= 4 {
        t.zoom - step
    } else {
        4
    };
    &&& f == Flow::Repaint
    &&& s1.target matches Some(u) && u.crop == t.crop && u.rect == t.rect && u.zoom == zoom && target_layout(
        &u,
        s0.screen_w as int,
        s0.screen_h as int,
    )
    &&& s1 == (SurgicalScene { target: s1.target, ..s0 })
}

/// What one event does to the picker: while boxing, the `select_*` rules;
/// with the pixel editor open, the `target_*` rules.
pub open spec fn surgical_step(s0: SurgicalScene, s1: SurgicalScene, ev: Event, f: Flow) -> bool {
    if s0.target is None {
        match ev {
            Event::LeftDown { x, y } => select_left_down(s0, s1, x, y, f),
            Event::MouseMove { x, y } => select_move(s0, s1, x, y, f),
            Event::LeftUp { x, y } => select_left_up(s0, s1, x, y, f),
            Event::RightDown { .. } => select_right_down(s0, s1, f),
            Event::Key { vk, shift } => select_key(s0, s1, vk, shift, f),
            Event::Wheel { .. } => s1 == s0 && f == Flow::Idle,
        }
    } else {
        match ev {
            Event::LeftDown { x, y } => target_left_down(s0, s1, x, y, f),
            Event::MouseMove { x, y } => target_move(s0, s1, x, y, f),
            Event::LeftUp { .. } => target_left_up(s0, s1, f),
            Event::RightDown { .. } => target_right_down(s0, s1, f),
            Event::Key { vk, .. } => target_key(s0, s1, vk, f),
            Event::Wheel { delta } => target_wheel(s0, s1, delta, f),
        }
    }
}

/// `clamped` as a function of the box and the frame.
pub open spec fn clamped_spec(rect: Rect, fw: int, fh: int) -> Rect {
    let w = if min_int(rect.2 as int, fw) >= 6 {
        min_int(rect.2 as int, fw)
    } else {
        6
    };
    let h = if min_int(rect.3 as int, fh) >= 6 {
        min_int(rect.3 as int, fh)
    } else {
        6
    };
    (clamp_spec(rect.0 as int, 0, fw - w) as i32, clamp_spec(rect.1 as int, 0, fh - h) as i32, w as i32, h as i32)
}

/// `zoom_for` as a function of the crop and the screen.
pub open spec fn zoom_for_spec(w: int, h: int, sw: int, sh: int) -> int {
    let max_w = trunc_div(sw * 72, 100);
    let max_h = trunc_div(sh * 72, 100);
    let a = trunc_div(max_w, if w >= 1 { w } else { 1 });
    let b = trunc_div(max_h, if h >= 1 { h } else { 1 });
    let m = min_int(a, b);
    let lo = if m >= 4 { m } else { 4 };
    min_int(lo, 48)
}

/// The crop pixel under the cursor `(mx, my)` in the editor `t`.
pub open spec fn offset_spec(mx: int, my: int, t: &Target) -> Option<(i32, i32)> {
    let px = (mx - t.ox) / (t.zoom as int);
    let py = (my - t.oy) / (t.zoom as int);
    if mx < 0 {
        None
    } else if px >= 0 && px < t.crop.width && py >= 0 && py < t.crop.height {
        Some((px as i32, py as i32))
    } else {
        None
    }
}

/// The strokes a commit on `r` carries: those drawn, or one point in the
/// middle of the box when none was.
pub open spec fn committed_strokes(drawn: Seq<[i32; 4]>, r: Rect) -> Seq<[i32; 4]> {
    if drawn.len() == 0 {
        seq![[(r.2 / 2) as i32, (r.3 / 2) as i32, (r.2 / 2) as i32, (r.3 / 2) as i32]]
    } else {
        drawn
    }
}

proof fn lemma_zoom_bounds(w: int, h: int, sw: int, sh: int)
    ensures
        4 <= zoom_for_spec(w, h, sw, sh) <= 48,
{
}

proof fn lemma_magnify_fits(crop: &Frame, frame: &Frame, zoom: int)
    requires
        surgical_frame(frame),
        1 <= crop.width <= frame.width,
        1 <= crop.height <= frame.height,
        4 <= zoom <= 48,
    ensures
        crop.width * zoom <= u32::MAX,
        crop.height * zoom <= u32::MAX,
        crop.width * zoom * crop.height * zoom * 4 <= usize::MAX,
        crop.width * zoom <= 48 * MAX_SIDE,
        crop.height * zoom <= 48 * MAX_SIDE,
{
    assert(crop.width * zoom <= frame.width * 48) by (nonlinear_arith)
        requires
            1 <= crop.width <= frame.width,
            4 <= zoom <= 48,
    ;
    assert(crop.height * zoom <= frame.height * 48) by (nonlinear_arith)
        requires
            1 <= crop.height <= frame.height,
            4 <= zoom <= 48,
    ;
    assert(crop.width * zoom * crop.height * zoom * 4 <= frame.width * 48 * frame.height * 48 * 4)
        by (nonlinear_arith)
        requires
            0 <= crop.width * zoom <= frame.width * 48,
            0 <= crop.height * zoom <= frame.height * 48,
    ;
}

proof fn lemma_offset_in_range(mx: int, my: int, t: &Target, sw: int, sh: int)
    requires
        screen_coord(mx),
        screen_coord(my),
        0 <= sw <= MAX_SIDE,
        0 <= sh <= MAX_SIDE,
        1 <= t.crop.width <= MAX_SIDE,
        1 <= t.crop.height <= MAX_SIDE,
        4 <= t.zoom <= 48,
        target_layout(t, sw, sh),
    ensures
        i32::MIN <= mx - t.ox <= i32::MAX,
        i32::MIN <= my - t.oy <= i32::MAX,
{
    assert(t.disp_w <= 48 * MAX_SIDE) by (nonlinear_arith)
        requires
            t.disp_w == t.crop.width * t.zoom,
            1 <= t.crop.width <= MAX_SIDE,
            4 <= t.zoom <= 48,
    ;
    assert(t.disp_h <= 48 * MAX_SIDE) by (nonlinear_arith)
        requires
            t.disp_h == t.crop.height * t.zoom,
            1 <= t.crop.height <= MAX_SIDE,
            4 <= t.zoom <= 48,
    ;
}


/// A box already inside the frame and at least 6 by 6 is left as it is by
/// `clamped`.
proof fn lemma_clamped_inside(r: Rect, fw: int, fh: int)
    requires
        box_inside(r, fw, fh),
    ensures
        clamped_spec(r, fw, fh) == r,
{
}

} // verus!
