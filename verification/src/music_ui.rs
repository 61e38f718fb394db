//! The music player overlay: panel, track name, progress, times and buttons.
use crate::bitmap_font::{draw_text, text_glyphs, text_pixels, GLYPH_WIDTH};
use crate::canvas::{
    lemma_paint_agree, lemma_paint_add_point, lemma_paint_extend, lemma_paint_nothing,
    lemma_scan_done, lemma_scan_next_row, lemma_scan_skip, lemma_scan_start, lemma_scan_step, paint,
    pixel_x, pixel_y, point, rect_area, scan_prefix,
};
use crate::music::MusicSnapshot;
use vstd::prelude::*;
use vstd::string::StringSliceAdditionalSpecFns;

verus! {

/// An axis-aligned rectangle of pixels.
#[derive(Clone, Copy, Debug, PartialEq, Eq)]
pub struct Rect {
    pub x: usize,
    pub y: usize,
    pub width: usize,
    pub height: usize,
}

impl Rect {
    /// The rectangle's pixels.
    pub open spec fn area(self) -> spec_fn(int, int) -> bool {
        rect_area(self.x as int, self.y as int, self.width as int, self.height as int)
    }

    /// Its one-pixel border.
    pub open spec fn outline(self) -> spec_fn(int, int) -> bool {
        let (x, y, w, h) = (self.x as int, self.y as int, self.width as int, self.height as int);
        |px: int, py: int|
            w > 0 && h > 0 && ((x <= px < x + w && (py == y || py == y + h - 1)) || (y <= py < y + h
                && (px == x || px == x + w - 1)))
    }

    /// Its far corner fits in `usize`.
    pub open spec fn fits(self) -> bool {
        self.x + self.width <= usize::MAX && self.y + self.height <= usize::MAX
    }

    pub fn contains(self, x: usize, y: usize) -> (inside: bool)
        requires
            self.fits(),
        ensures
            inside == (self.area())(x as int, y as int),
    {
        x >= self.x && x < self.x + self.width && y >= self.y && y < self.y + self.height
    }
}

/// Sets pixel `(x, y)` when it lies inside the raster.
pub fn put_pixel(buffer: &mut [u32], width: usize, height: usize, x: usize, y: usize, color: u32)
    requires
        old(buffer)@.len() == width * height,
    ensures
        final(buffer)@ == paint(old(buffer)@, width as int, point(x as int, y as int), color),
{
    let ghost base = buffer@;
    let n = buffer.len();
    if x < width && y < height {
        proof {
            assert(y * width + x < width * height) by (nonlinear_arith)
                requires
                    x < width,
                    y < height,
            ;
            lemma_paint_nothing(base, width as int, height as int, |px: int, py: int| false, color);
            lemma_paint_add_point(
                base,
                width as int,
                height as int,
                |px: int, py: int| false,
                point(x as int, y as int),
                x as int,
                y as int,
                color,
            );
        }
        buffer[y * width + x] = color;
    } else {
        proof {
            lemma_paint_nothing(base, width as int, height as int, point(x as int, y as int), color);
        }
    }
}

/// Fills `rect`, clipped to the raster.
pub fn fill_rect(buffer: &mut [u32], width: usize, height: usize, rect: Rect, color: u32)
    requires
        old(buffer)@.len() == width * height,
        rect.fits(),
    ensures
        final(buffer)@ == paint(old(buffer)@, width as int, rect.area(), color),
{
    let ghost base = buffer@;
    let n = buffer.len();
    let max_y = if rect.y + rect.height < height { rect.y + rect.height } else { height };
    let max_x = if rect.x + rect.width < width { rect.x + rect.width } else { width };
    let start_x = if rect.x < width { rect.x } else { width };
    let mut y = if rect.y < height { rect.y } else { height };
    proof {
        lemma_scan_start(base, width as int, height as int, rect.area(), y as int, color);
    }
    while y < max_y
        invariant
            buffer@.len() == width * height,
            n == width * height,
            base.len() == width * height,
            rect.fits(),
            start_x == (if rect.x < width { rect.x } else { width }),
            max_x <= rect.x + rect.width,
            max_y <= height,
            max_y <= rect.y + rect.height,
            max_x <= width,
            max_x == rect.x + rect.width || max_x == width,
            start_x <= max_x || start_x == width,
            start_x == rect.x || start_x == width,
            rect.y <= y || y == height,
            y <= max_y || y == height,
            buffer@ == paint(base, width as int, scan_prefix(rect.area(), y as int, 0), color),
        decreases max_y - y,
    {
        let mut x = start_x;
        proof {
            assert forall|px: int| 0 <= px < x && px < width implies !#[trigger] rect.area()(px, y as int) by {}
            lemma_scan_skip(base, width as int, height as int, rect.area(), y as int, 0, x as int, color);
        }
        while x < max_x
            invariant
                buffer@.len() == width * height,
                n == width * height,
                base.len() == width * height,
                    rect.fits(),
                y < max_y,
                max_y <= height,
                max_y <= rect.y + rect.height,
                rect.y <= y,
                max_x <= width,
                max_x == rect.x + rect.width || max_x == width,
                max_x <= rect.x + rect.width,
                rect.x <= x || x == width,
                buffer@ == paint(base, width as int, scan_prefix(rect.area(), y as int, x as int), color),
            decreases max_x - x,
        {
            proof {
                assert(rect.area()(x as int, y as int));
                lemma_scan_step(base, width as int, height as int, rect.area(), x as int, y as int, color);
                assert(y * width + x < width * height) by (nonlinear_arith)
                    requires
                        x < width,
                        y < height,
                ;
            }
            buffer[y * width + x] = color;
            x = x + 1;
        }
        proof {
            lemma_scan_next_row(base, width as int, height as int, rect.area(), y as int, x as int, color);
        }
        y = y + 1;
    }
    proof {
        lemma_scan_done(base, width as int, height as int, rect.area(), y as int, color);
    }
}

/// Draws the one-pixel border of `rect`, clipped to the raster.
pub fn stroke_rect(buffer: &mut [u32], width: usize, height: usize, rect: Rect, color: u32)
    requires
        old(buffer)@.len() == width * height,
        rect.fits(),
    ensures
        final(buffer)@ == paint(old(buffer)@, width as int, rect.outline(), color),
{
    let ghost base = buffer@;
    if rect.width == 0 || rect.height == 0 {
        proof {
            lemma_paint_nothing(base, width as int, height as int, rect.outline(), color);
        }
        return;
    }
    let ghost (rx, ry, rw, rh) = (rect.x as int, rect.y as int, rect.width as int, rect.height as int);
    let mut x = rect.x;
    proof {
        lemma_paint_nothing(base, width as int, height as int, |px: int, py: int| false, color);
    }
    while x < rect.x + rect.width
        invariant
            buffer@.len() == width * height,
            base.len() == width * height,
            rect.fits(),
            rect.width > 0,
            rect.height > 0,
            rx == rect.x,
            ry == rect.y,
            rw == rect.width,
            rh == rect.height,
            rect.x <= x <= rect.x + rect.width,
            buffer@ == paint(
                base,
                width as int,
                |px: int, py: int| rx <= px < x && (py == ry || py == ry + rh - 1),
                color,
            ),
        decreases rect.x + rect.width - x,
    {
        let ghost before = buffer@;
        let ghost done = |px: int, py: int| rx <= px < x && (py == ry || py == ry + rh - 1);
        put_pixel(buffer, width, height, x, rect.y, color);
        put_pixel(buffer, width, height, x, rect.y + rect.height - 1, color);
        proof {
            let half = |px: int, py: int| (rx <= px < x && (py == ry || py == ry + rh - 1)) || (px == x && py == ry);
            lemma_paint_extend(base, width as int, height as int, done, point(x as int, ry), half, color);
            lemma_paint_extend(
                base,
                width as int,
                height as int,
                half,
                point(x as int, ry + rh - 1),
                |px: int, py: int| rx <= px < x + 1 && (py == ry || py == ry + rh - 1),
                color,
            );
        }
        x = x + 1;
    }
    let mut y = rect.y;
    while y < rect.y + rect.height
        invariant
            buffer@.len() == width * height,
            base.len() == width * height,
            rect.fits(),
            rect.width > 0,
            rect.height > 0,
            rx == rect.x,
            ry == rect.y,
            rw == rect.width,
            rh == rect.height,
            rect.y <= y <= rect.y + rect.height,
            buffer@ == paint(
                base,
                width as int,
                |px: int, py: int|
                    (rx <= px < rx + rw && (py == ry || py == ry + rh - 1)) || (ry <= py < y && (px
                        == rx || px == rx + rw - 1)),
                color,
            ),
        decreases rect.y + rect.height - y,
    {
        let ghost done = |px: int, py: int|
            (rx <= px < rx + rw && (py == ry || py == ry + rh - 1)) || (ry <= py < y && (px == rx
                || px == rx + rw - 1));
        put_pixel(buffer, width, height, rect.x, y, color);
        put_pixel(buffer, width, height, rect.x + rect.width - 1, y, color);
        proof {
            let half = |px: int, py: int| done(px, py) || (px == rx && py == y);
            lemma_paint_extend(base, width as int, height as int, done, point(rx, y as int), half, color);
            lemma_paint_extend(
                base,
                width as int,
                height as int,
                half,
                point(rx + rw - 1, y as int),
                |px: int, py: int|
                    (rx <= px < rx + rw && (py == ry || py == ry + rh - 1)) || (ry <= py < y + 1 && (px
                        == rx || px == rx + rw - 1)),
                color,
            );
        }
        y = y + 1;
    }
    proof {
        lemma_paint_agree(
            base,
            width as int,
            height as int,
            |px: int, py: int|
                (rx <= px < rx + rw && (py == ry || py == ry + rh - 1)) || (ry <= py < ry + rh && (px
                    == rx || px == rx + rw - 1)),
            rect.outline(),
            color,
        );
    }
}


pub const PANEL_WIDTH: usize = 252;
pub const PANEL_HEIGHT: usize = 126;
pub const MARGIN: usize = 10;
pub const PANEL_COLOR: u32 = 0x24272D;
pub const BORDER_COLOR: u32 = 0xB94E48;
pub const INNER_BORDER_COLOR: u32 = 0x552A2A;
pub const TEXT_COLOR: u32 = 0xF0D59A;
pub const SECONDARY_TEXT_COLOR: u32 = 0xE8E9ED;
pub const TRACK_COLOR: u32 = 0x111319;
pub const PROGRESS_COLOR: u32 = 0xC44F49;
pub const BUTTON_COLOR: u32 = 0x743633;
pub const BUTTON_HOVER_COLOR: u32 = 0x9B4641;
pub const MUTED_COLOR: u32 = 0xD66A61;

/// The solid triangle of the play and next icons: 14 rows, row `r` being
/// `min(r, 13 - r) / 2 + 1` pixels wide, starting at column `x`.
pub open spec fn triangle(x: int, y: int) -> spec_fn(int, int) -> bool {
    |px: int, py: int|
        0 <= py - y < 14 && 0 <= px - x <= (if py - y < 13 - (py - y) { py - y } else { 13 - (py - y) }) / 2
}

/// The triangle's rows above `row`, and the first `column` pixels of row `row`.
pub open spec fn triangle_upto(x: int, y: int, row: int, column: int) -> spec_fn(int, int) -> bool {
    |px: int, py: int| triangle(x, y)(px, py) && (py - y < row || (py - y == row && px - x < column))
}

/// Fills the icon triangle with its top-left pixel at `(x, y)`.
fn fill_triangle(buffer: &mut [u32], width: usize, height: usize, x: usize, y: usize, color: u32)
    requires
        old(buffer)@.len() == width * height,
        x + 8 <= usize::MAX,
        y + 14 <= usize::MAX,
    ensures
        final(buffer)@ == paint(old(buffer)@, width as int, triangle(x as int, y as int), color),
{
    let ghost base = buffer@;
    proof {
        lemma_paint_nothing(base, width as int, height as int, triangle_upto(x as int, y as int, 0, 0), color);
    }
    let mut row: usize = 0;
    while row < 14
        invariant
            buffer@.len() == width * height,
            base.len() == width * height,
            x + 8 <= usize::MAX,
            y + 14 <= usize::MAX,
            row <= 14,
            buffer@ == paint(base, width as int, triangle_upto(x as int, y as int, row as int, 0), color),
        decreases 14 - row,
    {
        let span = (if row < 13 - row { row } else { 13 - row }) / 2;
        let mut column: usize = 0;
        while column <= span
            invariant
                buffer@.len() == width * height,
                base.len() == width * height,
                x + 8 <= usize::MAX,
                y + 14 <= usize::MAX,
                row < 14,
                span == (if row < 13 - row { row as int } else { 13 - row }) / 2,
                column <= span + 1,
                buffer@ == paint(base, width as int, triangle_upto(x as int, y as int, row as int, column as int), color),
            decreases span + 1 - column,
        {
            put_pixel(buffer, width, height, x + column, y + row, color);
            proof {
                lemma_paint_extend(
                    base,
                    width as int,
                    height as int,
                    triangle_upto(x as int, y as int, row as int, column as int),
                    point(x + column, y + row),
                    triangle_upto(x as int, y as int, row as int, column + 1),
                    color,
                );
            }
            column = column + 1;
        }
        proof {
            lemma_paint_agree(
                base,
                width as int,
                height as int,
                triangle_upto(x as int, y as int, row as int, column as int),
                triangle_upto(x as int, y as int, row + 1, 0),
                color,
            );
        }
        row = row + 1;
    }
    proof {
        lemma_paint_agree(
            base,
            width as int,
            height as int,
            triangle_upto(x as int, y as int, 14, 0),
            triangle(x as int, y as int),
            color,
        );
    }
}


/// A button's icon keeps clear of the `usize` limit.
pub open spec fn icon_fits(rect: Rect) -> bool {
    rect.x + 40 <= usize::MAX && rect.y + 40 <= usize::MAX
}

/// A button: filled (lighter when hovered) and outlined.
pub open spec fn button_drawn(buf: Seq<u32>, width: int, rect: Rect, hovered: bool) -> Seq<u32> {
    paint(
        paint(buf, width, rect.area(), if hovered { BUTTON_HOVER_COLOR } else { BUTTON_COLOR }),
        width,
        rect.outline(),
        BORDER_COLOR,
    )
}

/// The play/pause icon: a play triangle while paused, two bars while playing.
pub open spec fn play_pause_drawn(buf: Seq<u32>, width: int, rect: Rect, paused: bool) -> Seq<u32> {
    let (x, y) = (rect.x as int, rect.y as int);
    if paused {
        paint(buf, width, triangle(x + 12, y + 8), TEXT_COLOR)
    } else {
        paint(paint(buf, width, rect_area(x + 10, y + 8, 4, 14), TEXT_COLOR), width, rect_area(x + 20, y + 8, 4, 14), TEXT_COLOR)
    }
}

/// The next icon: a triangle and a bar.
pub open spec fn next_drawn(buf: Seq<u32>, width: int, rect: Rect) -> Seq<u32> {
    let (x, y) = (rect.x as int, rect.y as int);
    paint(paint(buf, width, triangle(x + 10, y + 8), TEXT_COLOR), width, rect_area(x + 21, y + 8, 3, 14), TEXT_COLOR)
}

/// The speaker's cone: two diagonals, three pixels each, from `(x, y + 11)` up and
/// from `(x, y + 19)` down; only the first `n` of the six drawing steps.
pub open spec fn speaker_cone(x: int, y: int, n: int) -> spec_fn(int, int) -> bool {
    |px: int, py: int| 0 <= px - x < 3 && 2 * (px - x) < n && (py == y + 11 - (px - x) || py == y + 19 + (px - x))
}

/// The cross-out line of a muted speaker: the first `n` pixels of a diagonal.
pub open spec fn mute_cross(x: int, y: int, n: int) -> spec_fn(int, int) -> bool {
    |px: int, py: int| 0 <= px - x < n && py - y == px - x
}

/// The sound wave of an unmuted speaker: the first `n` of its rows, stepping
/// one column right every three rows.
pub open spec fn sound_wave(x: int, y: int, n: int) -> spec_fn(int, int) -> bool {
    |px: int, py: int| 0 <= py - y < n && px == x + (py - y) / 3
}

/// The mute icon: a speaker, crossed out when muted, with a wave otherwise.
pub open spec fn mute_drawn(buf: Seq<u32>, width: int, rect: Rect, muted: bool) -> Seq<u32> {
    let (x, y) = (rect.x as int, rect.y as int);
    let speaker = paint(
        paint(buf, width, rect_area(x + 8, y + 12, 5, 7), TEXT_COLOR),
        width,
        speaker_cone(x + 13, y, 6),
        TEXT_COLOR,
    );
    if muted {
        paint(speaker, width, mute_cross(x + 9, y + 7, 15), MUTED_COLOR)
    } else {
        paint(speaker, width, sound_wave(x + 20, y + 11, 8), TEXT_COLOR)
    }
}

fn draw_button(buffer: &mut [u32], width: usize, height: usize, rect: Rect, hovered: bool)
    requires
        old(buffer)@.len() == width * height,
        rect.fits(),
    ensures
        final(buffer)@ == button_drawn(old(buffer)@, width as int, rect, hovered),
{
    fill_rect(buffer, width, height, rect, if hovered { BUTTON_HOVER_COLOR } else { BUTTON_COLOR });
    stroke_rect(buffer, width, height, rect, BORDER_COLOR);
}

fn draw_play_pause_icon(buffer: &mut [u32], width: usize, height: usize, rect: Rect, paused: bool)
    requires
        old(buffer)@.len() == width * height,
        icon_fits(rect),
    ensures
        final(buffer)@ == play_pause_drawn(old(buffer)@, width as int, rect, paused),
{
    if paused {
        fill_triangle(buffer, width, height, rect.x + 12, rect.y + 8, TEXT_COLOR);
    } else {
        fill_rect(buffer, width, height, Rect { x: rect.x + 10, y: rect.y + 8, width: 4, height: 14 }, TEXT_COLOR);
        fill_rect(buffer, width, height, Rect { x: rect.x + 20, y: rect.y + 8, width: 4, height: 14 }, TEXT_COLOR);
    }
}

fn draw_next_icon(buffer: &mut [u32], width: usize, height: usize, rect: Rect)
    requires
        old(buffer)@.len() == width * height,
        icon_fits(rect),
    ensures
        final(buffer)@ == next_drawn(old(buffer)@, width as int, rect),
{
    fill_triangle(buffer, width, height, rect.x + 10, rect.y + 8, TEXT_COLOR);
    fill_rect(buffer, width, height, Rect { x: rect.x + 21, y: rect.y + 8, width: 3, height: 14 }, TEXT_COLOR);
}

fn draw_mute_icon(buffer: &mut [u32], width: usize, height: usize, rect: Rect, muted: bool)
    requires
        old(buffer)@.len() == width * height,
        icon_fits(rect),
    ensures
        final(buffer)@ == mute_drawn(old(buffer)@, width as int, rect, muted),
{
    let ghost (x, y) = (rect.x as int, rect.y as int);
    fill_rect(buffer, width, height, Rect { x: rect.x + 8, y: rect.y + 12, width: 5, height: 7 }, TEXT_COLOR);
    let ghost body = buffer@;
    proof {
        lemma_paint_nothing(body, width as int, height as int, speaker_cone(x + 13, y, 0), TEXT_COLOR);
    }
    let mut offset: usize = 0;
    while offset < 6
        invariant
            buffer@.len() == width * height,
            body.len() == width * height,
            icon_fits(rect),
            x == rect.x,
            y == rect.y,
            offset <= 6,
            buffer@ == paint(body, width as int, speaker_cone(x + 13, y, offset as int), TEXT_COLOR),
        decreases 6 - offset,
    {
        put_pixel(buffer, width, height, rect.x + 13 + offset / 2, rect.y + 11 - offset / 2, TEXT_COLOR);
        put_pixel(buffer, width, height, rect.x + 13 + offset / 2, rect.y + 19 + offset / 2, TEXT_COLOR);
        proof {
            let upper = |px: int, py: int|
                speaker_cone(x + 13, y, offset as int)(px, py) || (px == x + 13 + offset / 2 && py == y + 11 - offset / 2);
            lemma_paint_extend(
                body,
                width as int,
                height as int,
                speaker_cone(x + 13, y, offset as int),
                point(x + 13 + offset / 2, y + 11 - offset / 2),
                upper,
                TEXT_COLOR,
            );
            lemma_paint_extend(
                body,
                width as int,
                height as int,
                upper,
                point(x + 13 + offset / 2, y + 19 + offset / 2),
                speaker_cone(x + 13, y, offset + 1),
                TEXT_COLOR,
            );
        }
        offset = offset + 1;
    }
    let ghost speaker = buffer@;
    if muted {
        proof {
            lemma_paint_nothing(speaker, width as int, height as int, mute_cross(x + 9, y + 7, 0), MUTED_COLOR);
        }
        let mut offset: usize = 0;
        while offset < 15
            invariant
                buffer@.len() == width * height,
                speaker.len() == width * height,
                icon_fits(rect),
                x == rect.x,
                y == rect.y,
                offset <= 15,
                buffer@ == paint(speaker, width as int, mute_cross(x + 9, y + 7, offset as int), MUTED_COLOR),
            decreases 15 - offset,
        {
            put_pixel(buffer, width, height, rect.x + 9 + offset, rect.y + 7 + offset, MUTED_COLOR);
            proof {
                lemma_paint_extend(
                    speaker,
                    width as int,
                    height as int,
                    mute_cross(x + 9, y + 7, offset as int),
                    point(x + 9 + offset, y + 7 + offset),
                    mute_cross(x + 9, y + 7, offset + 1),
                    MUTED_COLOR,
                );
            }
            offset = offset + 1;
        }
    } else {
        proof {
            lemma_paint_nothing(speaker, width as int, height as int, sound_wave(x + 20, y + 11, 0), TEXT_COLOR);
        }
        let mut offset: usize = 0;
        while offset < 8
            invariant
                buffer@.len() == width * height,
                speaker.len() == width * height,
                icon_fits(rect),
                x == rect.x,
                y == rect.y,
                offset <= 8,
                buffer@ == paint(speaker, width as int, sound_wave(x + 20, y + 11, offset as int), TEXT_COLOR),
            decreases 8 - offset,
        {
            put_pixel(buffer, width, height, rect.x + 20 + offset / 3, rect.y + 11 + offset, TEXT_COLOR);
            proof {
                lemma_paint_extend(
                    speaker,
                    width as int,
                    height as int,
                    sound_wave(x + 20, y + 11, offset as int),
                    point(x + 20 + offset / 3, y + 11 + offset),
                    sound_wave(x + 20, y + 11, offset + 1),
                    TEXT_COLOR,
                );
            }
            offset = offset + 1;
        }
    }
}


pub const HINT_BACK: &'static str = "TAB VOLVER";
pub const HINT_MOUSE: &'static str = "TAB MOUSE";

/// The panel in the bottom-right corner, `MARGIN` pixels from both edges,
/// shrunk to the raster when it is smaller.
pub open spec fn spec_panel_rect(width: usize, height: usize) -> Rect {
    Rect {
        x: (if width >= PANEL_WIDTH + MARGIN { width - (PANEL_WIDTH + MARGIN) } else { 0 }) as usize,
        y: (if height >= PANEL_HEIGHT + MARGIN { height - (PANEL_HEIGHT + MARGIN) } else { 0 }) as usize,
        width: if width < PANEL_WIDTH { width } else { PANEL_WIDTH },
        height: if height < PANEL_HEIGHT { height } else { PANEL_HEIGHT },
    }
}

/// Button `index` (0 play/pause, 1 next, 2 mute) of the panel.
pub open spec fn spec_button(width: usize, height: usize, index: int) -> Rect {
    let panel = spec_panel_rect(width, height);
    Rect { x: (panel.x + 52 + 57 * index) as usize, y: (panel.y + 74) as usize, width: 34, height: 30 }
}

fn panel_rect(width: usize, height: usize) -> (panel: Rect)
    ensures
        panel == spec_panel_rect(width, height),
{
    Rect {
        x: width.saturating_sub(PANEL_WIDTH + MARGIN),
        y: height.saturating_sub(PANEL_HEIGHT + MARGIN),
        width: if PANEL_WIDTH < width { PANEL_WIDTH } else { width },
        height: if PANEL_HEIGHT < height { PANEL_HEIGHT } else { height },
    }
}

fn button_rects(width: usize, height: usize) -> (buttons: (Rect, Rect, Rect))
    ensures
        buttons == (spec_button(width, height, 0), spec_button(width, height, 1), spec_button(width, height, 2)),
        buttons.0.fits() && buttons.1.fits() && buttons.2.fits(),
        icon_fits(buttons.0) && icon_fits(buttons.1) && icon_fits(buttons.2),
{
    let panel = panel_rect(width, height);
    let y = panel.y + 74;
    (
        Rect { x: panel.x + 52, y, width: 34, height: 30 },
        Rect { x: panel.x + 109, y, width: 34, height: 30 },
        Rect { x: panel.x + 166, y, width: 34, height: 30 },
    )
}

/// Minutes and seconds of `ms` milliseconds (whole seconds), capped at 99:59.
pub open spec fn clock_time(ms: int) -> (int, int) {
    let seconds = if ms / 1000 < 99 * 60 + 59 { ms / 1000 } else { (99 * 60 + 59) as int };
    (seconds / 60, seconds % 60)
}

/// `n` (below 100) as two decimal digits.
pub open spec fn two_digits(n: int) -> Seq<u8> {
    seq![(48 + n / 10) as u8, (48 + n % 10) as u8]
}

/// "MM:SS / MM:SS" for the elapsed and the total time.
pub open spec fn time_label(elapsed_ms: int, total_ms: int) -> Seq<u8> {
    let (elapsed_minutes, elapsed_seconds) = clock_time(elapsed_ms);
    let (total_minutes, total_seconds) = clock_time(total_ms);
    two_digits(elapsed_minutes) + seq![58u8] + two_digits(elapsed_seconds) + seq![32u8, 47, 32]
        + two_digits(total_minutes) + seq![58u8] + two_digits(total_seconds)
}

/// The whole seconds of `ms` shown as "MM:SS" starting at `at` in `label`:
/// two digits of minutes, a colon, two digits of seconds below 60.
pub open spec fn shows_clock(label: Seq<u8>, at: int, ms: int) -> bool {
    let digit = |k: int| label[at + k] - 48;
    let seconds = if ms / 1000 < 5999 { ms / 1000 } else { 5999 };
    &&& forall|k: int| 0 <= k < 5 && k != 2 ==> 48 <= #[trigger] label[at + k] <= 57
    &&& label[at + 2] == 58
    &&& 10 * digit(3) + digit(4) < 60
    &&& 60 * (10 * digit(0) + digit(1)) + 10 * digit(3) + digit(4) == seconds
}

/// The time label reads "MM:SS / MM:SS": the elapsed and then the total time,
/// each in whole seconds and capped at 99:59.
pub proof fn lemma_time_label_reads(elapsed_ms: int, total_ms: int)
    requires
        elapsed_ms >= 0,
        total_ms >= 0,
    ensures
        time_label(elapsed_ms, total_ms).len() == 13,
        shows_clock(time_label(elapsed_ms, total_ms), 0, elapsed_ms),
        time_label(elapsed_ms, total_ms).subrange(5, 8) == seq![32u8, 47, 32],
        shows_clock(time_label(elapsed_ms, total_ms), 8, total_ms),
{
    let label = time_label(elapsed_ms, total_ms);
    assert(label.subrange(5, 8) =~= seq![32u8, 47, 32]);
    assert(forall|k: int| 0 <= k < 5 && k != 2 ==> 48 <= #[trigger] label[0 + k] <= 57);
    assert(forall|k: int| 0 <= k < 5 && k != 2 ==> 48 <= #[trigger] label[8 + k] <= 57);
}

fn minutes_seconds(ms: u64) -> (time: (u8, u8))
    ensures
        (time.0 as int, time.1 as int) == clock_time(ms as int),
{
    let seconds = if ms / 1000 < 99 * 60 + 59 { ms / 1000 } else { 99 * 60 + 59 };
    ((seconds / 60) as u8, (seconds % 60) as u8)
}

pub fn format_times(elapsed_ms: u64, total_ms: u64) -> (label: [u8; 13])
    ensures
        label@ == time_label(elapsed_ms as int, total_ms as int),
{
    let (elapsed_minutes, elapsed_seconds) = minutes_seconds(elapsed_ms);
    let (total_minutes, total_seconds) = minutes_seconds(total_ms);
    let label = [
        48 + elapsed_minutes / 10,
        48 + elapsed_minutes % 10,
        58,
        48 + elapsed_seconds / 10,
        48 + elapsed_seconds % 10,
        32,
        47,
        32,
        48 + total_minutes / 10,
        48 + total_minutes % 10,
        58,
        48 + total_seconds / 10,
        48 + total_seconds % 10,
    ];
    assert(label@ =~= time_label(elapsed_ms as int, total_ms as int));
    label
}

/// How many of `span` pixels show the elapsed share of the track: the share
/// of the total (at most all of it), rounded to the nearest pixel (halves up);
/// none for a track of unknown length.
pub open spec fn progress_fill(span: int, elapsed_ms: int, total_ms: int) -> int {
    if total_ms == 0 {
        0
    } else {
        let elapsed = if elapsed_ms < total_ms { elapsed_ms } else { total_ms };
        (2 * span * elapsed + total_ms) / (2 * total_ms)
    }
}

/// Rounding `span * elapsed / total` half up, from its quotient and remainder.
proof fn lemma_rounded_share(span: int, elapsed: int, total: int, whole: int, rest: int)
    requires
        total > 0,
        span * elapsed == whole * total + rest,
        0 <= rest < total,
    ensures
        (2 * span * elapsed + total) / (2 * total) == whole + if rest >= total - rest { 1int } else { 0int },
{
    let k = if rest >= total - rest { 1int } else { 0int };
    assert(2 * span * elapsed == 2 * (span * elapsed)) by (nonlinear_arith);
    assert((whole + k) * (2 * total) == 2 * whole * total + 2 * k * total) by (nonlinear_arith);
    assert(2 * (whole * total) == 2 * whole * total) by (nonlinear_arith);
    assert(2 * k * total == 2 * total * k) by (nonlinear_arith);
    vstd::arithmetic::div_mod::lemma_fundamental_div_mod_converse(
        2 * span * elapsed + total,
        2 * total,
        whole + k,
        2 * rest + total - 2 * total * k,
    );
}

/// The filled part of the progress bar is never longer than the bar.
proof fn lemma_progress_fill_bound(span: int, elapsed_ms: int, total_ms: int)
    requires
        span >= 0,
        elapsed_ms >= 0,
        total_ms >= 0,
    ensures
        0 <= progress_fill(span, elapsed_ms, total_ms) <= span,
{
    if total_ms > 0 {
        let elapsed = if elapsed_ms < total_ms { elapsed_ms } else { total_ms };
        assert(0 <= 2 * span * elapsed + total_ms <= span * (2 * total_ms) + total_ms) by (nonlinear_arith)
            requires
                0 <= elapsed <= total_ms,
                span >= 0,
        ;
        vstd::arithmetic::div_mod::lemma_div_pos_is_pos(2 * span * elapsed + total_ms, 2 * total_ms);
        vstd::arithmetic::div_mod::lemma_fundamental_div_mod(2 * span * elapsed + total_ms, 2 * total_ms);
        vstd::arithmetic::div_mod::lemma_mod_bound(2 * span * elapsed + total_ms, 2 * total_ms);
        let q = (2 * span * elapsed + total_ms) / (2 * total_ms);
        assert(q <= span) by (nonlinear_arith)
            requires
                2 * span * elapsed + total_ms == (2 * total_ms) * q + (2 * span * elapsed + total_ms) % (2 * total_ms),
                0 <= (2 * span * elapsed + total_ms) % (2 * total_ms),
                2 * span * elapsed + total_ms <= span * (2 * total_ms) + total_ms,
                total_ms > 0,
        ;
    }
}

/// The bar is filled in proportion to the time played: `filled / span` is the
/// played share `elapsed / total` (the elapsed time taken at most the total)
/// to the nearest pixel; a track of unknown length shows an empty bar.
pub proof fn lemma_progress_is_proportional(span: int, elapsed_ms: int, total_ms: int)
    requires
        span >= 0,
        elapsed_ms >= 0,
        total_ms >= 0,
    ensures
        total_ms == 0 ==> progress_fill(span, elapsed_ms, total_ms) == 0,
        total_ms > 0 ==> {
            let filled = progress_fill(span, elapsed_ms, total_ms);
            let played = if elapsed_ms < total_ms { elapsed_ms } else { total_ms };
            &&& 2 * (filled * total_ms - span * played) <= total_ms
            &&& 2 * (span * played - filled * total_ms) < total_ms
        },
{
    if total_ms > 0 {
        let played = if elapsed_ms < total_ms { elapsed_ms } else { total_ms };
        let n = 2 * span * played + total_ms;
        let q = n / (2 * total_ms);
        vstd::arithmetic::div_mod::lemma_fundamental_div_mod(n, 2 * total_ms);
        vstd::arithmetic::div_mod::lemma_mod_bound(n, 2 * total_ms);
        assert((2 * total_ms) * q == 2 * (q * total_ms)) by (nonlinear_arith);
        assert(2 * span * played == 2 * (span * played)) by (nonlinear_arith);
    }
}

pub fn progress_width(span: usize, elapsed_ms: u64, total_ms: u64) -> (filled: usize)
    ensures
        filled == progress_fill(span as int, elapsed_ms as int, total_ms as int),
        filled <= span,
{
    if total_ms == 0 {
        return 0;
    }
    let elapsed = if elapsed_ms < total_ms { elapsed_ms } else { total_ms } as u128;
    let total = total_ms as u128;
    let span_wide = span as u128;
    assert(span_wide * elapsed <= span_wide * total) by (nonlinear_arith)
        requires
            elapsed <= total,
    ;
    assert(span_wide * total <= 0xFFFF_FFFF_FFFF_FFFF * 0xFFFF_FFFF_FFFF_FFFF) by (nonlinear_arith)
        requires
            span_wide <= 0xFFFF_FFFF_FFFF_FFFF,
            total <= 0xFFFF_FFFF_FFFF_FFFF,
    ;
    let share = span_wide * elapsed;
    let whole = share / total;
    let rest = share % total;
    let round_up = rest >= total - rest;
    proof {
        vstd::arithmetic::div_mod::lemma_fundamental_div_mod(share as int, total as int);
        vstd::arithmetic::div_mod::lemma_mod_bound(share as int, total as int);
        lemma_rounded_share(span as int, elapsed as int, total as int, whole as int, rest as int);
        assert(whole <= span) by (nonlinear_arith)
            requires
                share == whole * total + rest,
                0 <= rest,
                share <= span * total,
                total > 0,
        ;
        assert(whole == span ==> !round_up) by (nonlinear_arith)
            requires
                round_up == (rest >= total - rest),
                share == whole * total + rest,
                0 <= rest < total,
                share <= span * total,
                total > 0,
        ;
    }
    if round_up {
        (whole + 1) as usize
    } else {
        whole as usize
    }
}

/// Whether the pointer (when there is one) is over `rect`.
pub open spec fn hovered(mouse: Option<(usize, usize)>, rect: Rect) -> bool {
    match mouse {
        Some((x, y)) => (rect.area())(x as int, y as int),
        None => false,
    }
}

/// The overlay drawn over `buf`.
pub open spec fn overlay_drawn(
    buf: Seq<u32>,
    width: usize,
    height: usize,
    snapshot: MusicSnapshot,
    controls_enabled: bool,
    mouse: Option<(usize, usize)>,
) -> Seq<u32> {
    let w = width as int;
    let panel = spec_panel_rect(width, height);
    let (px, py, pw, ph) = (panel.x as int, panel.y as int, panel.width as int, panel.height as int);
    let inner = Rect { x: (px + 3) as usize, y: (py + 3) as usize, width: (pw - 6) as usize, height: (ph - 6) as usize };
    let track = Rect { x: (px + 12) as usize, y: (py + 37) as usize, width: (pw - 24) as usize, height: 10 };
    let progress = Rect {
        x: (px + 13) as usize,
        y: (py + 38) as usize,
        width: progress_fill(pw - 26, snapshot.elapsed_ms as int, snapshot.duration_ms as int) as usize,
        height: 8,
    };
    let pointer = if controls_enabled { mouse } else { None };
    let (play, next, mute) = (spec_button(width, height, 0), spec_button(width, height, 1), spec_button(width, height, 2));
    let hint = if controls_enabled { HINT_BACK } else { HINT_MOUSE };
    let b1 = paint(buf, w, panel.area(), PANEL_COLOR);
    let b2 = paint(b1, w, panel.outline(), BORDER_COLOR);
    let b3 = paint(b2, w, inner.outline(), INNER_BORDER_COLOR);
    let b4 = paint(
        b3,
        w,
        text_pixels(text_glyphs(snapshot.track_name.spec_bytes()), px + 12, py + 12, 2),
        if snapshot.available { TEXT_COLOR } else { MUTED_COLOR },
    );
    let b5 = paint(b4, w, track.area(), TRACK_COLOR);
    let b6 = paint(b5, w, track.outline(), INNER_BORDER_COLOR);
    let b7 = paint(b6, w, progress.area(), PROGRESS_COLOR);
    let b8 = paint(
        b7,
        w,
        text_pixels(
            text_glyphs(time_label(snapshot.elapsed_ms as int, snapshot.duration_ms as int)),
            px + (pw - 77) / 2,
            py + 54,
            1,
        ),
        SECONDARY_TEXT_COLOR,
    );
    let b9 = button_drawn(b8, w, play, hovered(pointer, play));
    let b10 = button_drawn(b9, w, next, hovered(pointer, next));
    let b11 = button_drawn(b10, w, mute, hovered(pointer, mute));
    let b12 = play_pause_drawn(b11, w, play, snapshot.paused);
    let b13 = next_drawn(b12, w, next);
    let b14 = mute_drawn(b13, w, mute, snapshot.muted);
    paint(b14, w, text_pixels(text_glyphs(hint.spec_bytes()), px + 88, py + 112, 1), SECONDARY_TEXT_COLOR)
}

/// The play/pause button shows the action it offers: while the music is
/// paused its play triangle is lit (at 14 pixels right and down from the
/// button's corner) and the pause bars are not (the pixel 20 right, 14 down);
/// while it plays, the bars are lit and the triangle is not.
pub proof fn lemma_play_button_shows_action(
    buf: Seq<u32>,
    width: usize,
    height: usize,
    snapshot: MusicSnapshot,
    controls_enabled: bool,
    mouse: Option<(usize, usize)>,
)
    requires
        buf.len() == width * height,
        width >= PANEL_WIDTH + MARGIN,
        height >= PANEL_HEIGHT + MARGIN,
    ensures
        (overlay_drawn(buf, width, height, snapshot, controls_enabled, mouse)[(spec_button(width, height, 0).y + 14)
            * width + spec_button(width, height, 0).x + 14] == TEXT_COLOR) == snapshot.paused,
        (overlay_drawn(buf, width, height, snapshot, controls_enabled, mouse)[(spec_button(width, height, 0).y + 14)
            * width + spec_button(width, height, 0).x + 20] == TEXT_COLOR) == !snapshot.paused,
{
    let w = width as int;
    let panel = spec_panel_rect(width, height);
    let (px, py, pw, ph) = (panel.x as int, panel.y as int, panel.width as int, panel.height as int);
    let inner = Rect { x: (px + 3) as usize, y: (py + 3) as usize, width: (pw - 6) as usize, height: (ph - 6) as usize };
    let track = Rect { x: (px + 12) as usize, y: (py + 37) as usize, width: (pw - 24) as usize, height: 10 };
    let progress = Rect {
        x: (px + 13) as usize,
        y: (py + 38) as usize,
        width: progress_fill(pw - 26, snapshot.elapsed_ms as int, snapshot.duration_ms as int) as usize,
        height: 8,
    };
    let pointer = if controls_enabled { mouse } else { None };
    let (play, next, mute) = (spec_button(width, height, 0), spec_button(width, height, 1), spec_button(width, height, 2));
    let hint = if controls_enabled { HINT_BACK } else { HINT_MOUSE };
    let name_text = text_pixels(text_glyphs(snapshot.track_name.spec_bytes()), px + 12, py + 12, 2);
    let name_color = if snapshot.available { TEXT_COLOR } else { MUTED_COLOR };
    let times = time_label(snapshot.elapsed_ms as int, snapshot.duration_ms as int);
    let time_text = text_pixels(text_glyphs(times), px + (pw - 77) / 2, py + 54, 1);
    let hint_text = text_pixels(text_glyphs(hint.spec_bytes()), px + 88, py + 112, 1);
    let b1 = paint(buf, w, panel.area(), PANEL_COLOR);
    let b2 = paint(b1, w, panel.outline(), BORDER_COLOR);
    let b3 = paint(b2, w, inner.outline(), INNER_BORDER_COLOR);
    let b4 = paint(b3, w, name_text, name_color);
    let b5 = paint(b4, w, track.area(), TRACK_COLOR);
    let b6 = paint(b5, w, track.outline(), INNER_BORDER_COLOR);
    let b7 = paint(b6, w, progress.area(), PROGRESS_COLOR);
    let b8 = paint(b7, w, time_text, SECONDARY_TEXT_COLOR);
    let b9 = button_drawn(b8, w, play, hovered(pointer, play));
    let b10 = button_drawn(b9, w, next, hovered(pointer, next));
    let b11 = button_drawn(b10, w, mute, hovered(pointer, mute));
    let b12 = play_pause_drawn(b11, w, play, snapshot.paused);
    let b13 = next_drawn(b12, w, next);
    let b14 = mute_drawn(b13, w, mute, snapshot.muted);
    let b15 = paint(b14, w, hint_text, SECONDARY_TEXT_COLOR);
    assert(overlay_drawn(buf, width, height, snapshot, controls_enabled, mouse) == b15);
    let (bx, by) = (play.x as int, play.y as int);
    crate::canvas::lemma_index_of_pixel(w, bx + 14, by + 14);
    crate::canvas::lemma_index_of_pixel(w, bx + 20, by + 14);
    let lit = (by + 14) * w + bx + 14;
    let bar = (by + 14) * w + bx + 20;
    assert((by + 15) * w <= (height as int) * w) by (nonlinear_arith)
        requires
            by + 15 <= height,
            w >= 0,
    ;
    assert((by + 15) * w == (by + 14) * w + w) by (nonlinear_arith);
    assert((height as int) * w == w * (height as int)) by (nonlinear_arith);
    lemma_hint_lengths();
    let hx = pixel_x(w, lit);
    if hint_text(hx, by + 14) {
        crate::bitmap_font::lemma_text_bounds(hint.spec_bytes(), px + 88, py + 112, 1, hx, by + 14);
    }
    if hint_text(bx + 20, by + 14) {
        crate::bitmap_font::lemma_text_bounds(hint.spec_bytes(), px + 88, py + 112, 1, bx + 20, by + 14);
    }
    assert(b11[lit] != TEXT_COLOR && b11[bar] != TEXT_COLOR);
    assert(b15[lit] == b12[lit] && b15[bar] == b12[bar]);
}

/// The overlay touches its panel and nothing else: on a screen that holds the
/// whole panel, with a track name of at most 20 characters, every pixel outside
/// the panel keeps its colour, and every pixel inside it gets a colour that does
/// not depend on what the buffer held before.
pub proof fn lemma_overlay_stays_in_panel(
    buf: Seq<u32>,
    other: Seq<u32>,
    width: usize,
    height: usize,
    snapshot: MusicSnapshot,
    controls_enabled: bool,
    mouse: Option<(usize, usize)>,
    i: int,
)
    requires
        buf.len() == width * height,
        other.len() == buf.len(),
        width >= PANEL_WIDTH + MARGIN,
        height >= PANEL_HEIGHT + MARGIN,
        snapshot.track_name.spec_bytes().len() <= 20,
        0 <= i < buf.len(),
    ensures
        !(spec_panel_rect(width, height).area())(pixel_x(width as int, i), pixel_y(width as int, i)) ==> overlay_drawn(
            buf,
            width,
            height,
            snapshot,
            controls_enabled,
            mouse,
        )[i] == buf[i],
        (spec_panel_rect(width, height).area())(pixel_x(width as int, i), pixel_y(width as int, i)) ==> overlay_drawn(
            buf,
            width,
            height,
            snapshot,
            controls_enabled,
            mouse,
        )[i] == overlay_drawn(other, width, height, snapshot, controls_enabled, mouse)[i],
{
    let w = width as int;
    let panel = spec_panel_rect(width, height);
    let (px, py, pw, ph) = (panel.x as int, panel.y as int, panel.width as int, panel.height as int);
    let inner = Rect { x: (px + 3) as usize, y: (py + 3) as usize, width: (pw - 6) as usize, height: (ph - 6) as usize };
    let track = Rect { x: (px + 12) as usize, y: (py + 37) as usize, width: (pw - 24) as usize, height: 10 };
    let progress = Rect {
        x: (px + 13) as usize,
        y: (py + 38) as usize,
        width: progress_fill(pw - 26, snapshot.elapsed_ms as int, snapshot.duration_ms as int) as usize,
        height: 8,
    };
    let pointer = if controls_enabled { mouse } else { None };
    let (play, next, mute) = (spec_button(width, height, 0), spec_button(width, height, 1), spec_button(width, height, 2));
    let hint = if controls_enabled { HINT_BACK } else { HINT_MOUSE };
    let name_text = text_pixels(text_glyphs(snapshot.track_name.spec_bytes()), px + 12, py + 12, 2);
    let name_color = if snapshot.available { TEXT_COLOR } else { MUTED_COLOR };
    let times = time_label(snapshot.elapsed_ms as int, snapshot.duration_ms as int);
    let time_text = text_pixels(text_glyphs(times), px + (pw - 77) / 2, py + 54, 1);
    let hint_text = text_pixels(text_glyphs(hint.spec_bytes()), px + 88, py + 112, 1);
    let b1 = paint(buf, w, panel.area(), PANEL_COLOR);
    let b2 = paint(b1, w, panel.outline(), BORDER_COLOR);
    let b3 = paint(b2, w, inner.outline(), INNER_BORDER_COLOR);
    let b4 = paint(b3, w, name_text, name_color);
    let b5 = paint(b4, w, track.area(), TRACK_COLOR);
    let b6 = paint(b5, w, track.outline(), INNER_BORDER_COLOR);
    let b7 = paint(b6, w, progress.area(), PROGRESS_COLOR);
    let b8 = paint(b7, w, time_text, SECONDARY_TEXT_COLOR);
    let b9 = button_drawn(b8, w, play, hovered(pointer, play));
    let b10 = button_drawn(b9, w, next, hovered(pointer, next));
    let b11 = button_drawn(b10, w, mute, hovered(pointer, mute));
    let b12 = play_pause_drawn(b11, w, play, snapshot.paused);
    let b13 = next_drawn(b12, w, next);
    let b14 = mute_drawn(b13, w, mute, snapshot.muted);
    let b15 = paint(b14, w, hint_text, SECONDARY_TEXT_COLOR);
    let c1 = paint(other, w, panel.area(), PANEL_COLOR);
    let c2 = paint(c1, w, panel.outline(), BORDER_COLOR);
    let c3 = paint(c2, w, inner.outline(), INNER_BORDER_COLOR);
    let c4 = paint(c3, w, name_text, name_color);
    let c5 = paint(c4, w, track.area(), TRACK_COLOR);
    let c6 = paint(c5, w, track.outline(), INNER_BORDER_COLOR);
    let c7 = paint(c6, w, progress.area(), PROGRESS_COLOR);
    let c8 = paint(c7, w, time_text, SECONDARY_TEXT_COLOR);
    let c9 = button_drawn(c8, w, play, hovered(pointer, play));
    let c10 = button_drawn(c9, w, next, hovered(pointer, next));
    let c11 = button_drawn(c10, w, mute, hovered(pointer, mute));
    let c12 = play_pause_drawn(c11, w, play, snapshot.paused);
    let c13 = next_drawn(c12, w, next);
    let c14 = mute_drawn(c13, w, mute, snapshot.muted);
    let c15 = paint(c14, w, hint_text, SECONDARY_TEXT_COLOR);
    let (x, y) = (pixel_x(w, i), pixel_y(w, i));
    assert(overlay_drawn(buf, width, height, snapshot, controls_enabled, mouse) == b15);
    assert(overlay_drawn(other, width, height, snapshot, controls_enabled, mouse) == c15);
    if !(panel.area())(x, y) {
        lemma_hint_lengths();
        if name_text(x, y) {
            crate::bitmap_font::lemma_text_bounds(snapshot.track_name.spec_bytes(), px + 12, py + 12, 2, x, y);
        }
        if time_text(x, y) {
            crate::bitmap_font::lemma_text_bounds(times, px + (pw - 77) / 2, py + 54, 1, x, y);
        }
        if hint_text(x, y) {
            crate::bitmap_font::lemma_text_bounds(hint.spec_bytes(), px + 88, py + 112, 1, x, y);
        }
        lemma_progress_fill_bound(pw - 26, snapshot.elapsed_ms as int, snapshot.duration_ms as int);
        assert(b1[i] == buf[i]);
        assert(b4[i] == buf[i]);
        assert(b8[i] == buf[i]);
        assert(b11[i] == buf[i]);
        assert(b14[i] == buf[i]);
    } else {
        assert(b1[i] == c1[i]);
        assert(b8[i] == c8[i]);
        assert(b11[i] == c11[i]);
        assert(b14[i] == c14[i]);
    }
}

/// A raster of `width * height` pixels that fits in memory and holds the panel.
proof fn lemma_panel_raster(width: int, height: int)
    requires
        width * height <= usize::MAX,
        width >= 77,
        height >= 6,
    ensures
        width <= usize::MAX / 6,
        height <= usize::MAX / 77,
{
    assert(width * 6 <= width * height) by (nonlinear_arith)
        requires
            width >= 77,
            height >= 6,
    ;
    assert(77 * height <= width * height) by (nonlinear_arith)
        requires
            width >= 77,
            height >= 6,
    ;
}

/// The byte lengths of the hints.
proof fn lemma_hint_lengths()
    ensures
        HINT_BACK.spec_bytes().len() == 10,
        HINT_MOUSE.spec_bytes().len() == 9,
{
    reveal_strlit("TAB VOLVER");
    reveal_strlit("TAB MOUSE");
    vstd::string::is_ascii_spec_bytes(HINT_BACK);
    vstd::string::is_ascii_spec_bytes(HINT_MOUSE);
}

/// A control of the music player.
#[derive(Clone, Copy, Debug, PartialEq, Eq)]
pub enum MusicControl {
    TogglePause,
    Next,
    ToggleMute,
}

/// The control under `(x, y)`, if any.
pub open spec fn control_at(width: usize, height: usize, x: usize, y: usize) -> Option<MusicControl> {
    if (spec_button(width, height, 0).area())(x as int, y as int) {
        Some(MusicControl::TogglePause)
    } else if (spec_button(width, height, 1).area())(x as int, y as int) {
        Some(MusicControl::Next)
    } else if (spec_button(width, height, 2).area())(x as int, y as int) {
        Some(MusicControl::ToggleMute)
    } else {
        None
    }
}

/// The mouse state that the overlay remembers between frames.
pub struct MusicUi {
    pub mouse_was_down: bool,
    pub mouse_position: Option<(usize, usize)>,
}

impl MusicUi {
    pub fn new() -> (ui: Self)
        ensures
            !ui.mouse_was_down,
            ui.mouse_position == None::<(usize, usize)>,
    {
        Self { mouse_was_down: false, mouse_position: None }
    }

    /// Takes this frame's left button and pointer position. A click is the
    /// button going down; when controls are enabled, a click on a button
    /// returns that button's control.
    pub fn handle_mouse(
        &mut self,
        mouse_down: bool,
        mouse_position: Option<(usize, usize)>,
        controls_enabled: bool,
        screen_width: usize,
        screen_height: usize,
    ) -> (control: Option<MusicControl>)
        ensures
            final(self).mouse_was_down == mouse_down,
            final(self).mouse_position == mouse_position,
            control == if mouse_down && !old(self).mouse_was_down && controls_enabled {
                match mouse_position {
                    Some((x, y)) => control_at(screen_width, screen_height, x, y),
                    None => None,
                }
            } else {
                None
            },
    {
        let clicked = mouse_down && !self.mouse_was_down;
        self.mouse_was_down = mouse_down;
        self.mouse_position = mouse_position;

        if !clicked || !controls_enabled {
            return None;
        }

        let (mouse_x, mouse_y) = match self.mouse_position {
            Some(position) => position,
            None => return None,
        };
        let (play_button, next_button, mute_button) = button_rects(screen_width, screen_height);

        if play_button.contains(mouse_x, mouse_y) {
            Some(MusicControl::TogglePause)
        } else if next_button.contains(mouse_x, mouse_y) {
            Some(MusicControl::Next)
        } else if mute_button.contains(mouse_x, mouse_y) {
            Some(MusicControl::ToggleMute)
        } else {
            None
        }
    }

    /// Draws the player overlay: panel, track name, progress bar, times, the
    /// three buttons (highlighted under the pointer when controls are enabled)
    /// and the hint. Nothing is drawn unless the buffer holds exactly
    /// `width * height` pixels and neither is 0.
    #[verifier::rlimit(40)]
    pub fn draw(
        &self,
        buffer: &mut [u32],
        width: usize,
        height: usize,
        snapshot: MusicSnapshot,
        controls_enabled: bool,
    )
        requires
            old(buffer)@.len() == width * height && width > 0 && height > 0 ==> (width >= 77 && height >= 6
                && snapshot.track_name.spec_bytes().len() <= usize::MAX / 16),
        ensures
            final(buffer)@ == if old(buffer)@.len() == width * height && width > 0 && height > 0 {
                overlay_drawn(old(buffer)@, width, height, snapshot, controls_enabled, self.mouse_position)
            } else {
                old(buffer)@
            },
    {
        let length = buffer.len();
        let fits = match width.checked_mul(height) {
            Some(pixels) => pixels == length,
            None => false,
        };
        if !fits || width == 0 || height == 0 {
            return;
        }
        proof {
            lemma_panel_raster(width as int, height as int);
            lemma_hint_lengths();
        }

        let panel = panel_rect(width, height);
        fill_rect(buffer, width, height, panel, PANEL_COLOR);
        stroke_rect(buffer, width, height, panel, BORDER_COLOR);
        stroke_rect(
            buffer,
            width,
            height,
            Rect { x: panel.x + 3, y: panel.y + 3, width: panel.width - 6, height: panel.height - 6 },
            INNER_BORDER_COLOR,
        );

        let name = snapshot.track_name.as_bytes();
        draw_text(
            buffer,
            width,
            height,
            panel.x + 12,
            panel.y + 12,
            name,
            2,
            if snapshot.available { TEXT_COLOR } else { MUTED_COLOR },
        );

        let progress_track = Rect { x: panel.x + 12, y: panel.y + 37, width: panel.width - 24, height: 10 };
        fill_rect(buffer, width, height, progress_track, TRACK_COLOR);
        stroke_rect(buffer, width, height, progress_track, INNER_BORDER_COLOR);
        let filled = progress_width(progress_track.width - 2, snapshot.elapsed_ms, snapshot.duration_ms);
        fill_rect(
            buffer,
            width,
            height,
            Rect {
                x: progress_track.x + 1,
                y: progress_track.y + 1,
                width: filled,
                height: progress_track.height - 2,
            },
            PROGRESS_COLOR,
        );

        let time = format_times(snapshot.elapsed_ms, snapshot.duration_ms);
        let time_width = 13 * (GLYPH_WIDTH + 1) - 1;
        draw_text(
            buffer,
            width,
            height,
            panel.x + (panel.width - time_width) / 2,
            panel.y + 54,
            &time,
            1,
            SECONDARY_TEXT_COLOR,
        );

        let mouse = if controls_enabled { self.mouse_position } else { None };
        let (play_button, next_button, mute_button) = button_rects(width, height);
        let play_hovered = match mouse {
            Some((x, y)) => play_button.contains(x, y),
            None => false,
        };
        let next_hovered = match mouse {
            Some((x, y)) => next_button.contains(x, y),
            None => false,
        };
        let mute_hovered = match mouse {
            Some((x, y)) => mute_button.contains(x, y),
            None => false,
        };
        draw_button(buffer, width, height, play_button, play_hovered);
        draw_button(buffer, width, height, next_button, next_hovered);
        draw_button(buffer, width, height, mute_button, mute_hovered);
        draw_play_pause_icon(buffer, width, height, play_button, snapshot.paused);
        draw_next_icon(buffer, width, height, next_button);
        draw_mute_icon(buffer, width, height, mute_button, snapshot.muted);

        let hint = if controls_enabled { HINT_BACK } else { HINT_MOUSE };
        draw_text(buffer, width, height, panel.x + 88, panel.y + 112, hint.as_bytes(), 1, SECONDARY_TEXT_COLOR);
    }
}

} // verus!
