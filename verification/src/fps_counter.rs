//! On-screen frames-per-second counter.
use crate::bitmap_font::{
    draw_glyph as draw_font_glyph, glyph_advance, glyph_pixels, glyph_rows, lemma_text_step, text_glyphs,
    text_pixels, GLYPH_HEIGHT, GLYPH_WIDTH,
};
use crate::canvas::{lemma_paint_nothing, paint, rect_area};
use crate::music_ui::{fill_rect, Rect};
use std::time::Instant;
use vstd::prelude::*;

verus! {

/// Length of one measuring window, in nanoseconds (half a second).
pub const SAMPLE_INTERVAL_NANOS: u128 = 500_000_000;
pub const GLYPH_SCALE: usize = 2;
pub const BACKGROUND_COLOR: u32 = 0x101318;
pub const TEXT_COLOR: u32 = 0xF4F4E8;

#[verifier::external_type_specification]
#[verifier::external_body]
pub struct ExInstant(Instant);

/// `Instant::now`: the current reading of the monotonic clock.
/// Nothing is stated of the value, which depends on the time of the call.
#[verifier::external_body]
fn clock_now() -> Instant {
    Instant::now()
}

/// `Instant::elapsed`, converted to whole nanoseconds with `Duration::as_nanos`.
/// Nothing is stated of the value, which depends on the time of the call.
#[verifier::external_body]
fn nanos_since(start: &Instant) -> u128 {
    start.elapsed().as_nanos()
}

/// Counts rendered frames and shows the rate measured over the last window.
pub struct FpsCounter {
    /// When the current measuring window opened.
    pub sample_started: Instant,
    /// Frames counted in the current window.
    pub frames: u32,
    /// The rate on display, in frames per second.
    pub displayed_fps: u32,
}

/// `frames` over `nanos` nanoseconds, in frames per second rounded to the
/// nearest integer (halves up), capped at `u32::MAX`.
pub open spec fn frames_per_second(frames: int, nanos: int) -> int {
    let rate = (frames * 1_000_000_000 + nanos / 2) / nanos;
    if rate > u32::MAX { u32::MAX as int } else { rate }
}

/// The rate shown is the number of frames per second rounded to the nearest
/// integer: when `frames` over `nanos` nanoseconds is at most `u32::MAX` frames
/// per second, the rate times the window differs from `frames * 10^9` by at most
/// half a window; above that, the rate shown is `u32::MAX`.
pub proof fn lemma_rate_is_rounded(frames: int, nanos: int)
    requires
        frames >= 0,
        nanos > 0,
    ensures
        frames * 1_000_000_000 <= u32::MAX * nanos ==> {
            let rate = frames_per_second(frames, nanos);
            &&& 2 * (rate * nanos - frames * 1_000_000_000) <= nanos
            &&& 2 * (frames * 1_000_000_000 - rate * nanos) <= nanos
        },
        frames * 1_000_000_000 >= (u32::MAX + 1) * nanos ==> frames_per_second(frames, nanos) == u32::MAX,
{
    let total = frames * 1_000_000_000;
    let numerator = total + nanos / 2;
    let rate = numerator / nanos;
    vstd::arithmetic::div_mod::lemma_fundamental_div_mod(numerator, nanos);
    vstd::arithmetic::div_mod::lemma_mod_bound(numerator, nanos);
    vstd::arithmetic::div_mod::lemma_fundamental_div_mod(nanos, 2);
    vstd::arithmetic::div_mod::lemma_mod_bound(nanos, 2);
    assert(rate * nanos == nanos * rate) by (nonlinear_arith);
    if total <= u32::MAX * nanos {
        assert(rate <= u32::MAX) by (nonlinear_arith)
            requires
                numerator == nanos * rate + numerator % nanos,
                0 <= numerator % nanos,
                numerator <= u32::MAX * nanos + nanos / 2,
                nanos / 2 < nanos,
                nanos > 0,
        ;
    }
    if total >= (u32::MAX + 1) * nanos {
        assert(rate >= u32::MAX + 1) by (nonlinear_arith)
            requires
                numerator == nanos * rate + numerator % nanos,
                numerator % nanos < nanos,
                numerator >= (u32::MAX + 1) * nanos,
                nanos > 0,
        ;
    }
}

/// The frame count after one more frame (the count saturates).
pub open spec fn one_more_frame(frames: int) -> int {
    if frames < u32::MAX { frames + 1 } else { u32::MAX as int }
}

impl FpsCounter {
    /// Frames counted in the current window.
    pub open spec fn frames_in_window(&self) -> int {
        self.frames as int
    }

    /// The rate on display.
    pub open spec fn shown_fps(&self) -> int {
        self.displayed_fps as int
    }

    /// When the current window opened.
    pub open spec fn window_start(&self) -> Instant {
        self.sample_started
    }

    pub fn new() -> (counter: Self)
        ensures
            counter.frames_in_window() == 0,
            counter.shown_fps() == 0,
    {
        Self { sample_started: clock_now(), frames: 0, displayed_fps: 0 }
    }

    /// Counts one frame of a window that has lasted `elapsed_nanos`. When the
    /// window has reached half a second, the rate is put on display, the count
    /// starts again and `true` tells the caller to open a new window.
    pub fn count_frame(&mut self, elapsed_nanos: u128) -> (window_closed: bool)
        ensures
            window_closed == (elapsed_nanos >= SAMPLE_INTERVAL_NANOS),
            window_closed ==> final(self).frames_in_window() == 0 && final(self).shown_fps()
                == frames_per_second(
                one_more_frame(old(self).frames_in_window()),
                elapsed_nanos as int,
            ),
            !window_closed ==> final(self).frames_in_window() == one_more_frame(
                old(self).frames_in_window(),
            ) && final(self).shown_fps() == old(self).shown_fps(),
            final(self).window_start() == old(self).window_start(),
    {
        self.frames = self.frames.saturating_add(1);
        if elapsed_nanos >= SAMPLE_INTERVAL_NANOS {
            let frames = self.frames as u128;
            let rate = (frames * 1_000_000_000 + elapsed_nanos / 2) / elapsed_nanos;
            self.displayed_fps = if rate > u32::MAX as u128 { u32::MAX } else { rate as u32 };
            self.frames = 0;
            true
        } else {
            false
        }
    }

    /// Records that a frame was rendered; every half second the measured rate
    /// replaces the one on display and a new window opens at the current time.
    /// While the window is still open, the frame is counted and the window's
    /// start stays as it was.
    pub fn frame_rendered(&mut self)
        ensures
            final(self).frames_in_window() == 0 || (final(self).frames_in_window() == one_more_frame(
                old(self).frames_in_window(),
            ) && final(self).shown_fps() == old(self).shown_fps() && final(self).window_start() == old(
                self,
            ).window_start()),
            final(self).frames_in_window() == 0 ==> exists|nanos: int|
                nanos >= SAMPLE_INTERVAL_NANOS && final(self).shown_fps() == #[trigger] frames_per_second(
                    one_more_frame(old(self).frames_in_window()),
                    nanos,
                ),
    {
        let elapsed = nanos_since(&self.sample_started);
        if self.count_frame(elapsed) {
            self.sample_started = clock_now();
        }
    }

    /// Draws "FPS" and the rate on display (capped at 999, three digits) on a
    /// dark box in the top-left corner. Nothing is drawn unless the buffer holds
    /// exactly `width * height` pixels and neither is 0.
    pub fn draw(&self, buffer: &mut [u32], width: usize, height: usize)
        requires
            width * height <= usize::MAX,
        ensures
            final(buffer)@ == if old(buffer)@.len() == width * height && width > 0 && height > 0 {
                paint(
                    paint(old(buffer)@, width as int, rect_area(3, 3, 87, 21), BACKGROUND_COLOR),
                    width as int,
                    text_pixels(
                        text_glyphs(fps_label(if self.shown_fps() < 999 { self.shown_fps() } else { 999 })),
                        6,
                        6,
                        GLYPH_SCALE as int,
                    ),
                    TEXT_COLOR,
                )
            } else {
                old(buffer)@
            },
    {
        if buffer.len() != width * height || width == 0 || height == 0 {
            return;
        }

        let origin_x: usize = 6;
        let origin_y: usize = 6;
        let advance = (GLYPH_WIDTH + 1) * GLYPH_SCALE;
        let overlay_width = origin_x + advance * 7;
        let overlay_height = origin_y + GLYPH_HEIGHT * GLYPH_SCALE + 4;
        fill_rect(
            buffer,
            width,
            height,
            Rect { x: origin_x - 3, y: origin_y - 3, width: overlay_width - 3, height: overlay_height - 3 },
            BACKGROUND_COLOR,
        );

        let fps = if self.displayed_fps < 999 { self.displayed_fps } else { 999 };
        let glyphs = [
            glyph_for(70),
            glyph_for(80),
            glyph_for(83),
            glyph_for(32),
            digit_glyph((fps / 100) as u8),
            digit_glyph(((fps / 10) % 10) as u8),
            digit_glyph((fps % 10) as u8),
        ];
        let ghost label = fps_label(fps as int);
        let ghost background = buffer@;
        proof {
            assert forall|i: int| 0 <= i < 7 implies #[trigger] glyphs@[i]@ == text_glyphs(label)[i] by {}
            lemma_paint_nothing(
                background,
                width as int,
                height as int,
                text_pixels(text_glyphs(label).take(0), 6, 6, GLYPH_SCALE as int),
                TEXT_COLOR,
            );
        }
        let mut index: usize = 0;
        while index < 7
            invariant
                buffer@.len() == width * height,
                background.len() == width * height,
                index <= 7,
                origin_x == 6,
                origin_y == 6,
                advance == 12,
                advance == glyph_advance(GLYPH_SCALE as int),
                label.len() == 7,
                forall|i: int| 0 <= i < 7 ==> #[trigger] glyphs@[i]@ == text_glyphs(label)[i],
                buffer@ == paint(
                    background,
                    width as int,
                    text_pixels(text_glyphs(label).take(index as int), 6, 6, GLYPH_SCALE as int),
                    TEXT_COLOR,
                ),
            decreases 7 - index,
        {
            proof {
                lemma_text_step(
                    background,
                    width as int,
                    height as int,
                    text_glyphs(label),
                    6,
                    6,
                    GLYPH_SCALE as int,
                    index as int,
                    TEXT_COLOR,
                );
            }
            draw_glyph(buffer, width, height, origin_x + index * advance, origin_y, &glyphs[index]);
            index = index + 1;
        }
        proof {
            assert(text_glyphs(label).take(7) =~= text_glyphs(label));
        }
    }
}

/// The text of the counter: "FPS " and `fps` as three decimal digits.
pub open spec fn fps_label(fps: int) -> Seq<u8> {
    seq![70u8, 80, 83, 32, (48 + fps / 100) as u8, (48 + (fps / 10) % 10) as u8, (48 + fps % 10) as u8]
}

/// The counter's label reads "FPS " and then the rate in three decimal digits.
pub proof fn lemma_fps_label_digits(fps: int)
    requires
        0 <= fps <= 999,
    ensures
        fps_label(fps).len() == 7,
        fps_label(fps).take(4) == seq![70u8, 80, 83, 32],
        forall|k: int| 4 <= k < 7 ==> 48 <= #[trigger] fps_label(fps)[k] <= 57,
        100 * (fps_label(fps)[4] - 48) + 10 * (fps_label(fps)[5] - 48) + (fps_label(fps)[6] - 48) == fps,
{
    assert(fps_label(fps).take(4) =~= seq![70u8, 80, 83, 32]);
}

/// Draws one glyph of the counter, doubled in size, in the text colour.
fn draw_glyph(
    buffer: &mut [u32],
    width: usize,
    height: usize,
    origin_x: usize,
    origin_y: usize,
    glyph: &[u8; GLYPH_HEIGHT],
)
    requires
        old(buffer)@.len() == width * height,
        origin_x <= 1000,
        origin_y <= 1000,
    ensures
        final(buffer)@ == paint(
            old(buffer)@,
            width as int,
            glyph_pixels(glyph@, origin_x as int, origin_y as int, GLYPH_SCALE as int),
            TEXT_COLOR,
        ),
{
    draw_font_glyph(buffer, width, height, origin_x, origin_y, GLYPH_SCALE, TEXT_COLOR, *glyph);
}

/// The counter's letters: F, P and S of the bitmap font; any other character is blank.
fn glyph_for(character: u8) -> (rows: [u8; GLYPH_HEIGHT])
    ensures
        rows@ == if character == 70 || character == 80 || character == 83 {
            glyph_rows(character)
        } else {
            glyph_rows(32)
        },
{
    match character {
        70 => [0b11111, 0b10000, 0b10000, 0b11110, 0b10000, 0b10000, 0b10000],  // 'F'
        80 => [0b11110, 0b10001, 0b10001, 0b11110, 0b10000, 0b10000, 0b10000],  // 'P'
        83 => [0b01111, 0b10000, 0b10000, 0b01110, 0b00001, 0b00001, 0b11110],  // 'S'
        _ => [0; GLYPH_HEIGHT],
    }
}

/// The bitmap-font glyph of decimal digit `digit`; digits above 9 show as 9.
fn digit_glyph(digit: u8) -> (rows: [u8; GLYPH_HEIGHT])
    ensures
        rows@ == glyph_rows((48 + if digit < 9 { digit } else { 9 }) as u8),
{
    let digit = if digit < 9 { digit } else { 9 };
    match digit {
        0 => [0b01110, 0b10001, 0b10011, 0b10101, 0b11001, 0b10001, 0b01110],
        1 => [0b00100, 0b01100, 0b00100, 0b00100, 0b00100, 0b00100, 0b01110],
        2 => [0b01110, 0b10001, 0b00001, 0b00010, 0b00100, 0b01000, 0b11111],
        3 => [0b11110, 0b00001, 0b00001, 0b01110, 0b00001, 0b00001, 0b11110],
        4 => [0b00010, 0b00110, 0b01010, 0b10010, 0b11111, 0b00010, 0b00010],
        5 => [0b11111, 0b10000, 0b10000, 0b11110, 0b00001, 0b00001, 0b11110],
        6 => [0b01110, 0b10000, 0b10000, 0b11110, 0b10001, 0b10001, 0b01110],
        7 => [0b11111, 0b00001, 0b00010, 0b00100, 0b01000, 0b01000, 0b01000],
        8 => [0b01110, 0b10001, 0b10001, 0b01110, 0b10001, 0b10001, 0b01110],
        _ => [0b01110, 0b10001, 0b10001, 0b01111, 0b00001, 0b00001, 0b01110],
    }
}

} // verus!
