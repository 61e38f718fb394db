//! A 5x7 bitmap font drawn into a `u32` framebuffer.
use crate::canvas::{lemma_block_index, is_raster, lemma_paint_agree, lemma_paint_extend, lemma_paint_nothing, lemma_scan_next_row,
    lemma_scan_done, lemma_scan_skip, lemma_scan_start, lemma_scan_step, paint, rect_area, scan_prefix};
use vstd::prelude::*;

verus! {

pub const GLYPH_WIDTH: usize = 5;
pub const GLYPH_HEIGHT: usize = 7;

/// The rows of the glyph for `character`, top row first; in each row bit 4 is
/// the leftmost column. Characters without a glyph are blank.
pub open spec fn glyph_rows(character: u8) -> Seq<u8> {
    match character {
        65 => seq![14u8, 17, 17, 31, 17, 17, 17], // 'A'
        66 => seq![30u8, 17, 17, 30, 17, 17, 30], // 'B'
        67 => seq![14u8, 17, 16, 16, 16, 17, 14], // 'C'
        68 => seq![30u8, 17, 17, 17, 17, 17, 30], // 'D'
        69 => seq![31u8, 16, 16, 30, 16, 16, 31], // 'E'
        70 => seq![31u8, 16, 16, 30, 16, 16, 16], // 'F'
        71 => seq![14u8, 17, 16, 23, 17, 17, 15], // 'G'
        72 => seq![17u8, 17, 17, 31, 17, 17, 17], // 'H'
        73 => seq![31u8, 4, 4, 4, 4, 4, 31], // 'I'
        74 => seq![7u8, 2, 2, 2, 18, 18, 12], // 'J'
        75 => seq![17u8, 18, 20, 24, 20, 18, 17], // 'K'
        76 => seq![16u8, 16, 16, 16, 16, 16, 31], // 'L'
        77 => seq![17u8, 27, 21, 21, 17, 17, 17], // 'M'
        78 => seq![17u8, 25, 21, 19, 17, 17, 17], // 'N'
        79 => seq![14u8, 17, 17, 17, 17, 17, 14], // 'O'
        80 => seq![30u8, 17, 17, 30, 16, 16, 16], // 'P'
        81 => seq![14u8, 17, 17, 17, 21, 18, 13], // 'Q'
        82 => seq![30u8, 17, 17, 30, 20, 18, 17], // 'R'
        83 => seq![15u8, 16, 16, 14, 1, 1, 30], // 'S'
        84 => seq![31u8, 4, 4, 4, 4, 4, 4], // 'T'
        85 => seq![17u8, 17, 17, 17, 17, 17, 14], // 'U'
        86 => seq![17u8, 17, 17, 17, 17, 10, 4], // 'V'
        87 => seq![17u8, 17, 17, 21, 21, 21, 10], // 'W'
        88 => seq![17u8, 17, 10, 4, 10, 17, 17], // 'X'
        89 => seq![17u8, 17, 10, 4, 4, 4, 4], // 'Y'
        90 => seq![31u8, 1, 2, 4, 8, 16, 31], // 'Z'
        48 => seq![14u8, 17, 19, 21, 25, 17, 14], // '0'
        49 => seq![4u8, 12, 4, 4, 4, 4, 14], // '1'
        50 => seq![14u8, 17, 1, 2, 4, 8, 31], // '2'
        51 => seq![30u8, 1, 1, 14, 1, 1, 30], // '3'
        52 => seq![2u8, 6, 10, 18, 31, 2, 2], // '4'
        53 => seq![31u8, 16, 16, 30, 1, 1, 30], // '5'
        54 => seq![14u8, 16, 16, 30, 17, 17, 14], // '6'
        55 => seq![31u8, 1, 2, 4, 8, 8, 8], // '7'
        56 => seq![14u8, 17, 17, 14, 17, 17, 14], // '8'
        57 => seq![14u8, 17, 17, 15, 1, 1, 14], // '9'
        58 => seq![0u8, 4, 4, 0, 4, 4, 0], // ':'
        47 => seq![1u8, 1, 2, 4, 8, 16, 16], // '/'
        45 => seq![0u8, 0, 0, 31, 0, 0, 0], // '-'
        _ => seq![0u8, 0, 0, 0, 0, 0, 0],
    }
}

pub fn glyph(character: u8) -> (rows: [u8; GLYPH_HEIGHT])
    ensures
        rows@ == glyph_rows(character),
{
    match character {
        65 => [14, 17, 17, 31, 17, 17, 17], // 'A'
        66 => [30, 17, 17, 30, 17, 17, 30], // 'B'
        67 => [14, 17, 16, 16, 16, 17, 14], // 'C'
        68 => [30, 17, 17, 17, 17, 17, 30], // 'D'
        69 => [31, 16, 16, 30, 16, 16, 31], // 'E'
        70 => [31, 16, 16, 30, 16, 16, 16], // 'F'
        71 => [14, 17, 16, 23, 17, 17, 15], // 'G'
        72 => [17, 17, 17, 31, 17, 17, 17], // 'H'
        73 => [31, 4, 4, 4, 4, 4, 31], // 'I'
        74 => [7, 2, 2, 2, 18, 18, 12], // 'J'
        75 => [17, 18, 20, 24, 20, 18, 17], // 'K'
        76 => [16, 16, 16, 16, 16, 16, 31], // 'L'
        77 => [17, 27, 21, 21, 17, 17, 17], // 'M'
        78 => [17, 25, 21, 19, 17, 17, 17], // 'N'
        79 => [14, 17, 17, 17, 17, 17, 14], // 'O'
        80 => [30, 17, 17, 30, 16, 16, 16], // 'P'
        81 => [14, 17, 17, 17, 21, 18, 13], // 'Q'
        82 => [30, 17, 17, 30, 20, 18, 17], // 'R'
        83 => [15, 16, 16, 14, 1, 1, 30], // 'S'
        84 => [31, 4, 4, 4, 4, 4, 4], // 'T'
        85 => [17, 17, 17, 17, 17, 17, 14], // 'U'
        86 => [17, 17, 17, 17, 17, 10, 4], // 'V'
        87 => [17, 17, 17, 21, 21, 21, 10], // 'W'
        88 => [17, 17, 10, 4, 10, 17, 17], // 'X'
        89 => [17, 17, 10, 4, 4, 4, 4], // 'Y'
        90 => [31, 1, 2, 4, 8, 16, 31], // 'Z'
        48 => [14, 17, 19, 21, 25, 17, 14], // '0'
        49 => [4, 12, 4, 4, 4, 4, 14], // '1'
        50 => [14, 17, 1, 2, 4, 8, 31], // '2'
        51 => [30, 1, 1, 14, 1, 1, 30], // '3'
        52 => [2, 6, 10, 18, 31, 2, 2], // '4'
        53 => [31, 16, 16, 30, 1, 1, 30], // '5'
        54 => [14, 16, 16, 30, 17, 17, 14], // '6'
        55 => [31, 1, 2, 4, 8, 8, 8], // '7'
        56 => [14, 17, 17, 14, 17, 17, 14], // '8'
        57 => [14, 17, 17, 15, 1, 1, 14], // '9'
        58 => [0, 4, 4, 0, 4, 4, 0], // ':'
        47 => [1, 1, 2, 4, 8, 16, 16], // '/'
        45 => [0, 0, 0, 31, 0, 0, 0], // '-'
        _ => [0; GLYPH_HEIGHT],
    }
}


/// Whether column `column` (0 is leftmost) of a glyph row is lit.
pub open spec fn glyph_bit(row: u8, column: int) -> bool {
    0 <= column < GLYPH_WIDTH && row & (1u8 << ((GLYPH_WIDTH - 1 - column) as u8)) != 0
}

/// The pixels of a glyph drawn with its top-left corner at `(origin_x, origin_y)`,
/// each font dot being a `scale` by `scale` block.
pub open spec fn glyph_pixels(rows: Seq<u8>, origin_x: int, origin_y: int, scale: int) -> spec_fn(int, int) -> bool {
    |px: int, py: int|
        scale > 0 && origin_x <= px && origin_y <= py && (py - origin_y) / scale < rows.len()
            && glyph_bit(rows[(py - origin_y) / scale], (px - origin_x) / scale)
}

/// The glyph pixels whose font dot comes before dot `(column, row)` in row-major order.
pub open spec fn glyph_prefix(
    rows: Seq<u8>,
    origin_x: int,
    origin_y: int,
    scale: int,
    row: int,
    column: int,
) -> spec_fn(int, int) -> bool {
    |px: int, py: int|
        glyph_pixels(rows, origin_x, origin_y, scale)(px, py) && ((py - origin_y) / scale < row || (
        (py - origin_y) / scale == row && (px - origin_x) / scale < column))
}

/// Fills the `scale` by `scale` block at `(origin_x, origin_y)`, clipped to the raster.
fn fill_block(
    buffer: &mut [u32],
    width: usize,
    height: usize,
    origin_x: usize,
    origin_y: usize,
    scale: usize,
    color: u32,
)
    requires
        old(buffer)@.len() == width * height,
        origin_x + scale <= usize::MAX,
        origin_y + scale <= usize::MAX,
    ensures
        final(buffer)@ == paint(
            old(buffer)@,
            width as int,
            rect_area(origin_x as int, origin_y as int, scale as int, scale as int),
            color,
        ),
{
    let ghost base = buffer@;
    let ghost block = rect_area(origin_x as int, origin_y as int, scale as int, scale as int);
    let n = buffer.len();
    proof {
        lemma_scan_start(base, width as int, height as int, block, origin_y as int, color);
    }
    let mut offset_y: usize = 0;
    while offset_y < scale
        invariant
            n == width * height,
            buffer@.len() == width * height,
            base.len() == width * height,
            origin_x + scale <= usize::MAX,
            origin_y + scale <= usize::MAX,
            offset_y <= scale,
            block == rect_area(origin_x as int, origin_y as int, scale as int, scale as int),
            buffer@ == paint(base, width as int, scan_prefix(block, origin_y + offset_y, 0), color),
        decreases scale - offset_y,
    {
        let pixel_y = origin_y + offset_y;
        if pixel_y >= height {
            proof {
                lemma_paint_agree(
                    base,
                    width as int,
                    height as int,
                    scan_prefix(block, pixel_y as int, 0),
                    scan_prefix(block, pixel_y + 1, 0),
                    color,
                );
            }
            offset_y = offset_y + 1;
            continue;
        }
        proof {
            lemma_scan_skip(base, width as int, height as int, block, pixel_y as int, 0, origin_x as int, color);
        }
        let mut offset_x: usize = 0;
        while offset_x < scale
            invariant
                n == width * height,
                buffer@.len() == width * height,
                base.len() == width * height,
                origin_x + scale <= usize::MAX,
                origin_y + scale <= usize::MAX,
                offset_y < scale,
                offset_x <= scale,
                pixel_y == origin_y + offset_y,
                pixel_y < height,
                block == rect_area(origin_x as int, origin_y as int, scale as int, scale as int),
                buffer@ == paint(base, width as int, scan_prefix(block, pixel_y as int, origin_x + offset_x), color),
            decreases scale - offset_x,
        {
            let pixel_x = origin_x + offset_x;
            if pixel_x < width {
                proof {
                    assert(block(pixel_x as int, pixel_y as int));
                    lemma_scan_step(base, width as int, height as int, block, pixel_x as int, pixel_y as int, color);
                    assert(pixel_y * width + pixel_x < width * height) by (nonlinear_arith)
                        requires
                            pixel_x < width,
                            pixel_y < height,
                    ;
                }
                buffer[pixel_y * width + pixel_x] = color;
            } else {
                proof {
                    lemma_scan_skip(
                        base,
                        width as int,
                        height as int,
                        block,
                        pixel_y as int,
                        pixel_x as int,
                        pixel_x + 1,
                        color,
                    );
                }
            }
            offset_x = offset_x + 1;
        }
        proof {
            lemma_scan_next_row(base, width as int, height as int, block, pixel_y as int, origin_x + scale, color);
        }
        offset_y = offset_y + 1;
    }
    proof {
        lemma_scan_done(base, width as int, height as int, block, origin_y + scale, color);
    }
}


/// Handling font dot `(column, row)` extends the painted prefix by that dot's block
/// when the dot is lit, and by nothing otherwise.
proof fn lemma_glyph_dot(
    base: Seq<u32>,
    width: int,
    height: int,
    rows: Seq<u8>,
    origin_x: int,
    origin_y: int,
    scale: int,
    row: int,
    column: int,
    color: u32,
)
    requires
        is_raster(base, width, height),
        scale > 0,
        rows.len() == GLYPH_HEIGHT,
        0 <= row < GLYPH_HEIGHT,
        0 <= column < GLYPH_WIDTH,
    ensures
        glyph_bit(rows[row], column) ==> paint(
            paint(base, width, glyph_prefix(rows, origin_x, origin_y, scale, row, column), color),
            width,
            rect_area(origin_x + column * scale, origin_y + row * scale, scale, scale),
            color,
        ) == paint(base, width, glyph_prefix(rows, origin_x, origin_y, scale, row, column + 1), color),
        !glyph_bit(rows[row], column) ==> paint(
            base,
            width,
            glyph_prefix(rows, origin_x, origin_y, scale, row, column),
            color,
        ) == paint(base, width, glyph_prefix(rows, origin_x, origin_y, scale, row, column + 1), color),
{
    let before = glyph_prefix(rows, origin_x, origin_y, scale, row, column);
    let after = glyph_prefix(rows, origin_x, origin_y, scale, row, column + 1);
    let block = rect_area(origin_x + column * scale, origin_y + row * scale, scale, scale);
    assert forall|px: int, py: int| #![trigger after(px, py)] #![trigger block(px, py)]
        0 <= px < width && 0 <= py < height implies (block(px, py) <==> ((px - origin_x) / scale
        == column && (py - origin_y) / scale == row)) by {
        lemma_block_index(px - origin_x, scale, column);
        lemma_block_index(py - origin_y, scale, row);
    }
    if glyph_bit(rows[row], column) {
        lemma_paint_extend(base, width, height, before, block, after, color);
    } else {
        lemma_paint_agree(base, width, height, before, after, color);
    }
}

/// Font row `row` is finished once its five dots are handled.
proof fn lemma_glyph_row_end(
    base: Seq<u32>,
    width: int,
    height: int,
    rows: Seq<u8>,
    origin_x: int,
    origin_y: int,
    scale: int,
    row: int,
    color: u32,
)
    requires
        is_raster(base, width, height),
        scale > 0,
    ensures
        paint(base, width, glyph_prefix(rows, origin_x, origin_y, scale, row, GLYPH_WIDTH as int), color)
            == paint(base, width, glyph_prefix(rows, origin_x, origin_y, scale, row + 1, 0), color),
{
    assert forall|px: int| origin_x <= px implies 0 <= #[trigger] ((px - origin_x) / scale) by {
        vstd::arithmetic::div_mod::lemma_div_pos_is_pos(px - origin_x, scale);
    }
    lemma_paint_agree(
        base,
        width,
        height,
        glyph_prefix(rows, origin_x, origin_y, scale, row, GLYPH_WIDTH as int),
        glyph_prefix(rows, origin_x, origin_y, scale, row + 1, 0),
        color,
    );
}

/// Before any dot nothing is painted; after the last row the whole glyph is.
proof fn lemma_glyph_ends(
    base: Seq<u32>,
    width: int,
    height: int,
    rows: Seq<u8>,
    origin_x: int,
    origin_y: int,
    scale: int,
    color: u32,
)
    requires
        is_raster(base, width, height),
        scale > 0,
        rows.len() == GLYPH_HEIGHT,
    ensures
        paint(base, width, glyph_prefix(rows, origin_x, origin_y, scale, 0, 0), color) == base,
        paint(base, width, glyph_prefix(rows, origin_x, origin_y, scale, GLYPH_HEIGHT as int, 0), color)
            == paint(base, width, glyph_pixels(rows, origin_x, origin_y, scale), color),
{
    assert forall|py: int| origin_y <= py implies 0 <= #[trigger] ((py - origin_y) / scale) by {
        vstd::arithmetic::div_mod::lemma_div_pos_is_pos(py - origin_y, scale);
    }
    lemma_paint_nothing(base, width, height, glyph_prefix(rows, origin_x, origin_y, scale, 0, 0), color);
    lemma_paint_agree(
        base,
        width,
        height,
        glyph_prefix(rows, origin_x, origin_y, scale, GLYPH_HEIGHT as int, 0),
        glyph_pixels(rows, origin_x, origin_y, scale),
        color,
    );
}

/// Draws one glyph with its top-left corner at `(origin_x, origin_y)`.
pub fn draw_glyph(
    buffer: &mut [u32],
    width: usize,
    height: usize,
    origin_x: usize,
    origin_y: usize,
    scale: usize,
    color: u32,
    rows: [u8; GLYPH_HEIGHT],
)
    requires
        old(buffer)@.len() == width * height,
        scale > 0,
        origin_x + GLYPH_WIDTH * scale <= usize::MAX,
        origin_y + GLYPH_HEIGHT * scale <= usize::MAX,
    ensures
        final(buffer)@ == paint(
            old(buffer)@,
            width as int,
            glyph_pixels(rows@, origin_x as int, origin_y as int, scale as int),
            color,
        ),
{
    let ghost base = buffer@;
    let ghost (ox, oy, s) = (origin_x as int, origin_y as int, scale as int);
    proof {
        lemma_glyph_ends(base, width as int, height as int, rows@, ox, oy, s, color);
    }
    let mut glyph_y: usize = 0;
    while glyph_y < GLYPH_HEIGHT
        invariant
            buffer@.len() == width * height,
            base.len() == width * height,
            ox == origin_x,
            oy == origin_y,
            s == scale,
            scale > 0,
            origin_x + GLYPH_WIDTH * scale <= usize::MAX,
            origin_y + GLYPH_HEIGHT * scale <= usize::MAX,
            glyph_y <= GLYPH_HEIGHT,
            buffer@ == paint(base, width as int, glyph_prefix(rows@, ox, oy, s, glyph_y as int, 0), color),
        decreases GLYPH_HEIGHT - glyph_y,
    {
        let row = rows[glyph_y];
        let mut glyph_x: usize = 0;
        while glyph_x < GLYPH_WIDTH
            invariant
                buffer@.len() == width * height,
                base.len() == width * height,
                ox == origin_x,
                oy == origin_y,
                s == scale,
                scale > 0,
                origin_x + GLYPH_WIDTH * scale <= usize::MAX,
                origin_y + GLYPH_HEIGHT * scale <= usize::MAX,
                glyph_y < GLYPH_HEIGHT,
                glyph_x <= GLYPH_WIDTH,
                row == rows@[glyph_y as int],
                buffer@ == paint(
                    base,
                    width as int,
                    glyph_prefix(rows@, ox, oy, s, glyph_y as int, glyph_x as int),
                    color,
                ),
            decreases GLYPH_WIDTH - glyph_x,
        {
            proof {
                lemma_glyph_dot(base, width as int, height as int, rows@, ox, oy, s, glyph_y as int, glyph_x as int, color);
            }
            if row & (1u8 << ((GLYPH_WIDTH - glyph_x - 1) as u8)) == 0 {
                glyph_x = glyph_x + 1;
                continue;
            }
            proof {
                assert(glyph_x * scale + scale <= GLYPH_WIDTH * scale) by (nonlinear_arith)
                    requires
                        glyph_x < GLYPH_WIDTH,
                ;
                assert(glyph_y * scale + scale <= GLYPH_HEIGHT * scale) by (nonlinear_arith)
                    requires
                        glyph_y < GLYPH_HEIGHT,
                ;
            }
            fill_block(
                buffer,
                width,
                height,
                origin_x + glyph_x * scale,
                origin_y + glyph_y * scale,
                scale,
                color,
            );
            glyph_x = glyph_x + 1;
        }
        proof {
            lemma_glyph_row_end(base, width as int, height as int, rows@, ox, oy, s, glyph_y as int, color);
        }
        glyph_y = glyph_y + 1;
    }
}


/// Horizontal distance between the origins of consecutive glyphs.
pub open spec fn glyph_advance(scale: int) -> int {
    (GLYPH_WIDTH + 1) * scale
}

/// The glyphs that spell `text`.
pub open spec fn text_glyphs(text: Seq<u8>) -> Seq<Seq<u8>> {
    text.map_values(|character: u8| glyph_rows(character))
}

/// The pixels lit by writing `glyphs` left to right from `(x, y)`, glyph `i`
/// starting `i * glyph_advance(scale)` pixels to the right of `x`.
pub open spec fn text_pixels(glyphs: Seq<Seq<u8>>, x: int, y: int, scale: int) -> spec_fn(int, int) -> bool {
    |px: int, py: int|
        scale > 0 && x <= px && (px - x) / glyph_advance(scale) < glyphs.len() && glyph_pixels(
            glyphs[(px - x) / glyph_advance(scale)],
            x + ((px - x) / glyph_advance(scale)) * glyph_advance(scale),
            y,
            scale,
        )(px, py)
}

/// Every glyph of the font has `GLYPH_HEIGHT` rows.
pub proof fn lemma_glyph_height(character: u8)
    ensures
        glyph_rows(character).len() == GLYPH_HEIGHT,
{
}

/// The characters the font can draw: the capital letters, the digits, `:`, `/` and `-`.
pub open spec fn has_glyph(character: u8) -> bool {
    (65 <= character <= 90) || (47 <= character <= 58) || character == 45
}

/// The seven rows of a glyph read as one number, five bits per row.
pub open spec fn glyph_code(rows: Seq<u8>) -> int {
    rows[0] * 0x100_0000_0000 + rows[1] * 0x8_0000_0000 + rows[2] * 0x4000_0000 + rows[3] * 0x200_0000
        + rows[4] * 0x10_0000 + rows[5] * 0x8000 + rows[6] * 0x400
}

/// Every character the font draws has a glyph of its own: two different such
/// characters never look the same, and none of them is blank like a character
/// without a glyph; every row uses only the five columns of the glyph.
pub proof fn lemma_glyphs_distinct(first: u8, second: u8)
    requires
        has_glyph(first),
        has_glyph(second),
        first != second,
    ensures
        glyph_rows(first) != glyph_rows(second),
        glyph_rows(first) != glyph_rows(32),
        forall|row: int| 0 <= row < GLYPH_HEIGHT ==> #[trigger] glyph_rows(first)[row] < 32,
{
    if glyph_rows(first) == glyph_rows(second) {
        assert(glyph_code(glyph_rows(first)) == glyph_code(glyph_rows(second)));
    }
    if glyph_rows(first) == glyph_rows(32) {
        assert(glyph_code(glyph_rows(first)) == glyph_code(glyph_rows(32)));
    }
}

/// Written text stays within its box: `glyph_advance(scale)` pixels per glyph
/// across from `x`, `GLYPH_HEIGHT * scale` rows down from `y`.
pub proof fn lemma_text_bounds(text: Seq<u8>, x: int, y: int, scale: int, px: int, py: int)
    requires
        text_pixels(text_glyphs(text), x, y, scale)(px, py),
    ensures
        x <= px < x + text.len() * glyph_advance(scale),
        y <= py < y + GLYPH_HEIGHT * scale,
{
    let advance = glyph_advance(scale);
    let k = (px - x) / advance;
    lemma_glyph_height(text[k]);
    vstd::arithmetic::div_mod::lemma_fundamental_div_mod(px - x, advance);
    vstd::arithmetic::div_mod::lemma_mod_bound(px - x, advance);
    assert(px - x < (k + 1) * advance) by (nonlinear_arith)
        requires
            px - x == advance * k + (px - x) % advance,
            (px - x) % advance < advance,
    ;
    assert((k + 1) * advance <= text.len() * advance) by (nonlinear_arith)
        requires
            k + 1 <= text.len(),
            advance > 0,
    ;
    let row = (py - y) / scale;
    vstd::arithmetic::div_mod::lemma_fundamental_div_mod(py - y, scale);
    vstd::arithmetic::div_mod::lemma_mod_bound(py - y, scale);
    assert(py - y < GLYPH_HEIGHT * scale) by (nonlinear_arith)
        requires
            py - y == scale * row + (py - y) % scale,
            (py - y) % scale < scale,
            row < GLYPH_HEIGHT,
            scale > 0,
    ;
}

/// Every coordinate the text touches fits in `usize`.
pub open spec fn text_fits(length: int, x: int, y: int, scale: int) -> bool {
    &&& glyph_advance(scale) <= usize::MAX
    &&& x + length * glyph_advance(scale) <= usize::MAX
    &&& y + GLYPH_HEIGHT * scale <= usize::MAX
}

/// Writing glyph `k` extends the text written so far by that glyph.
pub proof fn lemma_text_step(
    base: Seq<u32>,
    width: int,
    height: int,
    glyphs: Seq<Seq<u8>>,
    x: int,
    y: int,
    scale: int,
    k: int,
    color: u32,
)
    requires
        is_raster(base, width, height),
        scale > 0,
        0 <= k < glyphs.len(),
    ensures
        paint(
            paint(base, width, text_pixels(glyphs.take(k), x, y, scale), color),
            width,
            glyph_pixels(glyphs[k], x + k * glyph_advance(scale), y, scale),
            color,
        ) == paint(base, width, text_pixels(glyphs.take(k + 1), x, y, scale), color),
{
    let adv = glyph_advance(scale);
    let before = text_pixels(glyphs.take(k), x, y, scale);
    let after = text_pixels(glyphs.take(k + 1), x, y, scale);
    let glyph = glyph_pixels(glyphs[k], x + k * adv, y, scale);
    assert(adv == 6 * scale);
    assert forall|px: int, py: int| #![trigger after(px, py)]
        0 <= px < width && 0 <= py < height implies after(px, py) == (before(px, py) || glyph(px, py)) by {
        let d = px - x - k * adv;
        if glyph(px, py) {
            let column = d / scale;
            vstd::arithmetic::div_mod::lemma_fundamental_div_mod(d, scale);
            vstd::arithmetic::div_mod::lemma_mod_bound(d, scale);
            assert(scale * column + scale <= 5 * scale) by (nonlinear_arith)
                requires
                    column < 5,
                    scale > 0,
            ;
            lemma_block_index(px - x, adv, k);
        }
        if x <= px {
            let i = (px - x) / adv;
            if i < k + 1 {
                assert(glyphs.take(k + 1)[i] == glyphs[i]);
                if i < k {
                    assert(glyphs.take(k)[i] == glyphs[i]);
                }
            }
        }
    }
    lemma_paint_extend(base, width, height, before, glyph, after, color);
}

/// Writes `text` with the font at `(x, y)`, each font dot `scale` pixels wide.
/// Nothing is drawn when the buffer is not `width * height` pixels or `scale` is 0.
pub fn draw_text(
    buffer: &mut [u32],
    width: usize,
    height: usize,
    x: usize,
    y: usize,
    text: &[u8],
    scale: usize,
    color: u32,
)
    requires
        old(buffer)@.len() == width * height && scale > 0 ==> text_fits(text@.len() as int, x as int, y as int, scale as int),
    ensures
        final(buffer)@ == if old(buffer)@.len() == width * height && scale > 0 {
            paint(old(buffer)@, width as int, text_pixels(text_glyphs(text@), x as int, y as int, scale as int), color)
        } else {
            old(buffer)@
        },
{
    let length = buffer.len();
    let fits = match width.checked_mul(height) {
        Some(pixels) => pixels == length,
        None => false,
    };
    if !fits || scale == 0 {
        return;
    }
    let ghost base = buffer@;
    let ghost glyphs = text_glyphs(text@);
    let advance = (GLYPH_WIDTH + 1) * scale;
    proof {
        lemma_paint_nothing(base, width as int, height as int, text_pixels(glyphs.take(0), x as int, y as int, scale as int), color);
    }
    let mut index: usize = 0;
    while index < text.len()
        invariant
            buffer@.len() == width * height,
            base.len() == width * height,
            scale > 0,
            advance == glyph_advance(scale as int),
            glyphs == text_glyphs(text@),
            text_fits(text@.len() as int, x as int, y as int, scale as int),
            index <= text@.len(),
            buffer@ == paint(base, width as int, text_pixels(glyphs.take(index as int), x as int, y as int, scale as int), color),
        decreases text@.len() - index,
    {
        proof {
            assert(index * advance + advance <= text@.len() * advance) by (nonlinear_arith)
                requires
                    index < text@.len(),
            ;
            lemma_text_step(base, width as int, height as int, glyphs, x as int, y as int, scale as int, index as int, color);
        }
        draw_glyph(buffer, width, height, x + index * advance, y, scale, color, glyph(text[index]));
        index = index + 1;
    }
    proof {
        assert(glyphs.take(text@.len() as int) =~= glyphs);
    }
}

/// The saturating arithmetic of `draw_centered`: the left edge that centres a
/// text of `length` glyphs in a raster `width` wide (0 when it does not fit).
pub open spec fn centered_x(width: int, length: int, scale: int) -> int {
    let full = length * glyph_advance(scale);
    let text_width = if full > usize::MAX { usize::MAX as int } else { full };
    let text_width = if text_width >= scale { text_width - scale } else { 0 };
    if width >= text_width { (width - text_width) / 2 } else { 0 }
}

/// Centred text leaves the same margin on both sides, give or take one pixel:
/// a text `length` glyphs long spans `length * glyph_advance(scale) - scale`
/// pixels (no gap after its last glyph), and when that fits in the width (and
/// in `usize`) the
/// margins on its left and right differ by at most one.
pub proof fn lemma_centered_margins(width: int, length: int, scale: int)
    requires
        width >= 0,
        scale > 0,
        length > 0,
        length * glyph_advance(scale) <= usize::MAX,
        length * glyph_advance(scale) - scale <= width,
    ensures
        ({
            let left = centered_x(width, length, scale);
            let right = width - (left + length * glyph_advance(scale) - scale);
            0 <= right - left <= 1
        }),
{
    assert(length * glyph_advance(scale) >= scale) by (nonlinear_arith)
        requires
            length >= 1,
            scale > 0,
    ;
}

/// Writes `text` horizontally centred on row `y`.
pub fn draw_centered(
    buffer: &mut [u32],
    width: usize,
    height: usize,
    y: usize,
    text: &[u8],
    scale: usize,
    color: u32,
)
    requires
        glyph_advance(scale as int) <= usize::MAX,
        old(buffer)@.len() == width * height && scale > 0 ==> text_fits(
            text@.len() as int,
            centered_x(width as int, text@.len() as int, scale as int),
            y as int,
            scale as int,
        ),
    ensures
        final(buffer)@ == if old(buffer)@.len() == width * height && scale > 0 {
            paint(
                old(buffer)@,
                width as int,
                text_pixels(
                    text_glyphs(text@),
                    centered_x(width as int, text@.len() as int, scale as int),
                    y as int,
                    scale as int,
                ),
                color,
            )
        } else {
            old(buffer)@
        },
{
    let full_width = match text.len().checked_mul((GLYPH_WIDTH + 1) * scale) {
        Some(product) => product,
        None => usize::MAX,
    };
    let text_width = full_width.saturating_sub(scale);
    let x = width.saturating_sub(text_width) / 2;
    draw_text(buffer, width, height, x, y, text, scale, color);
}

} // verus!
