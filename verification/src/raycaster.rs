//! Colours of the flat-shaded walls. Casting the rays works with floating
//! point and is done by the program.
use vstd::prelude::*;

verus! {

/// Which kind of grid line a ray crossed when it hit a wall.
#[derive(Debug, Clone, Copy, PartialEq, Eq, Structural)]
pub enum HitSide {
    /// A vertical grid line (the ray moved along x).
    Vertical,
    /// A horizontal grid line: drawn darker.
    Horizontal,
}

/// Each 8-bit channel of `color` scaled by `numerator / denominator`, rounded down.
pub open spec fn scaled_color(color: u32, numerator: int, denominator: int) -> u32 {
    let red = (((color as int / 0x10000) % 0x100) * numerator / denominator);
    let green = (((color as int / 0x100) % 0x100) * numerator / denominator);
    let blue = ((color as int % 0x100) * numerator / denominator);
    (red * 0x10000 + green * 0x100 + blue) as u32
}

/// The base colour of a wall type.
pub open spec fn base_wall_color(wall_type: u8) -> u32 {
    match wall_type {
        1 => 0xD95757u32,
        2 => 0x4B75D1u32,
        3 => 0x4FAE68u32,
        4 => 0xD6A84Bu32,
        5 => 0xA965C4u32,
        6 => 0x45B8B0u32,
        7 => 0xD97945u32,
        8 => 0x8A96A8u32,
        9 => 0xD96E9Fu32,
        _ => 0xFFFFFFu32,
    }
}

/// Every wall type from 1 to 9 has its own colour: two different wall types hit
/// on the same side never share a colour, and none of them is the white of a
/// tile without a type.
pub proof fn lemma_wall_types_distinct(first: u8, second: u8)
    requires
        1 <= first <= 9,
        1 <= second <= 9,
        first != second,
    ensures
        wall_color_of(first, HitSide::Vertical) != wall_color_of(second, HitSide::Vertical),
        wall_color_of(first, HitSide::Vertical) != 0xFFFFFF,
{
}

/// The colour of a wall of `wall_type` hit on `side`: walls hit on a horizontal
/// grid line are drawn at 72% (18/25) brightness.
pub open spec fn wall_color_of(wall_type: u8, side: HitSide) -> u32 {
    match side {
        HitSide::Vertical => base_wall_color(wall_type),
        HitSide::Horizontal => scaled_color(base_wall_color(wall_type), 18, 25),
    }
}

/// The channel of `color` whose place value is `unit` (0x10000 red, 0x100 green, 1 blue).
pub open spec fn channel(color: u32, unit: int) -> int {
    (color as int / unit) % 0x100
}

/// The colour channels a lookup by `channel` reads.
pub open spec fn is_channel_unit(unit: int) -> bool {
    unit == 0x10000 || unit == 0x100 || unit == 1
}

/// Scaling a colour scales each of its channels and nothing else.
pub proof fn lemma_scaled_channels(color: u32, numerator: int, denominator: int, unit: int)
    requires
        0 <= numerator <= denominator,
        0 < denominator,
        is_channel_unit(unit),
    ensures
        channel(scaled_color(color, numerator, denominator), unit) == channel(color, unit) * numerator
            / denominator,
{
    let r = ((color as int / 0x10000) % 0x100);
    let g = ((color as int / 0x100) % 0x100);
    let b = (color as int % 0x100);
    let red = r * numerator / denominator;
    let green = g * numerator / denominator;
    let blue = b * numerator / denominator;
    lemma_scale_down(r, numerator, denominator);
    lemma_scale_down(g, numerator, denominator);
    lemma_scale_down(b, numerator, denominator);
    vstd::arithmetic::div_mod::lemma_div_pos_is_pos(r * numerator, denominator);
    vstd::arithmetic::div_mod::lemma_div_pos_is_pos(g * numerator, denominator);
    vstd::arithmetic::div_mod::lemma_div_pos_is_pos(b * numerator, denominator);
    assert(0 <= r * numerator && 0 <= g * numerator && 0 <= b * numerator) by (nonlinear_arith)
        requires
            0 <= r,
            0 <= g,
            0 <= b,
            0 <= numerator,
    ;
    let packed = red * 0x10000 + green * 0x100 + blue;
    assert(packed as u32 as int == packed);
    vstd::arithmetic::div_mod::lemma_fundamental_div_mod_converse(packed, 0x10000, red, green * 0x100 + blue);
    vstd::arithmetic::div_mod::lemma_fundamental_div_mod_converse(packed, 0x100, red * 0x100 + green, blue);
    vstd::arithmetic::div_mod::lemma_fundamental_div_mod_converse(packed, 1, packed, 0);
    vstd::arithmetic::div_mod::lemma_fundamental_div_mod_converse(red, 0x100, 0, red);
    vstd::arithmetic::div_mod::lemma_fundamental_div_mod_converse(red * 0x100 + green, 0x100, red, green);
    vstd::arithmetic::div_mod::lemma_fundamental_div_mod_converse(packed, 0x100, red * 0x100 + green, blue);
    vstd::arithmetic::div_mod::lemma_fundamental_div_mod_converse(color as int, 1, color as int, 0);
}

/// Every channel of a wall hit on a horizontal grid line is at most that of the
/// same wall hit on a vertical one: one side of each corner is darker.
pub proof fn lemma_horizontal_walls_darker(wall_type: u8, unit: int)
    requires
        is_channel_unit(unit),
    ensures
        channel(wall_color_of(wall_type, HitSide::Horizontal), unit) <= channel(
            wall_color_of(wall_type, HitSide::Vertical),
            unit,
        ),
{
    let color = base_wall_color(wall_type);
    lemma_scaled_channels(color, 18, 25, unit);
    assert(0 <= channel(color, unit)) by {
        vstd::arithmetic::div_mod::lemma_mod_bound(color as int / unit, 0x100);
    }
    lemma_scale_down(channel(color, unit), 18, 25);
}

/// The colour of a flat-shaded wall of `wall_type` hit on `side`.
pub fn wall_color(wall_type: u8, side: HitSide) -> (color: u32)
    ensures
        color == wall_color_of(wall_type, side),
{
    let color = match wall_type {
        1 => 0xD95757,
        2 => 0x4B75D1,
        3 => 0x4FAE68,
        4 => 0xD6A84B,
        5 => 0xA965C4,
        6 => 0x45B8B0,
        7 => 0xD97945,
        8 => 0x8A96A8,
        9 => 0xD96E9F,
        _ => 0xFFFFFF,
    };

    match side {
        HitSide::Vertical => color,
        HitSide::Horizontal => shade(color, 18, 25),
    }
}

/// Scaling by a factor of at most one does not increase a value.
proof fn lemma_scale_down(value: int, numerator: int, denominator: int)
    requires
        0 <= value,
        0 <= numerator <= denominator,
        0 < denominator,
    ensures
        value * numerator / denominator <= value,
{
    assert(value * numerator <= value * denominator) by (nonlinear_arith)
        requires
            0 <= value,
            numerator <= denominator,
    ;
    vstd::arithmetic::div_mod::lemma_div_is_ordered(value * numerator, value * denominator, denominator);
    vstd::arithmetic::div_mod::lemma_div_by_multiple(value, denominator);
}

/// Scales each channel of `color` by `numerator / denominator` (at most 1), rounding down.
pub fn shade(color: u32, numerator: u32, denominator: u32) -> (shaded: u32)
    requires
        0 < denominator,
        numerator <= denominator,
        denominator <= 0x1000000,
    ensures
        shaded == scaled_color(color, numerator as int, denominator as int),
{
    let red_channel = (color >> 16) & 0xFF;
    let green_channel = (color >> 8) & 0xFF;
    let blue_channel = color & 0xFF;
    proof {
        assert(red_channel == (color as int / 0x10000) % 0x100 && red_channel <= 255) by (bit_vector)
            requires
                red_channel == (color >> 16) & 0xFF,
        ;
        assert(green_channel == (color as int / 0x100) % 0x100 && green_channel <= 255) by (bit_vector)
            requires
                green_channel == (color >> 8) & 0xFF,
        ;
        assert(blue_channel == color as int % 0x100 && blue_channel <= 255) by (bit_vector)
            requires
                blue_channel == color & 0xFF,
        ;
        assert(red_channel * numerator <= 255 * 0x1000000) by (nonlinear_arith)
            requires
                red_channel <= 255,
                numerator <= 0x1000000,
        ;
        assert(green_channel * numerator <= 255 * 0x1000000) by (nonlinear_arith)
            requires
                green_channel <= 255,
                numerator <= 0x1000000,
        ;
        assert(blue_channel * numerator <= 255 * 0x1000000) by (nonlinear_arith)
            requires
                blue_channel <= 255,
                numerator <= 0x1000000,
        ;
    }
    let red = red_channel * numerator / denominator;
    let green = green_channel * numerator / denominator;
    let blue = blue_channel * numerator / denominator;
    proof {
        lemma_scale_down(red_channel as int, numerator as int, denominator as int);
        lemma_scale_down(green_channel as int, numerator as int, denominator as int);
        lemma_scale_down(blue_channel as int, numerator as int, denominator as int);
        assert((red << 16) | (green << 8) | blue == red * 0x10000 + green * 0x100 + blue) by (bit_vector)
            requires
                red <= 255,
                green <= 255,
                blue <= 255,
        ;
    }
    (red << 16) | (green << 8) | blue
}

} // verus!
