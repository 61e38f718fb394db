//! Mathematical model of a framebuffer: a row-major sequence of `u32`
//! colours, and the effect of painting a set of pixels with one colour.
use vstd::arithmetic::div_mod::lemma_fundamental_div_mod_converse;
use vstd::prelude::*;

verus! {

/// The pixel coordinates `(x, y)` of buffer index `i` in a raster `width` wide.
pub open spec fn pixel_x(width: int, i: int) -> int {
    i % width
}

pub open spec fn pixel_y(width: int, i: int) -> int {
    i / width
}

/// `buf` after every pixel covered by `shape` has been set to `color`.
/// Pixels outside the raster are simply not part of it (clipping).
pub open spec fn paint(buf: Seq<u32>, width: int, shape: spec_fn(int, int) -> bool, color: u32) -> Seq<u32> {
    Seq::new(buf.len(), |i: int| if shape(pixel_x(width, i), pixel_y(width, i)) { color } else { buf[i] })
}

/// The single pixel `(x, y)`.
pub open spec fn point(x: int, y: int) -> spec_fn(int, int) -> bool {
    |px: int, py: int| px == x && py == y
}

/// The pixels of the axis-aligned rectangle with top-left `(x, y)`.
pub open spec fn rect_area(x: int, y: int, width: int, height: int) -> spec_fn(int, int) -> bool {
    |px: int, py: int| x <= px < x + width && y <= py < y + height
}

/// Index `y * width + x` is exactly the pixel `(x, y)`.
pub proof fn lemma_index_of_pixel(width: int, x: int, y: int)
    requires
        width > 0,
        0 <= x < width,
        0 <= y,
    ensures
        pixel_x(width, y * width + x) == x,
        pixel_y(width, y * width + x) == y,
{
    lemma_fundamental_div_mod_converse(y * width + x, width, y, x);
}

/// Every index of a `width * height` raster is a pixel inside it.
pub proof fn lemma_pixel_in_raster(width: int, height: int, i: int)
    requires
        width > 0,
        0 <= i < width * height,
    ensures
        0 <= pixel_x(width, i) < width,
        0 <= pixel_y(width, i) < height,
        i == pixel_y(width, i) * width + pixel_x(width, i),
{
    vstd::arithmetic::div_mod::lemma_fundamental_div_mod(i, width);
    vstd::arithmetic::div_mod::lemma_mod_bound(i, width);
    vstd::arithmetic::div_mod::lemma_div_pos_is_pos(i, width);
    vstd::arithmetic::mul::lemma_mul_is_commutative(width, i / width);
    if i / width >= height {
        vstd::arithmetic::mul::lemma_mul_inequality(height, i / width, width);
        vstd::arithmetic::mul::lemma_mul_is_commutative(width, height);
    }
}


/// The raster is `width * height` pixels laid out row by row.
pub open spec fn is_raster(buf: Seq<u32>, width: int, height: int) -> bool {
    &&& 0 <= width
    &&& 0 <= height
    &&& buf.len() == width * height
}

/// Two shapes that agree on every pixel of the raster paint the same result.
pub proof fn lemma_paint_agree(
    buf: Seq<u32>,
    width: int,
    height: int,
    s: spec_fn(int, int) -> bool,
    t: spec_fn(int, int) -> bool,
    color: u32,
)
    requires
        is_raster(buf, width, height),
        forall|px: int, py: int|
            #![trigger s(px, py)]
            #![trigger t(px, py)]
            0 <= px < width && 0 <= py < height ==> s(px, py) == t(px, py),
    ensures
        paint(buf, width, s, color) == paint(buf, width, t, color),
{
    if width > 0 {
        assert forall|i: int| 0 <= i < buf.len() implies paint(buf, width, s, color)[i] == paint(
            buf,
            width,
            t,
            color,
        )[i] by {
            lemma_pixel_in_raster(width, height, i);
        }
    } else {
        vstd::arithmetic::mul::lemma_mul_basics(height);
    }
    assert(paint(buf, width, s, color) =~= paint(buf, width, t, color));
}

/// A shape that covers no pixel of the raster leaves it unchanged.
pub proof fn lemma_paint_nothing(buf: Seq<u32>, width: int, height: int, s: spec_fn(int, int) -> bool, color: u32)
    requires
        is_raster(buf, width, height),
        forall|px: int, py: int| 0 <= px < width && 0 <= py < height ==> !#[trigger] s(px, py),
    ensures
        paint(buf, width, s, color) == buf,
{
    if width > 0 {
        assert forall|i: int| 0 <= i < buf.len() implies paint(buf, width, s, color)[i] == buf[i] by {
            lemma_pixel_in_raster(width, height, i);
        }
    } else {
        vstd::arithmetic::mul::lemma_mul_basics(height);
    }
    assert(paint(buf, width, s, color) =~= buf);
}

/// Writing `color` at pixel `(x, y)` of a painted raster paints one more pixel.
pub proof fn lemma_paint_add_point(
    base: Seq<u32>,
    width: int,
    height: int,
    s: spec_fn(int, int) -> bool,
    t: spec_fn(int, int) -> bool,
    x: int,
    y: int,
    color: u32,
)
    requires
        is_raster(base, width, height),
        0 <= x < width,
        0 <= y < height,
        forall|px: int, py: int|
            #![trigger t(px, py)]
            0 <= px < width && 0 <= py < height ==> t(px, py) == (s(px, py) || (px == x && py == y)),
    ensures
        paint(base, width, s, color).update(y * width + x, color) == paint(base, width, t, color),
{
    lemma_index_of_pixel(width, x, y);
    assert(y * width + x < width * height) by (nonlinear_arith)
        requires
            0 <= x < width,
            0 <= y < height,
    ;
    let idx = y * width + x;
    let lhs = paint(base, width, s, color).update(idx, color);
    let rhs = paint(base, width, t, color);
    assert forall|i: int| 0 <= i < base.len() implies lhs[i] == rhs[i] by {
        lemma_pixel_in_raster(width, height, i);
        if i != idx {
            assert(!(pixel_x(width, i) == x && pixel_y(width, i) == y));
        }
    }
    assert(lhs =~= rhs);
}

/// Painting twice with one colour is painting the union once.
pub proof fn lemma_paint_union(
    buf: Seq<u32>,
    width: int,
    s: spec_fn(int, int) -> bool,
    t: spec_fn(int, int) -> bool,
    color: u32,
)
    ensures
        paint(paint(buf, width, s, color), width, t, color) == paint(
            buf,
            width,
            |px: int, py: int| s(px, py) || t(px, py),
            color,
        ),
{
    assert(paint(paint(buf, width, s, color), width, t, color) =~= paint(
        buf,
        width,
        |px: int, py: int| s(px, py) || t(px, py),
        color,
    ));
}


/// Painting `extra` over a raster already painted with `s` is painting `t`,
/// when `t` covers exactly the pixels of `s` and of `extra`.
pub proof fn lemma_paint_extend(
    buf: Seq<u32>,
    width: int,
    height: int,
    s: spec_fn(int, int) -> bool,
    extra: spec_fn(int, int) -> bool,
    t: spec_fn(int, int) -> bool,
    color: u32,
)
    requires
        is_raster(buf, width, height),
        forall|px: int, py: int|
            #![trigger t(px, py)]
            0 <= px < width && 0 <= py < height ==> t(px, py) == (s(px, py) || extra(px, py)),
    ensures
        paint(paint(buf, width, s, color), width, extra, color) == paint(buf, width, t, color),
{
    lemma_paint_union(buf, width, s, extra, color);
    lemma_paint_agree(buf, width, height, |px: int, py: int| s(px, py) || extra(px, py), t, color);
}

/// The pixels of `shape` that come before `(x, y)` in row-major order.
pub open spec fn scan_prefix(shape: spec_fn(int, int) -> bool, y: int, x: int) -> spec_fn(int, int) -> bool {
    |px: int, py: int| shape(px, py) && (py < y || (py == y && px < x))
}

/// Writing the next pixel of a row-major scan of `shape`.
pub proof fn lemma_scan_step(
    base: Seq<u32>,
    width: int,
    height: int,
    shape: spec_fn(int, int) -> bool,
    x: int,
    y: int,
    color: u32,
)
    requires
        is_raster(base, width, height),
        0 <= x < width,
        0 <= y < height,
        shape(x, y),
    ensures
        paint(base, width, scan_prefix(shape, y, x), color).update(y * width + x, color) == paint(
            base,
            width,
            scan_prefix(shape, y, x + 1),
            color,
        ),
{
    lemma_paint_add_point(base, width, height, scan_prefix(shape, y, x), scan_prefix(shape, y, x + 1), x, y, color);
}

/// Skipping pixels of row `y` from `x` up to `x2` that `shape` does not cover.
pub proof fn lemma_scan_skip(
    base: Seq<u32>,
    width: int,
    height: int,
    shape: spec_fn(int, int) -> bool,
    y: int,
    x: int,
    x2: int,
    color: u32,
)
    requires
        is_raster(base, width, height),
        x <= x2,
        forall|px: int| x <= px < x2 && px < width ==> !#[trigger] shape(px, y),
    ensures
        paint(base, width, scan_prefix(shape, y, x), color) == paint(base, width, scan_prefix(shape, y, x2), color),
{
    lemma_paint_agree(base, width, height, scan_prefix(shape, y, x), scan_prefix(shape, y, x2), color);
}

/// Once row `y` is done up to the raster edge, the scan moves to row `y + 1`.
pub proof fn lemma_scan_next_row(
    base: Seq<u32>,
    width: int,
    height: int,
    shape: spec_fn(int, int) -> bool,
    y: int,
    x: int,
    color: u32,
)
    requires
        is_raster(base, width, height),
        forall|px: int| x <= px < width ==> !#[trigger] shape(px, y),
    ensures
        paint(base, width, scan_prefix(shape, y, x), color) == paint(base, width, scan_prefix(shape, y + 1, 0), color),
{
    lemma_paint_agree(base, width, height, scan_prefix(shape, y, x), scan_prefix(shape, y + 1, 0), color);
}

/// A scan that has passed every row of `shape` (or of the raster) has painted all of it.
pub proof fn lemma_scan_done(
    base: Seq<u32>,
    width: int,
    height: int,
    shape: spec_fn(int, int) -> bool,
    y: int,
    color: u32,
)
    requires
        is_raster(base, width, height),
        forall|px: int, py: int| 0 <= px < width && y <= py < height ==> !#[trigger] shape(px, py),
    ensures
        paint(base, width, scan_prefix(shape, y, 0), color) == paint(base, width, shape, color),
{
    lemma_paint_agree(base, width, height, scan_prefix(shape, y, 0), shape, color);
}

/// A scan that starts at row `y` has painted nothing if `shape` has no pixel above it.
pub proof fn lemma_scan_start(
    base: Seq<u32>,
    width: int,
    height: int,
    shape: spec_fn(int, int) -> bool,
    y: int,
    color: u32,
)
    requires
        is_raster(base, width, height),
        forall|px: int, py: int| 0 <= px < width && 0 <= py < y ==> !#[trigger] shape(px, py),
    ensures
        paint(base, width, scan_prefix(shape, y, 0), color) == base,
{
    lemma_paint_nothing(base, width, height, scan_prefix(shape, y, 0), color);
}


/// `d / s` is the index of the length-`s` block that holds `d`.
pub proof fn lemma_block_index(d: int, s: int, g: int)
    requires
        s > 0,
    ensures
        (d / s == g) <==> (g * s <= d < g * s + s),
{
    vstd::arithmetic::div_mod::lemma_fundamental_div_mod(d, s);
    vstd::arithmetic::div_mod::lemma_mod_bound(d, s);
    vstd::arithmetic::mul::lemma_mul_is_commutative(s, d / s);
    if g * s <= d < g * s + s {
        lemma_fundamental_div_mod_converse(d, s, g, d - g * s);
    }
}

} // verus!
