//! Compact overlay with the level's layout, the goal, the player and where they look.
use crate::canvas::{is_raster, lemma_paint_extend, lemma_paint_nothing, lemma_paint_agree, paint, point, rect_area,
    pixel_x, pixel_y, lemma_pixel_in_raster, lemma_index_of_pixel};
use crate::level::{Level, EMPTY_TILE};
use vstd::prelude::*;

verus! {

pub const CELL_SIZE: usize = 5;
pub const PADDING: usize = 3;
pub const SCREEN_MARGIN: usize = 8;
pub const BACKGROUND_COLOR: u32 = 0x0C0F14;
pub const GRID_COLOR: u32 = 0x171B22;
pub const FLOOR_COLOR: u32 = 0x2B3038;
pub const PLAYER_COLOR: u32 = 0xFFE66D;
pub const GOAL_COLOR: u32 = 0x3DDC84;

/// The minimap colour of a wall type.
pub open spec fn spec_wall_color(wall_type: u8) -> u32 {
    match wall_type {
        1 => 0xA33A32u32,
        2 => 0x4A6E9Cu32,
        3 => 0x4E7838u32,
        _ => 0x777D88u32,
    }
}

/// On the minimap the three textured wall types have colours of their own,
/// different from each other, from the floor, the grid, the goal and the player.
pub proof fn lemma_minimap_colors_distinct(first: u8, second: u8)
    requires
        1 <= first <= 3,
        1 <= second <= 3,
        first != second,
    ensures
        spec_wall_color(first) != spec_wall_color(second),
        spec_wall_color(first) != FLOOR_COLOR,
        spec_wall_color(first) != GRID_COLOR,
        spec_wall_color(first) != GOAL_COLOR,
        spec_wall_color(first) != PLAYER_COLOR,
        spec_wall_color(first) != BACKGROUND_COLOR,
{
}

pub fn wall_color(wall_type: u8) -> (color: u32)
    ensures
        color == spec_wall_color(wall_type),
{
    match wall_type {
        1 => 0xA33A32,
        2 => 0x4A6E9C,
        3 => 0x4E7838,
        _ => 0x777D88,
    }
}

/// A single Bresenham step of the line towards `(x1, y1)`: the position and the
/// error term after it. At the end point the walk stays put.
pub open spec fn line_step(state: (int, int, int), x1: int, y1: int, dx: int, dy: int, sx: int, sy: int) -> (int, int, int) {
    let (x, y, error) = state;
    if x == x1 && y == y1 {
        state
    } else {
        let double_error = 2 * error;
        let (x2, error2) = if double_error >= dy { (x + sx, error + dy) } else { (x, error) };
        let (y2, error3) = if double_error <= dx { (y + sy, error2 + dx) } else { (y, error2) };
        (x2, y2, error3)
    }
}

pub open spec fn line_dx(x0: int, x1: int) -> int {
    if x1 >= x0 { x1 - x0 } else { x0 - x1 }
}

pub open spec fn line_dy(y0: int, y1: int) -> int {
    -(if y1 >= y0 { y1 - y0 } else { y0 - y1 })
}

pub open spec fn line_sign(a: int, b: int) -> int {
    if a < b { 1 } else { -1 }
}

/// The walk's state after `k` steps from `(x0, y0)`.
pub open spec fn line_state(x0: int, y0: int, x1: int, y1: int, k: nat) -> (int, int, int)
    decreases k,
{
    if k == 0 {
        (x0, y0, line_dx(x0, x1) + line_dy(y0, y1))
    } else {
        line_step(
            line_state(x0, y0, x1, y1, (k - 1) as nat),
            x1,
            y1,
            line_dx(x0, x1),
            line_dy(y0, y1),
            line_sign(x0, x1),
            line_sign(y0, y1),
        )
    }
}

/// The pixels of the Bresenham line from `(x0, y0)` to `(x1, y1)`: the
/// positions of its walk, which reaches the end point within `|dx| + |dy|` steps.
pub open spec fn line_pixels(x0: int, y0: int, x1: int, y1: int) -> spec_fn(int, int) -> bool {
    |px: int, py: int|
        exists|k: nat|
            k <= line_dx(x0, x1) - line_dy(y0, y1) && #[trigger] line_state(x0, y0, x1, y1, k).0 == px
                && line_state(x0, y0, x1, y1, k).1 == py
}

/// The positions of the first `count` states of the walk.
pub open spec fn line_prefix(x0: int, y0: int, x1: int, y1: int, count: nat) -> spec_fn(int, int) -> bool {
    |px: int, py: int|
        exists|k: nat| k < count && #[trigger] line_state(x0, y0, x1, y1, k).0 == px && line_state(x0, y0, x1, y1, k).1 == py
}

/// Once at the end point, the walk stays there.
proof fn lemma_line_stays(x0: int, y0: int, x1: int, y1: int, k: nat, j: nat)
    requires
        line_state(x0, y0, x1, y1, k).0 == x1,
        line_state(x0, y0, x1, y1, k).1 == y1,
        k <= j,
    ensures
        line_state(x0, y0, x1, y1, j) == line_state(x0, y0, x1, y1, k),
    decreases j - k,
{
    if k < j {
        lemma_line_stays(x0, y0, x1, y1, k, (j - 1) as nat);
    }
}

/// Sets pixel `(x, y)` when it lies inside the raster; negative coordinates are outside.
fn put_pixel(buffer: &mut [u32], width: usize, height: usize, x: i128, y: i128, color: u32)
    requires
        old(buffer)@.len() == width * height,
    ensures
        final(buffer)@ == paint(old(buffer)@, width as int, point(x as int, y as int), color),
{
    if x < 0 || y < 0 || x >= width as i128 || y >= height as i128 {
        proof {
            lemma_paint_nothing(old(buffer)@, width as int, height as int, point(x as int, y as int), color);
        }
        return;
    }
    crate::music_ui::put_pixel(buffer, width, height, x as usize, y as usize, color);
}


/// A line that starts within 2^100 of the origin and spans at most 2^25
/// pixels along each axis keeps every intermediate value of the walk in `i128`.
pub open spec fn line_fits(x0: int, y0: int, x1: int, y1: int) -> bool {
    &&& -0x10_0000_0000_0000_0000_0000_0000 <= x0 <= 0x10_0000_0000_0000_0000_0000_0000
    &&& -0x10_0000_0000_0000_0000_0000_0000 <= y0 <= 0x10_0000_0000_0000_0000_0000_0000
    &&& line_dx(x0, x1) <= 0x200_0000
    &&& line_dx(y0, y1) <= 0x200_0000
}

/// At the end of one axis the walk does not step further along it.
proof fn lemma_no_overshoot(dx: int, big_dy: int, nx: int, ny: int, p: int, q: int)
    requires
        0 <= dx,
        0 <= big_dy,
        0 <= nx <= dx,
        0 <= ny <= big_dy,
        p == dx * ny,
        q == big_dy * nx,
    ensures
        nx == dx && ny < big_dy ==> 2 * (dx + p - big_dy - q) < -big_dy,
        ny == big_dy && nx < dx ==> 2 * (dx + p - big_dy - q) > dx,
{
    assert(ny < big_dy ==> p <= dx * (big_dy - 1)) by (nonlinear_arith)
        requires
            p == dx * ny,
            0 <= dx,
    ;
    assert(nx < dx ==> q <= big_dy * (dx - 1)) by (nonlinear_arith)
        requires
            q == big_dy * nx,
            0 <= big_dy,
    ;
    assert(nx == dx ==> q == big_dy * dx) by (nonlinear_arith)
        requires
            q == big_dy * nx,
    ;
    assert(ny == big_dy ==> p == dx * big_dy) by (nonlinear_arith)
        requires
            p == dx * ny,
    ;
    assert(dx * (big_dy - 1) == dx * big_dy - dx) by (nonlinear_arith);
    assert(big_dy * (dx - 1) == big_dy * dx - big_dy) by (nonlinear_arith);
    assert(dx * big_dy == big_dy * dx) by (nonlinear_arith);
}

/// Along one axis the walk is at the end point exactly when it has taken all its steps.
proof fn lemma_axis_end(start: int, end: int, position: int, taken: int)
    requires
        position == start + line_sign(start, end) * taken,
    ensures
        (position == end) <==> (taken == line_dx(start, end)),
{
    if start < end {
        assert(line_sign(start, end) * taken == taken) by (nonlinear_arith)
            requires
                line_sign(start, end) == 1,
        ;
    } else {
        assert(line_sign(start, end) * taken == -taken) by (nonlinear_arith)
            requires
                line_sign(start, end) == -1,
        ;
    }
}

/// Draws the Bresenham line from `(x0, y0)` to `(x1, y1)`, clipped to the raster.
fn draw_line(buffer: &mut [u32], width: usize, height: usize, x0: i128, y0: i128, x1: i128, y1: i128, color: u32)
    requires
        old(buffer)@.len() == width * height,
        line_fits(x0 as int, y0 as int, x1 as int, y1 as int),
    ensures
        final(buffer)@ == paint(old(buffer)@, width as int, line_pixels(x0 as int, y0 as int, x1 as int, y1 as int), color),
{
    let ghost base = buffer@;
    let ghost (sx0, sy0, ex, ey) = (x0 as int, y0 as int, x1 as int, y1 as int);
    let delta_x = if x1 >= x0 { x1 - x0 } else { x0 - x1 };
    let step_x: i128 = if x0 < x1 { 1 } else { -1 };
    let delta_y = -(if y1 >= y0 { y1 - y0 } else { y0 - y1 });
    let step_y: i128 = if y0 < y1 { 1 } else { -1 };
    let mut error = delta_x + delta_y;
    let mut x = x0;
    let mut y = y0;
    let ghost mut k: nat = 0;
    let ghost mut nx: int = 0;
    let ghost mut ny: int = 0;
    proof {
        lemma_paint_agree(base, width as int, height as int, |px: int, py: int| false, line_prefix(sx0, sy0, ex, ey, 0), color);
        lemma_paint_nothing(base, width as int, height as int, |px: int, py: int| false, color);
    }
    loop
        invariant_except_break
            buffer@ == paint(base, width as int, line_prefix(sx0, sy0, ex, ey, k), color),
        invariant
            buffer@.len() == width * height,
            base.len() == width * height,
            sx0 == x0,
            sy0 == y0,
            ex == x1,
            ey == y1,
            line_fits(sx0, sy0, ex, ey),
            delta_x == line_dx(sx0, ex),
            delta_y == line_dy(sy0, ey),
            step_x == line_sign(sx0, ex),
            step_y == line_sign(sy0, ey),
            0 <= nx <= delta_x,
            0 <= ny <= -delta_y,
            k <= nx + ny,
            x == sx0 + step_x * nx,
            y == sy0 + step_y * ny,
            error == delta_x + delta_x * ny + delta_y - (-delta_y) * nx,
            2 * delta_y <= error <= 2 * delta_x,
            (x as int, y as int, error as int) == line_state(sx0, sy0, ex, ey, k),
        ensures
            buffer@ == paint(base, width as int, line_pixels(sx0, sy0, ex, ey), color),
        decreases (delta_x - nx) + (-delta_y - ny),
    {
        put_pixel(buffer, width, height, x, y, color);
        proof {
            assert forall|px: int, py: int|
                0 <= px < width && 0 <= py < height implies #[trigger] line_prefix(sx0, sy0, ex, ey, k + 1)(px, py)
                == (line_prefix(sx0, sy0, ex, ey, k)(px, py) || point(x as int, y as int)(px, py)) by {
                if px == x && py == y {
                    assert(line_state(sx0, sy0, ex, ey, k).0 == px);
                }
                if line_prefix(sx0, sy0, ex, ey, k + 1)(px, py) {
                    let j = choose|j: nat|
                        j < k + 1 && #[trigger] line_state(sx0, sy0, ex, ey, j).0 == px && line_state(sx0, sy0, ex, ey, j).1
                            == py;
                    if j < k {
                        assert(line_prefix(sx0, sy0, ex, ey, k)(px, py));
                    }
                }
                if line_prefix(sx0, sy0, ex, ey, k)(px, py) {
                    let j = choose|j: nat|
                        j < k && #[trigger] line_state(sx0, sy0, ex, ey, j).0 == px && line_state(sx0, sy0, ex, ey, j).1 == py;
                    assert(j < k + 1);
                }
            }
            lemma_paint_extend(
                base,
                width as int,
                height as int,
                line_prefix(sx0, sy0, ex, ey, k),
                point(x as int, y as int),
                line_prefix(sx0, sy0, ex, ey, k + 1),
                color,
            );
        }
        if x == x1 && y == y1 {
            proof {
                lemma_axis_end(sx0, ex, x as int, nx);
                lemma_axis_end(sy0, ey, y as int, ny);
                assert(line_dx(sy0, ey) == -delta_y);
                assert(line_state(sx0, sy0, ex, ey, k).0 == ex);
                assert(line_state(sx0, sy0, ex, ey, k).1 == ey);
                assert forall|j: nat| k < j <= delta_x - delta_y implies line_state(sx0, sy0, ex, ey, j) == line_state(
                    sx0,
                    sy0,
                    ex,
                    ey,
                    k,
                ) by {
                    lemma_line_stays(sx0, sy0, ex, ey, k, j);
                }
                assert forall|px: int, py: int|
                    0 <= px < width && 0 <= py < height implies #[trigger] line_pixels(sx0, sy0, ex, ey)(px, py)
                    == line_prefix(sx0, sy0, ex, ey, k + 1)(px, py) by {
                    if line_pixels(sx0, sy0, ex, ey)(px, py) {
                        let j = choose|j: nat|
                            j <= delta_x - delta_y && #[trigger] line_state(sx0, sy0, ex, ey, j).0 == px && line_state(
                                sx0,
                                sy0,
                                ex,
                                ey,
                                j,
                            ).1 == py;
                        if j > k {
                            assert(line_state(sx0, sy0, ex, ey, j) == line_state(sx0, sy0, ex, ey, k));
                        }
                    }
                    if line_prefix(sx0, sy0, ex, ey, k + 1)(px, py) {
                        let j = choose|j: nat|
                            j < k + 1 && #[trigger] line_state(sx0, sy0, ex, ey, j).0 == px && line_state(
                                sx0,
                                sy0,
                                ex,
                                ey,
                                j,
                            ).1 == py;
                        assert(j <= delta_x - delta_y);
                    }
                }
                lemma_paint_agree(
                    base,
                    width as int,
                    height as int,
                    line_prefix(sx0, sy0, ex, ey, k + 1),
                    line_pixels(sx0, sy0, ex, ey),
                    color,
                );
            }
            break;
        }
        let ghost p = delta_x * ny;
        let ghost q = (-delta_y) * nx;
        proof {
            lemma_no_overshoot(delta_x as int, -delta_y, nx, ny, p, q);
            lemma_axis_end(sx0, ex, x as int, nx);
            lemma_axis_end(sy0, ey, y as int, ny);
            assert(line_dx(sy0, ey) == -delta_y);
        }
        let double_error = error * 2;
        let ghost moved_x = double_error >= delta_y;
        let ghost moved_y = double_error <= delta_x;
        if double_error >= delta_y {
            error = error + delta_y;
            x = x + step_x;
        }
        if double_error <= delta_x {
            error = error + delta_x;
            y = y + step_y;
        }
        proof {
            if moved_x {
                assert(step_x * (nx + 1) == step_x * nx + step_x) by (nonlinear_arith);
                assert((-delta_y) * (nx + 1) == (-delta_y) * nx + (-delta_y)) by (nonlinear_arith);
                nx = nx + 1;
            }
            if moved_y {
                assert(step_y * (ny + 1) == step_y * ny + step_y) by (nonlinear_arith);
                assert(delta_x * (ny + 1) == delta_x * ny + delta_x) by (nonlinear_arith);
                ny = ny + 1;
            }
            k = k + 1;
        }
    }
}


/// The pixels of the goal's flag inside its cell's block: a pole down the left
/// column and a pennant in the top-left corner (block rows and columns 1 to 4
/// lie inside the grid lines).
pub open spec fn flag_dot(dot_x: int, dot_y: int) -> bool {
    dot_x == 1 || (dot_x <= 3 && dot_y <= 2)
}

/// The colour of pixel `(x, y)` of the minimap of `tiles` (a grid `map_width`
/// cells wide) with its goal at `goal`: a `CELL_SIZE`-pixel block per cell
/// inside a `PADDING` margin, each block's top row and left column in the grid
/// colour, and a green flag on the goal's floor.
pub open spec fn static_color(tiles: Seq<Seq<u8>>, map_width: int, goal: Option<(int, int)>, x: int, y: int) -> u32 {
    if PADDING <= x < PADDING + map_width * CELL_SIZE && PADDING <= y < PADDING + tiles.len() * CELL_SIZE {
        let (column, dot_x) = ((x - PADDING) / CELL_SIZE as int, (x - PADDING) % CELL_SIZE as int);
        let (row, dot_y) = ((y - PADDING) / CELL_SIZE as int, (y - PADDING) % CELL_SIZE as int);
        if dot_x == 0 || dot_y == 0 {
            GRID_COLOR
        } else if goal == Some((row, column)) && flag_dot(dot_x, dot_y) {
            GOAL_COLOR
        } else if tiles[row][column] == EMPTY_TILE {
            FLOOR_COLOR
        } else {
            spec_wall_color(tiles[row][column])
        }
    } else {
        BACKGROUND_COLOR
    }
}

/// The grid width of a level: that of its first row.
pub open spec fn map_width(tiles: Seq<Seq<u8>>) -> int {
    if tiles.len() > 0 { tiles[0].len() as int } else { 0 }
}

/// The minimap of `tiles` fits in memory.
pub open spec fn minimap_fits(tiles: Seq<Seq<u8>>) -> bool {
    (map_width(tiles) * CELL_SIZE + 2 * PADDING) * (tiles.len() * CELL_SIZE + 2 * PADDING) <= usize::MAX
}

/// The pre-rendered level layout.
pub struct Minimap {
    width: usize,
    height: usize,
    static_pixels: Vec<u32>,
}

/// Where the player is on the minimap, in pixels from the top-left cell's
/// corner, and the offset of the end of the line that shows where they look.
#[derive(Clone, Copy, Debug, PartialEq, Eq)]
pub struct PlayerMarker {
    pub x: i32,
    pub y: i32,
    pub look_x: i32,
    pub look_y: i32,
}

/// The colour of pixel `(x, y)` of the minimap.
fn static_pixel(level: &Level, map_width: usize, map_height: usize, x: usize, y: usize) -> (color: u32)
    requires
        map_width == crate::minimap::map_width(level.model().tiles),
        map_height == level.model().tiles.len(),
        crate::level::is_rectangular(level.model().tiles, map_width as int),
        PADDING + map_width * CELL_SIZE <= usize::MAX,
        PADDING + map_height * CELL_SIZE <= usize::MAX,
    ensures
        color == static_color(level.model().tiles, map_width as int, level.model().goal, x as int, y as int),
{
    if x >= PADDING && x < PADDING + map_width * CELL_SIZE && y >= PADDING && y < PADDING + map_height * CELL_SIZE {
        let column = (x - PADDING) / CELL_SIZE;
        let dot_x = (x - PADDING) % CELL_SIZE;
        let row = (y - PADDING) / CELL_SIZE;
        let dot_y = (y - PADDING) % CELL_SIZE;
        proof {
            vstd::arithmetic::div_mod::lemma_div_is_ordered_by_denominator(0, 1, 1);
            crate::canvas::lemma_block_index((x - PADDING) as int, CELL_SIZE as int, column as int);
            crate::canvas::lemma_block_index((y - PADDING) as int, CELL_SIZE as int, row as int);
            assert(column < map_width) by (nonlinear_arith)
                requires
                    column * CELL_SIZE <= x - PADDING,
                    x - PADDING < map_width * CELL_SIZE,
            ;
            assert(row < map_height) by (nonlinear_arith)
                requires
                    row * CELL_SIZE <= y - PADDING,
                    y - PADDING < map_height * CELL_SIZE,
            ;
            assert(level.model().tiles[row as int] == level.tiles@[row as int]@);
        }
        let at_goal = match level.goal {
            Some(goal) => goal.row == row && goal.column == column,
            None => false,
        };
        if dot_x == 0 || dot_y == 0 {
            GRID_COLOR
        } else if at_goal && (dot_x == 1 || (dot_x <= 3 && dot_y <= 2)) {
            GOAL_COLOR
        } else {
            let tile = level.tiles[row][column];
            if tile == EMPTY_TILE {
                FLOOR_COLOR
            } else {
                wall_color(tile)
            }
        }
    } else {
        BACKGROUND_COLOR
    }
}

impl Minimap {
    #[verifier::type_invariant]
    spec fn well_formed(&self) -> bool {
        self.static_pixels@.len() == self.width * self.height
    }

    /// The image's width in pixels.
    pub closed spec fn image_width(&self) -> int {
        self.width as int
    }

    /// The image's height in pixels.
    pub closed spec fn image_height(&self) -> int {
        self.height as int
    }

    /// The image, row by row.
    pub closed spec fn image(&self) -> Seq<u32> {
        self.static_pixels@
    }

    /// Renders the layout of a rectangular level once.
    pub fn new(level: &Level) -> (minimap: Self)
        requires
            crate::level::is_rectangular(level.model().tiles, map_width(level.model().tiles)),
            minimap_fits(level.model().tiles),
        ensures
            minimap.image_width() == map_width(level.model().tiles) * CELL_SIZE + 2 * PADDING,
            minimap.image_height() == level.model().tiles.len() * CELL_SIZE + 2 * PADDING,
            minimap.image() == Seq::new(
                (minimap.image_width() * minimap.image_height()) as nat,
                |i: int|
                    static_color(
                        level.model().tiles,
                        map_width(level.model().tiles),
                        level.model().goal,
                        pixel_x(minimap.image_width(), i),
                        pixel_y(minimap.image_width(), i),
                    ),
            ),
    {
        let ghost tiles = level.model().tiles;
        let ghost goal = level.model().goal;
        let map_width = if level.tiles.len() > 0 { level.tiles[0].len() } else { 0 };
        let map_height = level.tiles.len();
        proof {
            if map_height > 0 {
                assert(tiles[0] == level.tiles@[0]@);
            }
            assert(map_width * CELL_SIZE + 2 * PADDING <= usize::MAX && map_height * CELL_SIZE + 2 * PADDING
                <= usize::MAX) by (nonlinear_arith)
                requires
                    (map_width * CELL_SIZE + 2 * PADDING) * (map_height * CELL_SIZE + 2 * PADDING) <= usize::MAX,
            ;
        }
        let width = map_width * CELL_SIZE + PADDING * 2;
        let height = map_height * CELL_SIZE + PADDING * 2;
        let mut static_pixels: Vec<u32> = Vec::new();
        let mut y: usize = 0;
        while y < height
            invariant
                tiles == level.model().tiles,
                goal == level.model().goal,
                map_width == crate::minimap::map_width(tiles),
                map_height == tiles.len(),
                crate::level::is_rectangular(tiles, map_width as int),
                width == map_width * CELL_SIZE + 2 * PADDING,
                height == map_height * CELL_SIZE + 2 * PADDING,
                width * height <= usize::MAX,
                width > 0,
                y <= height,
                static_pixels@.len() == y * width,
                forall|i: int|
                    0 <= i < static_pixels@.len() ==> #[trigger] static_pixels@[i] == static_color(
                        tiles,
                        map_width as int,
                        goal,
                        pixel_x(width as int, i),
                        pixel_y(width as int, i),
                    ),
            decreases height - y,
        {
            let mut x: usize = 0;
            while x < width
                invariant
                    tiles == level.model().tiles,
                    goal == level.model().goal,
                    map_width == crate::minimap::map_width(tiles),
                    map_height == tiles.len(),
                    crate::level::is_rectangular(tiles, map_width as int),
                    width == map_width * CELL_SIZE + 2 * PADDING,
                    height == map_height * CELL_SIZE + 2 * PADDING,
                    width * height <= usize::MAX,
                    width > 0,
                    y < height,
                    x <= width,
                    static_pixels@.len() == y * width + x,
                    forall|i: int|
                        0 <= i < static_pixels@.len() ==> #[trigger] static_pixels@[i] == static_color(
                            tiles,
                            map_width as int,
                            goal,
                            pixel_x(width as int, i),
                            pixel_y(width as int, i),
                        ),
                decreases width - x,
            {
                let color = static_pixel(level, map_width, map_height, x, y);
                proof {
                    lemma_index_of_pixel(width as int, x as int, y as int);
                }
                static_pixels.push(color);
                x = x + 1;
            }
            proof {
                assert(y * width + width == (y + 1) * width) by (nonlinear_arith);
            }
            y = y + 1;
        }
        proof {
            assert(height * width == width * height) by (nonlinear_arith);
        }
        let minimap = Minimap { width, height, static_pixels };
        proof {
            assert(minimap.image() =~= Seq::new(
                (minimap.image_width() * minimap.image_height()) as nat,
                |i: int|
                    static_color(
                        tiles,
                        map_width as int,
                        goal,
                        pixel_x(minimap.image_width(), i),
                        pixel_y(minimap.image_width(), i),
                    ),
            ));
        }
        minimap
    }

    /// Copies the layout into the top-right corner of the screen (as much as
    /// fits), then draws where the player looks and a 3x3 dot on the player.
    /// Nothing is drawn unless the buffer holds exactly `screen_width *
    /// screen_height` pixels and neither is 0.
    pub fn draw(&self, buffer: &mut [u32], screen_width: usize, screen_height: usize, marker: PlayerMarker)
        requires
            screen_width * screen_height <= usize::MAX,
            -0x100_0000 <= marker.look_x <= 0x100_0000,
            -0x100_0000 <= marker.look_y <= 0x100_0000,
        ensures
            final(buffer)@ == if old(buffer)@.len() == screen_width * screen_height && screen_width > 0
                && screen_height > 0 {
                self.drawn(old(buffer)@, screen_width as int, screen_height as int, marker)
            } else {
                old(buffer)@
            },
    {
        proof {
            use_type_invariant(self);
        }
        if buffer.len() != screen_width * screen_height || screen_width == 0 || screen_height == 0 {
            return;
        }
        let ghost base = buffer@;
        let ghost (sw, sh) = (screen_width as int, screen_height as int);
        let origin_x = screen_width.saturating_sub(self.width.saturating_add(SCREEN_MARGIN));
        let origin_y = if SCREEN_MARGIN < screen_height { SCREEN_MARGIN } else { screen_height };
        let room_x = screen_width - origin_x;
        let room_y = screen_height - origin_y;
        let copy_width = if self.width < room_x { self.width } else { room_x };
        let copy_height = if self.height < room_y { self.height } else { room_y };
        proof {
            assert(origin_x == self.origin_x(sw)) by {
                assert(self.width + SCREEN_MARGIN > usize::MAX ==> screen_width <= self.width + SCREEN_MARGIN);
            }
        }
        let image_length = self.static_pixels.len();
        let mut row: usize = 0;
        while row < copy_height
            invariant
                image_length == self.static_pixels@.len(),
                screen_width * screen_height <= usize::MAX,
                buffer@.len() == screen_width * screen_height,
                base.len() == screen_width * screen_height,
                sw == screen_width,
                sh == screen_height,
                screen_width > 0,
                self.static_pixels@.len() == self.width * self.height,
                origin_x + copy_width <= screen_width,
                origin_y + copy_height <= screen_height,
                copy_width <= self.width,
                copy_height <= self.height,
                row <= copy_height,
                buffer@ == blit_rows(base, sw, self.static_pixels@, self.width as int, origin_x as int, origin_y as int,
                    copy_width as int, row as int, 0),
            decreases copy_height - row,
        {
            let mut column: usize = 0;
            while column < copy_width
                invariant
                    image_length == self.static_pixels@.len(),
                    screen_width * screen_height <= usize::MAX,
                    buffer@.len() == screen_width * screen_height,
                    base.len() == screen_width * screen_height,
                    sw == screen_width,
                    sh == screen_height,
                    screen_width > 0,
                    self.static_pixels@.len() == self.width * self.height,
                    origin_x + copy_width <= screen_width,
                    origin_y + copy_height <= screen_height,
                    copy_width <= self.width,
                    copy_height <= self.height,
                    row < copy_height,
                    column <= copy_width,
                    buffer@ == blit_rows(base, sw, self.static_pixels@, self.width as int, origin_x as int,
                        origin_y as int, copy_width as int, row as int, column as int),
                decreases copy_width - column,
            {
                proof {
                    assert(row * self.width + column < self.width * self.height) by (nonlinear_arith)
                        requires
                            row < copy_height <= self.height,
                            column < copy_width <= self.width,
                    ;
                    assert((origin_y + row) * screen_width + origin_x + column < screen_width * screen_height)
                        by (nonlinear_arith)
                        requires
                            origin_y + row < screen_height,
                            origin_x + column < screen_width,
                    ;
                    lemma_blit_step(base, sw, sh, self.static_pixels@, self.width as int, origin_x as int,
                        origin_y as int, copy_width as int, row as int, column as int);
                }
                buffer[(origin_y + row) * screen_width + origin_x + column] = self.static_pixels[row * self.width
                    + column];
                column = column + 1;
            }
            proof {
                lemma_blit_row_end(base, sw, sh, self.static_pixels@, self.width as int, origin_x as int,
                    origin_y as int, copy_width as int, row as int);
            }
            row = row + 1;
        }

        let player_x = origin_x as i128 + PADDING as i128 + marker.x as i128;
        let player_y = origin_y as i128 + PADDING as i128 + marker.y as i128;
        let direction_x = player_x + marker.look_x as i128;
        let direction_y = player_y + marker.look_y as i128;
        draw_line(buffer, screen_width, screen_height, player_x, player_y, direction_x, direction_y, PLAYER_COLOR);

        let ghost lined = buffer@;
        let ghost (cx, cy) = (player_x as int, player_y as int);
        proof {
            lemma_paint_nothing(lined, sw, sh, dot_prefix(cx, cy, -1, -1), PLAYER_COLOR);
        }
        let mut offset_y: i128 = -1;
        while offset_y <= 1
            invariant
                buffer@.len() == screen_width * screen_height,
                lined.len() == screen_width * screen_height,
                sw == screen_width,
                sh == screen_height,
                cx == player_x,
                cy == player_y,
                -0x1_0000_0000_0000_0000_0000 <= player_x <= 0x1_0000_0000_0000_0000_0000,
                -0x1_0000_0000_0000_0000_0000 <= player_y <= 0x1_0000_0000_0000_0000_0000,
                -1 <= offset_y <= 2,
                buffer@ == paint(lined, sw, dot_prefix(cx, cy, offset_y as int, -1), PLAYER_COLOR),
            decreases 2 - offset_y,
        {
            let mut offset_x: i128 = -1;
            while offset_x <= 1
                invariant
                    buffer@.len() == screen_width * screen_height,
                    lined.len() == screen_width * screen_height,
                    sw == screen_width,
                    sh == screen_height,
                    cx == player_x,
                    cy == player_y,
                    -0x1_0000_0000_0000_0000_0000 <= player_x <= 0x1_0000_0000_0000_0000_0000,
                    -0x1_0000_0000_0000_0000_0000 <= player_y <= 0x1_0000_0000_0000_0000_0000,
                    -1 <= offset_y <= 1,
                    -1 <= offset_x <= 2,
                    buffer@ == paint(lined, sw, dot_prefix(cx, cy, offset_y as int, offset_x as int), PLAYER_COLOR),
                decreases 2 - offset_x,
            {
                put_pixel(buffer, screen_width, screen_height, player_x + offset_x, player_y + offset_y, PLAYER_COLOR);
                proof {
                    lemma_paint_extend(
                        lined,
                        sw,
                        sh,
                        dot_prefix(cx, cy, offset_y as int, offset_x as int),
                        point(cx + offset_x, cy + offset_y),
                        dot_prefix(cx, cy, offset_y as int, offset_x + 1),
                        PLAYER_COLOR,
                    );
                }
                offset_x = offset_x + 1;
            }
            proof {
                lemma_paint_agree(
                    lined,
                    sw,
                    sh,
                    dot_prefix(cx, cy, offset_y as int, 2),
                    dot_prefix(cx, cy, offset_y + 1, -1),
                    PLAYER_COLOR,
                );
            }
            offset_y = offset_y + 1;
        }
        proof {
            lemma_paint_agree(lined, sw, sh, dot_prefix(cx, cy, 2, -1), rect_area(cx - 1, cy - 1, 3, 3), PLAYER_COLOR);
        }
    }

    /// Where the image goes on a screen `screen_width` wide: `SCREEN_MARGIN`
    /// pixels from the right edge, or at the left edge when it does not fit.
    pub open spec fn origin_x(&self, screen_width: int) -> int {
        if screen_width > self.image_width() + SCREEN_MARGIN {
            screen_width - (self.image_width() + SCREEN_MARGIN)
        } else {
            0
        }
    }

    /// The screen after drawing the minimap on `buf`: the image copied to
    /// `(origin_x, SCREEN_MARGIN)` and clipped to the screen, then the look line
    /// and a 3x3 dot on the player, all clipped.
    pub open spec fn drawn(&self, buf: Seq<u32>, screen_width: int, screen_height: int, marker: PlayerMarker) -> Seq<u32> {
        let origin_x = self.origin_x(screen_width);
        let origin_y = if SCREEN_MARGIN < screen_height { SCREEN_MARGIN as int } else { screen_height };
        let copy_width = if self.image_width() < screen_width - origin_x {
            self.image_width()
        } else {
            screen_width - origin_x
        };
        let copy_height = if self.image_height() < screen_height - origin_y {
            self.image_height()
        } else {
            screen_height - origin_y
        };
        let blitted = blit_rows(
            buf,
            screen_width,
            self.image(),
            self.image_width(),
            origin_x,
            origin_y,
            copy_width,
            copy_height,
            0,
        );
        let player_x = origin_x + PADDING + marker.x;
        let player_y = origin_y + PADDING + marker.y;
        paint(
            paint(
                blitted,
                screen_width,
                line_pixels(player_x, player_y, player_x + marker.look_x, player_y + marker.look_y),
                PLAYER_COLOR,
            ),
            screen_width,
            rect_area(player_x - 1, player_y - 1, 3, 3),
            PLAYER_COLOR,
        )
    }
}

/// `buf` with the part of `image` (rows `image_width` wide) copied to the screen
/// at `(origin_x, origin_y)`: rows above `row` `copy_width` pixels wide, and the
/// first `column` pixels of row `row`.
pub open spec fn blit_rows(
    buf: Seq<u32>,
    screen_width: int,
    image: Seq<u32>,
    image_width: int,
    origin_x: int,
    origin_y: int,
    copy_width: int,
    row: int,
    column: int,
) -> Seq<u32> {
    Seq::new(
        buf.len(),
        |i: int|
            {
                let (dx, dy) = (pixel_x(screen_width, i) - origin_x, pixel_y(screen_width, i) - origin_y);
                if 0 <= dx < copy_width && 0 <= dy && (dy < row || (dy == row && dx < column)) {
                    image[dy * image_width + dx]
                } else {
                    buf[i]
                }
            },
    )
}

/// Copying one more pixel of the image.
proof fn lemma_blit_step(
    base: Seq<u32>,
    screen_width: int,
    screen_height: int,
    image: Seq<u32>,
    image_width: int,
    origin_x: int,
    origin_y: int,
    copy_width: int,
    row: int,
    column: int,
)
    requires
        is_raster(base, screen_width, screen_height),
        screen_width > 0,
        0 <= origin_x,
        0 <= origin_y,
        0 <= row,
        0 <= column < copy_width,
        origin_x + copy_width <= screen_width,
        origin_y + row < screen_height,
    ensures
        blit_rows(base, screen_width, image, image_width, origin_x, origin_y, copy_width, row, column).update(
            (origin_y + row) * screen_width + origin_x + column,
            image[row * image_width + column],
        ) == blit_rows(base, screen_width, image, image_width, origin_x, origin_y, copy_width, row, column + 1),
{
    let idx = (origin_y + row) * screen_width + origin_x + column;
    lemma_index_of_pixel(screen_width, origin_x + column, origin_y + row);
    let lhs = blit_rows(base, screen_width, image, image_width, origin_x, origin_y, copy_width, row, column).update(
        idx,
        image[row * image_width + column],
    );
    let rhs = blit_rows(base, screen_width, image, image_width, origin_x, origin_y, copy_width, row, column + 1);
    assert(idx < screen_width * screen_height) by (nonlinear_arith)
        requires
            idx == (origin_y + row) * screen_width + origin_x + column,
            0 <= origin_y + row < screen_height,
            0 <= origin_x + column < screen_width,
    ;
    assert forall|i: int| 0 <= i < base.len() implies lhs[i] == rhs[i] by {
        lemma_pixel_in_raster(screen_width, screen_height, i);
    }
    assert(lhs =~= rhs);
}

/// A finished row of the copy moves it to the next row.
proof fn lemma_blit_row_end(
    base: Seq<u32>,
    screen_width: int,
    screen_height: int,
    image: Seq<u32>,
    image_width: int,
    origin_x: int,
    origin_y: int,
    copy_width: int,
    row: int,
)
    requires
        is_raster(base, screen_width, screen_height),
        screen_width > 0,
    ensures
        blit_rows(base, screen_width, image, image_width, origin_x, origin_y, copy_width, row, copy_width)
            == blit_rows(base, screen_width, image, image_width, origin_x, origin_y, copy_width, row + 1, 0),
{
    assert(blit_rows(base, screen_width, image, image_width, origin_x, origin_y, copy_width, row, copy_width)
        =~= blit_rows(base, screen_width, image, image_width, origin_x, origin_y, copy_width, row + 1, 0));
}

/// The player's 3x3 dot, cells before `(offset_x, offset_y)` in row-major order.
pub open spec fn dot_prefix(x: int, y: int, offset_y: int, offset_x: int) -> spec_fn(int, int) -> bool {
    |px: int, py: int|
        x - 1 <= px <= x + 1 && y - 1 <= py <= y + 1 && (py - y < offset_y || (py - y == offset_y && px - x < offset_x))
}

} // verus!
